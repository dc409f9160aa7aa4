//! Lists of distinct ids, and a few facts about sequences that the modules
//! which keep such lists share.
use vstd::prelude::*;

verus! {

/// Appending what a sequence does not hold keeps its items distinct.
pub proof fn lemma_push_keeps_distinct<T>(s: Seq<T>, v: T)
    requires
        s.no_duplicates(),
        !s.contains(v),
    ensures
        s.push(v).no_duplicates(),
{
    assert forall|i: int, j: int|
        0 <= i < s.push(v).len() && 0 <= j < s.push(v).len() && i != j implies s.push(v)[i]
        != s.push(v)[j] by {
        if i < s.len() && j < s.len() {
        } else if i < s.len() {
            assert(s.contains(s[i]));
        } else {
            assert(s.contains(s[j]));
        }
    }
}

/// What a sequence holds after an append: what it held, and the new item.
pub proof fn lemma_push_contains<T>(s: Seq<T>, v: T, w: T)
    ensures
        s.push(v).contains(w) <==> s.contains(w) || w == v,
{
    if s.push(v).contains(w) {
        let i = choose|i: int| 0 <= i < s.push(v).len() && s.push(v)[i] == w;
        if i < s.len() {
            assert(s[i] == w);
        }
    }
    if s.contains(w) {
        let i = choose|i: int| 0 <= i < s.len() && s[i] == w;
        assert(s.push(v)[i] == w);
    }
    if w == v {
        assert(s.push(v)[s.len() as int] == w);
    }
}

pub(crate) fn list_position(list: &Vec<u64>, id: u64) -> (r: Option<usize>)
    ensures
        match r {
            Some(i) => i < list@.len() && list@[i as int] == id,
            None => !list@.contains(id),
        },
{
    let mut i: usize = 0;
    while i < list.len()
        invariant
            i <= list@.len(),
            forall|k: int| 0 <= k < i ==> list@[k] != id,
        decreases list@.len() - i,
    {
        if list[i] == id {
            return Some(i);
        }
        i += 1;
    }
    None
}

/// Takes `id` out of a list of distinct ids; the last id moves into its place.
pub(crate) fn list_remove(list: &mut Vec<u64>, id: u64)
    requires
        old(list)@.no_duplicates(),
    ensures
        final(list)@.no_duplicates(),
        forall|j: u64| #[trigger] final(list)@.contains(j) <==> old(list)@.contains(j) && j != id,
{
    match list_position(list, id) {
        Some(pos) => {
            let ghost before = list@;
            list.swap_remove(pos);
            proof {
                let after = list@;
                let n = before.len() as int;
                assert(after.len() == n - 1);
                assert forall|k: int| 0 <= k < n - 1 implies #[trigger] after[k] == (if k == pos {
                    before[n - 1]
                } else {
                    before[k]
                }) by {}
                assert forall|j: u64| #[trigger] after.contains(j) <==> before.contains(j) && j
                    != id by {
                    if after.contains(j) {
                        let k = choose|k: int| 0 <= k < after.len() && after[k] == j;
                        if k == pos {
                            assert(before[n - 1] == j);
                        } else {
                            assert(before[k] == j);
                        }
                    }
                    if before.contains(j) && j != id {
                        let k = choose|k: int| 0 <= k < before.len() && before[k] == j;
                        if k == n - 1 {
                            assert(after[pos as int] == j);
                        } else {
                            assert(after[k] == j);
                        }
                    }
                }
            }
        },
        None => {},
    }
}

/// What the first `k + 1` items of a sequence hold: what the first `k` hold,
/// and the item at `k`.
pub proof fn lemma_take_step<T>(s: Seq<T>, k: int, v: T)
    requires
        0 <= k < s.len(),
    ensures
        s.take(k + 1).contains(v) <==> s.take(k).contains(v) || s[k] == v,
        s.no_duplicates() ==> !s.take(k).contains(s[k]),
{
    assert(s.take(k + 1) =~= s.take(k).push(s[k]));
    lemma_push_contains(s.take(k), s[k], v);
    if s.no_duplicates() && s.take(k).contains(s[k]) {
        let i = choose|i: int| 0 <= i < s.take(k).len() && s.take(k)[i] == s[k];
        assert(s[i] == s[k]);
    }
}

} // verus!
