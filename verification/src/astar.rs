//! A* over a [`Graph`] with whole-number costs.
//!
//! The search keeps an open list of nodes to look at, each with the cost of
//! the cheapest way found to it so far plus the estimate of what is left. It
//! takes the entry with the least such sum, looks at the node's edges, and
//! puts a neighbour on the list again whenever it found a cheaper way to it.
//! It ends when the goal is taken from the list, or the list is empty. The
//! open list is a plain list that is searched for its least entry; among
//! entries with the same sum the one that was put on the list first goes
//! first, unless taking out an entry has moved a later one forward.
//!
//! A cost of [`UNREACHABLE`] or more stands for no way at all: a path that
//! dear is not found, and is not looked for.
use crate::graph_nav::Graph;
use std::collections::HashMap;
use vstd::prelude::*;

verus! {

broadcast use vstd::std_specs::hash::group_hash_axioms;

/// The cost from which on a node counts as out of reach.
pub const UNREACHABLE: u64 = u64::MAX;

/// The key under which the cost of the edge from `from` to `to` is filed:
/// the two ids side by side.
pub open spec fn pair_key(from: u64, to: u64) -> u128 {
    (from * 0x1_0000_0000_0000_0000 + to) as u128
}

/// Different edges have different keys.
pub proof fn lemma_pair_key_injective(a1: u64, b1: u64, a2: u64, b2: u64)
    requires
        pair_key(a1, b1) == pair_key(a2, b2),
    ensures
        a1 == a2,
        b1 == b2,
{
    let k = a1 * 0x1_0000_0000_0000_0000 + b1;
    assert(k == a2 * 0x1_0000_0000_0000_0000 + b2);
    vstd::arithmetic::div_mod::lemma_fundamental_div_mod_converse(
        k,
        0x1_0000_0000_0000_0000,
        a1 as int,
        b1 as int,
    );
    vstd::arithmetic::div_mod::lemma_fundamental_div_mod_converse(
        k,
        0x1_0000_0000_0000_0000,
        a2 as int,
        b2 as int,
    );
}

/// The key of a pair of ids.
pub(crate) fn key_of(from: u64, to: u64) -> (k: u128)
    ensures
        k == pair_key(from, to),
{
    (from as u128) * 0x1_0000_0000_0000_0000 + (to as u128)
}

/// The pair of ids that a key stands for.
pub(crate) fn pair_of(key: u128) -> (p: (u64, u64))
    ensures
        pair_key(p.0, p.1) == key,
{
    let from: u128 = key / 0x1_0000_0000_0000_0000;
    let to: u128 = key % 0x1_0000_0000_0000_0000;
    (from as u64, to as u64)
}

/// What the edges cost, and what each node is estimated to be away from the
/// goal of one search.
pub struct Costs {
    edges: HashMap<u128, u64>,
    estimates: HashMap<u64, u64>,
}

impl Costs {
    /// The cost of the edge from `from` to `to`, if one was set.
    pub closed spec fn edge(&self, from: u64, to: u64) -> Option<u64> {
        if self.edges@.contains_key(pair_key(from, to)) {
            Some(self.edges@[pair_key(from, to)])
        } else {
            None
        }
    }

    /// The estimate of what is left from `node` to the goal; zero where none
    /// was set.
    pub closed spec fn estimate(&self, node: u64) -> u64 {
        if self.estimates@.contains_key(node) {
            self.estimates@[node]
        } else {
            0
        }
    }

    /// No costs and no estimates.
    pub fn new() -> (r: Self)
        ensures
            forall|a: u64, b: u64| #[trigger] r.edge(a, b) is None,
            forall|n: u64| #[trigger] r.estimate(n) == 0,
    {
        Costs { edges: HashMap::new(), estimates: HashMap::new() }
    }

    /// Sets what the edge from `from` to `to` costs.
    pub fn set_edge(&mut self, from: u64, to: u64, cost: u64)
        ensures
            final(self).edge(from, to) == Some(cost),
            forall|a: u64, b: u64|
                (a, b) != (from, to) ==> #[trigger] final(self).edge(a, b) == old(self).edge(a, b),
            forall|n: u64| #[trigger] final(self).estimate(n) == old(self).estimate(n),
    {
        let key = key_of(from, to);
        self.edges.insert(key, cost);
        proof {
            assert forall|a: u64, b: u64| (a, b) != (from, to) implies #[trigger] self.edge(a, b)
                == old(self).edge(a, b) by {
                if pair_key(a, b) == key {
                    lemma_pair_key_injective(a, b, from, to);
                }
            }
        }
    }

    /// Sets the estimate of what is left from `node` to the goal.
    pub fn set_estimate(&mut self, node: u64, value: u64)
        ensures
            final(self).estimate(node) == value,
            forall|n: u64| n != node ==> #[trigger] final(self).estimate(n) == old(self).estimate(n),
            forall|a: u64, b: u64| #[trigger] final(self).edge(a, b) == old(self).edge(a, b),
    {
        self.estimates.insert(node, value);
    }

    /// The cost of the edge from `from` to `to`, if one was set.
    pub fn edge_cost(&self, from: u64, to: u64) -> (r: Option<u64>)
        ensures
            r == self.edge(from, to),
    {
        let key = key_of(from, to);
        match self.edges.get(&key) {
            Some(c) => Some(*c),
            None => None,
        }
    }

    /// Drops every estimate: each node is estimated at zero again. What the
    /// edges cost stays.
    pub fn clear_estimates(&mut self)
        ensures
            forall|n: u64| #[trigger] final(self).estimate(n) == 0,
            forall|a: u64, b: u64| #[trigger] final(self).edge(a, b) == old(self).edge(a, b),
    {
        self.estimates.clear();
    }

    /// The estimate of what is left from `node` to the goal.
    pub fn estimate_of(&self, node: u64) -> (r: u64)
        ensures
            r == self.estimate(node),
    {
        match self.estimates.get(&node) {
            Some(h) => *h,
            None => 0,
        }
    }
}

// ---------------------------------------------------------------------------
// Paths and what they cost
// ---------------------------------------------------------------------------

/// Whether the search may go from `a` to `b` in one step: both are nodes,
/// `a` has an edge to `b`, and the edge has a cost.
pub open spec fn passable(graph: &Graph, costs: &Costs, a: u64, b: u64) -> bool {
    &&& graph.has_node(a)
    &&& graph.has_node(b)
    &&& graph.edges(a).contains(b)
    &&& costs.edge(a, b) is Some
}

/// What the step from `a` to `b` costs.
pub open spec fn step_cost(costs: &Costs, a: u64, b: u64) -> nat {
    match costs.edge(a, b) {
        Some(c) => c as nat,
        None => 0,
    }
}

/// Whether `p` is a path: a node, followed by nodes each of which is one
/// passable step from the one before.
pub open spec fn is_path(graph: &Graph, costs: &Costs, p: Seq<u64>) -> bool {
    &&& p.len() > 0
    &&& graph.has_node(p[0])
    &&& forall|i: int| 0 <= i < p.len() - 1 ==> passable(graph, costs, #[trigger] p[i], p[i + 1])
}

/// Whether `p` is a path from `start` to `goal`.
pub open spec fn connects(graph: &Graph, costs: &Costs, p: Seq<u64>, start: u64, goal: u64) -> bool {
    is_path(graph, costs, p) && p[0] == start && p.last() == goal
}

/// What a path costs: the sum of the costs of its steps.
pub open spec fn path_cost(costs: &Costs, p: Seq<u64>) -> nat
    decreases p.len(),
{
    if p.len() <= 1 {
        0
    } else {
        step_cost(costs, p[0], p[1]) + path_cost(costs, p.drop_first())
    }
}

/// Whether no estimate overshoots: from every node, every path to `goal`
/// costs at least what the node's estimate says.
pub open spec fn admissible(graph: &Graph, costs: &Costs, goal: u64) -> bool {
    forall|p: Seq<u64>| #[trigger]
        is_path(graph, costs, p) && p.last() == goal ==> costs.estimate(p[0]) <= path_cost(
            costs,
            p,
        )
}

/// Whether a step from `u` to `v`, if there is one, takes the estimate down
/// by no more than it costs.
pub open spec fn step_is_consistent(graph: &Graph, costs: &Costs, u: u64, v: u64) -> bool {
    passable(graph, costs, u, v) ==> costs.estimate(u) <= step_cost(costs, u, v)
        + costs.estimate(v)
}

/// Whether the estimates are consistent: the goal is estimated at zero, and
/// no step takes the estimate down by more than the step costs. Estimates
/// that are all zero are consistent, and consistent estimates never
/// overshoot.
pub open spec fn consistent(graph: &Graph, costs: &Costs, goal: u64) -> bool {
    &&& costs.estimate(goal) == 0
    &&& forall|u: u64, v: u64| #[trigger] step_is_consistent(graph, costs, u, v)
}

proof fn lemma_consistent_bounds_path(graph: &Graph, costs: &Costs, goal: u64, p: Seq<u64>)
    requires
        consistent(graph, costs, goal),
        is_path(graph, costs, p),
        p.last() == goal,
    ensures
        costs.estimate(p[0]) <= path_cost(costs, p),
    decreases p.len(),
{
    if p.len() > 1 {
        lemma_suffix_is_path(graph, costs, p, 1);
        assert(p.skip(1) =~= p.drop_first());
        lemma_consistent_bounds_path(graph, costs, goal, p.drop_first());
        assert(passable(graph, costs, p[0int], p[0int + 1]));
        assert(step_is_consistent(graph, costs, p[0], p[1]));
    }
}

/// Consistent estimates never overshoot.
pub proof fn lemma_consistent_is_admissible(graph: &Graph, costs: &Costs, goal: u64)
    requires
        consistent(graph, costs, goal),
    ensures
        admissible(graph, costs, goal),
{
    assert forall|p: Seq<u64>| #[trigger]
        is_path(graph, costs, p) && p.last() == goal implies costs.estimate(p[0]) <= path_cost(
        costs,
        p,
    ) by {
        lemma_consistent_bounds_path(graph, costs, goal, p);
    }
}

/// A path with one more step at its end costs that step more.
pub proof fn lemma_path_cost_push(costs: &Costs, p: Seq<u64>, v: u64)
    requires
        p.len() > 0,
    ensures
        path_cost(costs, p.push(v)) == path_cost(costs, p) + step_cost(costs, p.last(), v),
    decreases p.len(),
{
    if p.len() == 1 {
        assert(p.push(v).drop_first() =~= seq![v]);
        assert(p.push(v)[0] == p[0]);
        assert(p.push(v)[1] == v);
        assert(path_cost(costs, seq![v]) == 0);
        assert(path_cost(costs, p) == 0);
    } else {
        assert(p.push(v).drop_first() =~= p.drop_first().push(v));
        lemma_path_cost_push(costs, p.drop_first(), v);
        assert(p.push(v)[0] == p[0]);
        assert(p.push(v)[1] == p[1]);
        assert(p.drop_first().last() == p.last());
    }
}

/// A path costs what its part up to a node and its part from that node on
/// cost together.
pub proof fn lemma_path_cost_split(costs: &Costs, p: Seq<u64>, i: int)
    requires
        0 <= i < p.len(),
    ensures
        path_cost(costs, p) == path_cost(costs, p.take(i + 1)) + path_cost(costs, p.skip(i)),
    decreases i,
{
    if i == 0 {
        assert(p.skip(0) =~= p);
        assert(p.take(1).len() == 1);
        assert(path_cost(costs, p.take(1)) == 0);
    } else {
        let rest = p.drop_first();
        lemma_path_cost_split(costs, rest, i - 1);
        assert(rest.take(i) =~= p.take(i + 1).drop_first());
        assert(rest.skip(i - 1) =~= p.skip(i));
        assert(p.take(i + 1)[0] == p[0]);
        assert(p.take(i + 1)[1] == p[1]);
    }
}

/// The part of a path from one of its nodes on is a path.
pub proof fn lemma_suffix_is_path(graph: &Graph, costs: &Costs, p: Seq<u64>, i: int)
    requires
        is_path(graph, costs, p),
        0 <= i < p.len(),
    ensures
        is_path(graph, costs, p.skip(i)),
        p.skip(i)[0] == p[i],
        p.skip(i).last() == p.last(),
{
    let s = p.skip(i);
    if i > 0 {
        assert(passable(graph, costs, p[i - 1], p[i]));
    }
    assert forall|k: int| 0 <= k < s.len() - 1 implies passable(
        graph,
        costs,
        #[trigger] s[k],
        s[k + 1],
    ) by {
        assert(passable(graph, costs, p[i + k], p[i + k + 1]));
    }
}

// ---------------------------------------------------------------------------
// The state of a search, and what holds of it
// ---------------------------------------------------------------------------

/// The sum by which the open list is ordered: a cost plus an estimate,
/// capped at [`UNREACHABLE`].
spec fn f_score(g: u64, h: u64) -> u64 {
    if g + h >= UNREACHABLE {
        UNREACHABLE
    } else {
        (g + h) as u64
    }
}

/// The value of a search under way.
struct Progress {
    /// The cost of the cheapest way found so far to each node reached.
    g: Map<u64, u64>,
    /// The node before each node on that way.
    came_from: Map<u64, u64>,
    /// The open list: pairs of a sum and a node.
    open: Seq<(u64, u64)>,
    /// For each node reached, a count that is one more than the count that
    /// the node before it had when its way was found: what tells a node
    /// from the one before it where the step between them costs nothing.
    tie: Map<u64, nat>,
}

impl Progress {
    /// Whether the entry at `i` of the open list is an entry for `u` that is
    /// up to date with the cost of the way to `u`.
    spec fn is_fresh(self, costs: &Costs, u: u64, i: int) -> bool {
        &&& 0 <= i < self.open.len()
        &&& self.open[i].1 == u
        &&& self.open[i].0 <= f_score(self.g[u], costs.estimate(u))
    }

    /// Whether `u` is still to be looked at with the cost it has now.
    spec fn pending(self, costs: &Costs, u: u64) -> bool {
        exists|i: int| #[trigger] self.is_fresh(costs, u, i)
    }

    /// Whether every step from `u` has been taken into account: each node
    /// one step away is reached at no more than the cost of going by `u`.
    spec fn relaxed(self, graph: &Graph, costs: &Costs, u: u64) -> bool {
        forall|v: u64| #[trigger]
            passable(graph, costs, u, v) && self.g[u] + step_cost(costs, u, v) < UNREACHABLE
                ==> self.g.contains_key(v) && self.g[v] <= self.g[u] + step_cost(costs, u, v)
    }

    /// Whether `p` stands before `n` in the order that every way follows.
    spec fn before(self, p: u64, n: u64) -> bool {
        self.g[p] < self.g[n] || (self.g[p] == self.g[n] && self.tie[p] < self.tie[n])
    }

    /// Whether the node before `n` on its way is reached, one passable step
    /// away, cheap enough, and before `n` in the order of ways.
    spec fn linked(self, graph: &Graph, costs: &Costs, n: u64) -> bool {
        &&& self.g.contains_key(self.came_from[n])
        &&& passable(graph, costs, self.came_from[n], n)
        &&& self.g[self.came_from[n]] + step_cost(costs, self.came_from[n], n) <= self.g[n]
        &&& self.before(self.came_from[n], n)
    }

    /// What holds of the ways found: the start is reached at no cost, every
    /// node reached is a node and in reach, and every node reached but the
    /// start has a node before it on its way.
    spec fn ways_hold(self, graph: &Graph, costs: &Costs, start: u64) -> bool {
        &&& self.g.contains_key(start)
        &&& self.g[start] == 0
        &&& forall|n: u64| #[trigger] self.g.contains_key(n) ==> graph.has_node(n) && self.g[n]
            < UNREACHABLE
        &&& forall|n: u64| #[trigger]
            self.came_from.contains_key(n) <==> self.g.contains_key(n) && n != start
        &&& forall|n: u64| #[trigger]
            self.came_from.contains_key(n) ==> self.linked(graph, costs, n)
    }

    /// What holds of the open list: every entry is for a node reached, and
    /// its sum is no less than the cost of the way to the node.
    spec fn entries_hold(self) -> bool {
        forall|i: int|
            0 <= i < self.open.len() ==> self.g.contains_key((#[trigger] self.open[i]).1)
                && self.open[i].0 >= self.g[self.open[i].1]
    }

    /// Every node reached is still to be looked at, or has been.
    spec fn frontier_holds(self, graph: &Graph, costs: &Costs) -> bool {
        forall|u: u64| #[trigger]
            self.g.contains_key(u) ==> self.pending(costs, u) || self.relaxed(graph, costs, u)
    }
}

/// Along a path from the start whose cost is in reach, the search is never
/// behind: up to any node of the path, either some node is still to be looked
/// at and reached no dearer than by the path, or the node itself is reached
/// no dearer than by the path.
proof fn lemma_frontier(
    graph: &Graph,
    costs: &Costs,
    start: u64,
    s: Progress,
    q: Seq<u64>,
    j: int,
)
    requires
        s.ways_hold(graph, costs, start),
        s.frontier_holds(graph, costs),
        is_path(graph, costs, q),
        q[0] == start,
        0 <= j < q.len(),
        path_cost(costs, q.take(j + 1)) < UNREACHABLE,
    ensures
        (exists|i: int|
            0 <= i <= j && #[trigger] s.pending(costs, q[i]) && s.g.contains_key(q[i]) && s.g[q[i]]
                <= path_cost(costs, q.take(i + 1))) || (s.g.contains_key(q[j]) && s.g[q[j]]
            <= path_cost(costs, q.take(j + 1))),
    decreases j,
{
    if j == 0 {
        assert(q.take(1).len() == 1);
        assert(path_cost(costs, q.take(1)) == 0);
    } else {
        assert(q.take(j + 1) =~= q.take(j).push(q[j]));
        lemma_path_cost_push(costs, q.take(j), q[j]);
        assert(q.take(j).last() == q[j - 1]);
        lemma_frontier(graph, costs, start, s, q, j - 1);
        if exists|i: int|
            0 <= i <= j - 1 && #[trigger] s.pending(costs, q[i]) && s.g.contains_key(q[i])
                && s.g[q[i]] <= path_cost(costs, q.take(i + 1)) {
            let i = choose|i: int|
                0 <= i <= j - 1 && #[trigger] s.pending(costs, q[i]) && s.g.contains_key(q[i])
                    && s.g[q[i]] <= path_cost(costs, q.take(i + 1));
            assert(0 <= i <= j && s.pending(costs, q[i]));
        } else {
            let u = q[j - 1];
            assert(s.g.contains_key(u));
            if s.pending(costs, u) {
                assert(0 <= j - 1 <= j && s.pending(costs, q[j - 1]));
            } else {
                assert(s.relaxed(graph, costs, u));
                assert(passable(graph, costs, q[j - 1], q[j]));
            }
        }
    }
}

/// When the entry with the least sum is one for the goal, and no estimate
/// overshoots, the goal is reached as cheaply as any path reaches it.
proof fn lemma_goal_is_reached_cheapest(
    graph: &Graph,
    costs: &Costs,
    start: u64,
    goal: u64,
    s: Progress,
    m: int,
    q: Seq<u64>,
)
    requires
        s.ways_hold(graph, costs, start),
        s.entries_hold(),
        s.frontier_holds(graph, costs),
        0 <= m < s.open.len(),
        s.open[m].1 == goal,
        forall|i: int| 0 <= i < s.open.len() ==> s.open[m].0 <= (#[trigger] s.open[i]).0,
        admissible(graph, costs, goal),
        connects(graph, costs, q, start, goal),
    ensures
        s.g.contains_key(goal),
        s.g[goal] <= path_cost(costs, q),
{
    assert(s.g.contains_key(s.open[m].1));
    if path_cost(costs, q) < UNREACHABLE {
        let j = q.len() - 1;
        assert(q.take(j + 1) =~= q);
        lemma_frontier(graph, costs, start, s, q, j);
        if exists|i: int|
            0 <= i <= j && #[trigger] s.pending(costs, q[i]) && s.g.contains_key(q[i]) && s.g[q[i]]
                <= path_cost(costs, q.take(i + 1)) {
            let i = choose|i: int|
                0 <= i <= j && #[trigger] s.pending(costs, q[i]) && s.g.contains_key(q[i])
                    && s.g[q[i]] <= path_cost(costs, q.take(i + 1));
            let k = choose|k: int| #[trigger] s.is_fresh(costs, q[i], k);
            lemma_suffix_is_path(graph, costs, q, i);
            lemma_path_cost_split(costs, q, i);
            assert(is_path(graph, costs, q.skip(i)) && q.skip(i).last() == goal);
            assert(costs.estimate(q[i]) <= path_cost(costs, q.skip(i)));
            assert(s.open[m].0 <= s.open[k].0);
        }
    }
}

/// When nothing is left to look at and the goal is not reached, no path in
/// reach leads from the start to the goal.
proof fn lemma_goal_is_out_of_reach(
    graph: &Graph,
    costs: &Costs,
    start: u64,
    goal: u64,
    s: Progress,
    q: Seq<u64>,
)
    requires
        s.ways_hold(graph, costs, start),
        s.frontier_holds(graph, costs),
        s.open.len() == 0,
        !s.g.contains_key(goal),
        connects(graph, costs, q, start, goal),
    ensures
        path_cost(costs, q) >= UNREACHABLE,
{
    if path_cost(costs, q) < UNREACHABLE {
        let j = q.len() - 1;
        assert(q.take(j + 1) =~= q);
        lemma_frontier(graph, costs, start, s, q, j);
        if exists|i: int|
            0 <= i <= j && #[trigger] s.pending(costs, q[i]) && s.g.contains_key(q[i]) && s.g[q[i]]
                <= path_cost(costs, q.take(i + 1)) {
            let i = choose|i: int|
                0 <= i <= j && #[trigger] s.pending(costs, q[i]) && s.g.contains_key(q[i])
                    && s.g[q[i]] <= path_cost(costs, q.take(i + 1));
            let k = choose|k: int| #[trigger] s.is_fresh(costs, q[i], k);
            assert(false);
        }
    }
}

// ---------------------------------------------------------------------------
// Why the search ends
// ---------------------------------------------------------------------------

/// What a node counts for as long as the search may still find a cheaper way
/// to it: its cost, and [`UNREACHABLE`] before it is reached.
spec fn standing(g: Map<u64, u64>, n: u64) -> nat {
    if g.contains_key(n) {
        g[n] as nat
    } else {
        UNREACHABLE as nat
    }
}

/// The sum of the standings of the nodes listed.
spec fn potential(ids: Seq<u64>, g: Map<u64, u64>) -> nat
    decreases ids.len(),
{
    if ids.len() == 0 {
        0
    } else {
        potential(ids.drop_last(), g) + standing(g, ids.last())
    }
}

/// A cheaper way to one of the nodes listed lowers the potential by what the
/// way is cheaper.
proof fn lemma_potential_drops(ids: Seq<u64>, g: Map<u64, u64>, v: u64, cost: u64)
    requires
        ids.no_duplicates(),
        cost <= standing(g, v),
    ensures
        ids.contains(v) ==> potential(ids, g.insert(v, cost)) + standing(g, v) == potential(
            ids,
            g,
        ) + cost,
        !ids.contains(v) ==> potential(ids, g.insert(v, cost)) == potential(ids, g),
    decreases ids.len(),
{
    if ids.len() > 0 {
        let rest = ids.drop_last();
        let last = ids.last();
        assert(rest.no_duplicates());
        lemma_potential_drops(rest, g, v, cost);
        if last == v {
            if rest.contains(v) {
                let i = choose|i: int| 0 <= i < rest.len() && rest[i] == v;
                assert(ids[i] == ids[ids.len() - 1]);
            }
            assert(ids[ids.len() - 1] == v);
        } else {
            if ids.contains(v) {
                let i = choose|i: int| 0 <= i < ids.len() && ids[i] == v;
                assert(rest[i] == v);
            }
            if rest.contains(v) {
                let i = choose|i: int| 0 <= i < rest.len() && rest[i] == v;
                assert(ids[i] == v);
            }
        }
    }
}

// ---------------------------------------------------------------------------
// The search
// ---------------------------------------------------------------------------

/// A search under way.
struct Search {
    open: Vec<(u64, u64)>,
    g: HashMap<u64, u64>,
    came_from: HashMap<u64, u64>,
    tie: Ghost<Map<u64, nat>>,
}

impl View for Search {
    type V = Progress;

    closed spec fn view(&self) -> Progress {
        Progress { g: self.g@, came_from: self.came_from@, open: self.open@, tie: self.tie@ }
    }
}

impl Progress {
    /// Every node reached but `u` is still to be looked at, or has been.
    spec fn frontier_holds_but(self, graph: &Graph, costs: &Costs, u: u64) -> bool {
        forall|x: u64| #[trigger]
            self.g.contains_key(x) && x != u ==> self.pending(costs, x) || self.relaxed(
                graph,
                costs,
                x,
            )
    }

    /// The first `k` edges of `u` have been taken into account.
    spec fn relaxed_upto(self, graph: &Graph, costs: &Costs, u: u64, k: int) -> bool {
        forall|j: int|
            0 <= j < k && j < graph.edges(u).len() ==> self.edge_relaxed(
                graph,
                costs,
                u,
                #[trigger] graph.edges(u)[j],
            )
    }

    /// The step from `u` to `v`, if in reach, has been taken into account.
    spec fn edge_relaxed(self, graph: &Graph, costs: &Costs, u: u64, v: u64) -> bool {
        passable(graph, costs, u, v) && self.g[u] + step_cost(costs, u, v) < UNREACHABLE
            ==> self.g.contains_key(v) && self.g[v] <= self.g[u] + step_cost(costs, u, v)
    }

    /// As long as the goal was not taken from the open list, it waits there
    /// once it is reached.
    spec fn goal_waits(self, costs: &Costs, goal: u64) -> bool {
        self.g.contains_key(goal) ==> self.pending(costs, goal)
    }

    /// What the search has still to go through, at the most.
    spec fn work_left(self, graph: &Graph) -> nat {
        2 * potential(graph.ids(), self.g) + self.open.len()
    }
}

/// The place of the first entry with the least sum.
fn least_entry(open: &Vec<(u64, u64)>) -> (m: usize)
    requires
        open@.len() > 0,
    ensures
        m < open@.len(),
        forall|i: int| 0 <= i < open@.len() ==> open@[m as int].0 <= (#[trigger] open@[i]).0,
        forall|i: int| 0 <= i < m ==> open@[m as int].0 < (#[trigger] open@[i]).0,
{
    let mut m: usize = 0;
    let mut i: usize = 1;
    while i < open.len()
        invariant
            m < i <= open@.len(),
            forall|k: int| 0 <= k < i ==> open@[m as int].0 <= (#[trigger] open@[k]).0,
            forall|k: int| 0 <= k < m ==> open@[m as int].0 < (#[trigger] open@[k]).0,
        decreases open@.len() - i,
    {
        if open[i].0 < open[m].0 {
            m = i;
        }
        i += 1;
    }
    m
}

/// What a way costs when read from its end to its beginning.
spec fn back_cost(costs: &Costs, back: Seq<u64>) -> nat
    decreases back.len(),
{
    if back.len() <= 1 {
        0
    } else {
        back_cost(costs, back.drop_last()) + step_cost(
            costs,
            back[back.len() - 1],
            back[back.len() - 2],
        )
    }
}

/// Whether `a` is `b` read backwards.
spec fn is_reverse(a: Seq<u64>, b: Seq<u64>) -> bool {
    a.len() == b.len() && forall|k: int| 0 <= k < a.len() ==> #[trigger] a[k] == b[b.len() - 1 - k]
}

proof fn lemma_back_cost(costs: &Costs, path: Seq<u64>, back: Seq<u64>)
    requires
        is_reverse(path, back),
    ensures
        path_cost(costs, path) == back_cost(costs, back),
    decreases path.len(),
{
    if path.len() > 1 {
        let n = back.len() as int;
        assert(path[0] == back[n - 1]);
        assert(path[1] == back[n - 2]);
        assert(is_reverse(path.drop_first(), back.drop_last())) by {
            assert forall|k: int| 0 <= k < path.drop_first().len() implies #[trigger]
                path.drop_first()[k] == back.drop_last()[back.drop_last().len() - 1 - k] by {
                assert(path[k + 1] == back[n - 1 - (k + 1)]);
            }
        }
        lemma_back_cost(costs, path.drop_first(), back.drop_last());
    }
}

/// Follows the way back from the goal to the start and writes it down from
/// the start to the goal.
fn reconstruct(graph: &Graph, costs: &Costs, search: &Search, start: u64, goal: u64) -> (r: Vec<
    u64,
>)
    requires
        search@.ways_hold(graph, costs, start),
        search@.g.contains_key(goal),
    ensures
        connects(graph, costs, r@, start, goal),
        path_cost(costs, r@) <= search@.g[goal],
{
    let mut back: Vec<u64> = Vec::new();
    back.push(goal);
    let mut curr: u64 = goal;
    assert(back_cost(costs, back@) == 0);
    loop
        invariant_except_break
            search@.ways_hold(graph, costs, start),
            search@.g.contains_key(goal),
            search@.g.contains_key(curr),
            back@.len() > 0,
            back@[0] == goal,
            back@.last() == curr,
            forall|i: int| 0 < i < back@.len() ==> passable(graph, costs, #[trigger] back@[i], back@[i - 1]),
            back_cost(costs, back@) + search@.g[curr] <= search@.g[goal],
        ensures
            search@.g.contains_key(goal),
            back@.len() > 0,
            back@[0] == goal,
            back@.last() == start,
            forall|i: int| 0 < i < back@.len() ==> passable(graph, costs, #[trigger] back@[i], back@[i - 1]),
            back_cost(costs, back@) <= search@.g[goal],
            graph.has_node(start),
        decreases search@.g[curr], search@.tie[curr],
    {
        match search.came_from.get(&curr) {
            Some(before) => {
                let prev: u64 = *before;
                proof {
                    assert(search@.came_from.contains_key(curr));
                    assert(search@.linked(graph, costs, curr));
                    let longer = back@.push(prev);
                    assert(longer.drop_last() =~= back@);
                    assert(longer[longer.len() - 1] == prev);
                    assert(longer[longer.len() - 2] == curr);
                    assert forall|i: int| 0 < i < longer.len() implies passable(
                        graph,
                        costs,
                        #[trigger] longer[i],
                        longer[i - 1],
                    ) by {
                        if i < back@.len() {
                            assert(passable(graph, costs, back@[i], back@[i - 1]));
                        }
                    }
                }
                back.push(prev);
                curr = prev;
            },
            None => {
                assert(!search@.came_from.contains_key(curr));
                assert(curr == start);
                break ;
            },
        }
    }
    let n: usize = back.len();
    let mut out: Vec<u64> = Vec::new();
    let mut i: usize = n;
    while i > 0
        invariant
            n == back@.len(),
            i <= n,
            out@.len() == n - i,
            forall|k: int| 0 <= k < out@.len() ==> #[trigger] out@[k] == back@[n - 1 - k],
        decreases i,
    {
        i -= 1;
        out.push(back[i]);
    }
    proof {
        assert(is_reverse(out@, back@));
        lemma_back_cost(costs, out@, back@);
        assert(out@[0] == start);
        assert(out@.last() == goal);
        assert forall|k: int| 0 <= k < out@.len() - 1 implies passable(
            graph,
            costs,
            #[trigger] out@[k],
            out@[k + 1],
        ) by {
            let i = n - 1 - k;
            assert(passable(graph, costs, back@[i], back@[i - 1]));
            assert(out@[k + 1] == back@[n - 1 - (k + 1)]);
        }
    }
    out
}

/// Takes the step from `u` to `v` into account: where going by `u` is a
/// cheaper way to `v` than the one known, `v` is reached that way from now
/// on and goes on the open list.
fn relax_edge(
    graph: &Graph,
    costs: &Costs,
    search: &mut Search,
    start: u64,
    goal: u64,
    u: u64,
    gu: u64,
    v: u64,
    Ghost(k): Ghost<int>,
)
    requires
        graph.wf(),
        old(search)@.ways_hold(graph, costs, start),
        old(search)@.entries_hold(),
        old(search)@.frontier_holds_but(graph, costs, u),
        old(search)@.relaxed_upto(graph, costs, u, k),
        u != goal,
        old(search)@.goal_waits(costs, goal),
        old(search)@.g.contains_key(u),
        old(search)@.g[u] == gu,
        0 <= k < graph.edges(u).len(),
        graph.edges(u)[k] == v,
    ensures
        final(search)@.ways_hold(graph, costs, start),
        final(search)@.entries_hold(),
        final(search)@.frontier_holds_but(graph, costs, u),
        final(search)@.relaxed_upto(graph, costs, u, k + 1),
        final(search)@.goal_waits(costs, goal),
        final(search)@.g.contains_key(u),
        final(search)@.g[u] == gu,
        final(search)@.work_left(graph) <= old(search)@.work_left(graph),
{
    let ghost before = search@;
    assert(graph.edges(u).contains(v));
    assert(graph.has_node(u));
    if !graph.contains_node(v) {
        proof {
            lemma_one_more_edge(graph, costs, before, u, k);
        }
        return ;
    }
    let w: u64 = match costs.edge_cost(u, v) {
        Some(w) => w,
        None => {
            proof {
                lemma_one_more_edge(graph, costs, before, u, k);
            }
            return ;
        },
    };
    let tentative: u64 = match gu.checked_add(w) {
        Some(t) => t,
        None => {
            proof {
                lemma_one_more_edge(graph, costs, before, u, k);
            }
            return ;
        },
    };
    if tentative == UNREACHABLE {
        proof {
            lemma_one_more_edge(graph, costs, before, u, k);
        }
        return ;
    }
    let better: bool = match search.g.get(&v) {
        Some(gv) => tentative < *gv,
        None => true,
    };
    if !better {
        proof {
            lemma_one_more_edge(graph, costs, before, u, k);
        }
        return ;
    }
    let h: u64 = costs.estimate_of(v);
    let f: u64 = tentative.saturating_add(h);
    search.came_from.insert(v, u);
    search.g.insert(v, tentative);
    search.open.push((f, v));
    search.tie = Ghost(before.tie.insert(v, before.tie[u] + 1));
    proof {
        let after = search@;
        assert(after.g == before.g.insert(v, tentative));
        assert(after.came_from == before.came_from.insert(v, u));
        assert(after.open == before.open.push((f, v)));
        assert(after.tie == before.tie.insert(v, before.tie[u] + 1));
        assert(v != u);
        assert(v != start);
        assert(passable(graph, costs, u, v));
        assert(tentative < standing(before.g, v));
        lemma_improvement_keeps_ways(graph, costs, before, after, start, u, v, tentative);
        lemma_improvement_keeps_entries(before, after, v, tentative, f);
        lemma_improvement_keeps_frontier(graph, costs, before, after, u, v, tentative, f, goal);
        lemma_improvement_relaxes_edge(graph, costs, before, after, u, v, tentative, f, k);
        assert(graph.ids().contains(v));
        lemma_potential_drops(graph.ids(), before.g, v, tentative);
    }
}

/// Where the step along the edge at `k` is taken into account, one more edge
/// is.
proof fn lemma_one_more_edge(graph: &Graph, costs: &Costs, s: Progress, u: u64, k: int)
    requires
        s.relaxed_upto(graph, costs, u, k),
        0 <= k < graph.edges(u).len(),
        s.edge_relaxed(graph, costs, u, graph.edges(u)[k]),
    ensures
        s.relaxed_upto(graph, costs, u, k + 1),
{
    assert forall|j: int| 0 <= j < k + 1 && j < graph.edges(u).len() implies s.edge_relaxed(
        graph,
        costs,
        u,
        #[trigger] graph.edges(u)[j],
    ) by {
        if j < k {
            assert(s.edge_relaxed(graph, costs, u, graph.edges(u)[j]));
        }
    }
}

/// What a cheaper way to `v` by `u` changes in the state of the search.
spec fn improved(
    before: Progress,
    after: Progress,
    u: u64,
    v: u64,
    cost: u64,
    f: u64,
) -> bool {
    &&& after.g == before.g.insert(v, cost)
    &&& after.came_from == before.came_from.insert(v, u)
    &&& after.open == before.open.push((f, v))
    &&& after.tie == before.tie.insert(v, before.tie[u] + 1)
}

proof fn lemma_improvement_keeps_ways(
    graph: &Graph,
    costs: &Costs,
    before: Progress,
    after: Progress,
    start: u64,
    u: u64,
    v: u64,
    cost: u64,
)
    requires
        before.ways_hold(graph, costs, start),
        before.g.contains_key(u),
        passable(graph, costs, u, v),
        cost == before.g[u] + step_cost(costs, u, v),
        cost < standing(before.g, v),
        after.g == before.g.insert(v, cost),
        after.came_from == before.came_from.insert(v, u),
        after.tie == before.tie.insert(v, before.tie[u] + 1),
    ensures
        after.ways_hold(graph, costs, start),
{
    assert(v != u);
    assert(v != start);
    assert forall|n: u64| #[trigger] after.came_from.contains_key(n) implies after.linked(
        graph,
        costs,
        n,
    ) by {
        if n == v {
            assert(after.came_from[n] == u);
            assert(after.g[u] == before.g[u]);
            assert(after.tie[u] == before.tie[u]);
        } else {
            assert(before.came_from.contains_key(n));
            assert(before.linked(graph, costs, n));
            let p = before.came_from[n];
            assert(after.came_from[n] == p);
            assert(after.g[n] == before.g[n]);
            assert(after.tie[n] == before.tie[n]);
            if p == v {
                assert(after.g[v] < before.g[v]);
            } else {
                assert(after.g[p] == before.g[p]);
                assert(after.tie[p] == before.tie[p]);
            }
        }
    }
    assert forall|n: u64| #[trigger]
        after.came_from.contains_key(n) <==> after.g.contains_key(n) && n != start by {
        assert(before.came_from.contains_key(n) <==> before.g.contains_key(n) && n != start);
    }
    assert forall|n: u64| #[trigger] after.g.contains_key(n) implies graph.has_node(n)
        && after.g[n] < UNREACHABLE by {
        if n != v {
            assert(before.g.contains_key(n));
        }
    }
}

proof fn lemma_improvement_keeps_entries(
    before: Progress,
    after: Progress,
    v: u64,
    cost: u64,
    f: u64,
)
    requires
        before.entries_hold(),
        cost <= standing(before.g, v),
        f >= cost,
        after.g == before.g.insert(v, cost),
        after.open == before.open.push((f, v)),
    ensures
        after.entries_hold(),
{
    assert forall|i: int| 0 <= i < after.open.len() implies after.g.contains_key(
        (#[trigger] after.open[i]).1,
    ) && after.open[i].0 >= after.g[after.open[i].1] by {
        if i < before.open.len() {
            assert(after.open[i] == before.open[i]);
            assert(before.g.contains_key(before.open[i].1));
        }
    }
}

/// A node that was still to be looked at stays so when its cost stays and
/// the open list only grows.
proof fn lemma_pending_stays(
    costs: &Costs,
    before: Progress,
    after: Progress,
    x: u64,
    entry: (u64, u64),
)
    requires
        before.pending(costs, x),
        after.open == before.open.push(entry),
        after.g[x] == before.g[x],
    ensures
        after.pending(costs, x),
{
    let i = choose|i: int| #[trigger] before.is_fresh(costs, x, i);
    assert(after.open[i] == before.open[i]);
    assert(after.is_fresh(costs, x, i));
}

proof fn lemma_improvement_keeps_frontier(
    graph: &Graph,
    costs: &Costs,
    before: Progress,
    after: Progress,
    u: u64,
    v: u64,
    cost: u64,
    f: u64,
    goal: u64,
)
    requires
        before.frontier_holds_but(graph, costs, u),
        before.goal_waits(costs, goal),
        u != goal,
        u != v,
        cost < standing(before.g, v),
        f == f_score(cost, costs.estimate(v)),
        after.g == before.g.insert(v, cost),
        after.open == before.open.push((f, v)),
    ensures
        after.frontier_holds_but(graph, costs, u),
        after.goal_waits(costs, goal),
        after.pending(costs, v),
{
    assert(after.is_fresh(costs, v, before.open.len() as int));
    assert forall|x: u64| #[trigger] after.g.contains_key(x) && x != u implies after.pending(
        costs,
        x,
    ) || after.relaxed(graph, costs, x) by {
        if x != v {
            assert(before.g.contains_key(x));
            if before.pending(costs, x) {
                lemma_pending_stays(costs, before, after, x, (f, v));
            } else {
                assert(before.relaxed(graph, costs, x));
                assert forall|y: u64| #[trigger]
                    passable(graph, costs, x, y) && after.g[x] + step_cost(costs, x, y)
                        < UNREACHABLE implies after.g.contains_key(y) && after.g[y] <= after.g[x]
                    + step_cost(costs, x, y) by {
                    assert(before.g.contains_key(y));
                }
            }
        }
    }
    if after.g.contains_key(goal) && goal != v {
        lemma_pending_stays(costs, before, after, goal, (f, v));
    }
}

proof fn lemma_improvement_relaxes_edge(
    graph: &Graph,
    costs: &Costs,
    before: Progress,
    after: Progress,
    u: u64,
    v: u64,
    cost: u64,
    f: u64,
    k: int,
)
    requires
        before.relaxed_upto(graph, costs, u, k),
        before.g.contains_key(u),
        u != v,
        cost == before.g[u] + step_cost(costs, u, v),
        cost < standing(before.g, v),
        0 <= k < graph.edges(u).len(),
        graph.edges(u)[k] == v,
        after.g == before.g.insert(v, cost),
    ensures
        after.relaxed_upto(graph, costs, u, k + 1),
{
    assert forall|j: int| 0 <= j < k + 1 && j < graph.edges(u).len() implies after.edge_relaxed(
        graph,
        costs,
        u,
        #[trigger] graph.edges(u)[j],
    ) by {
        let y = graph.edges(u)[j];
        if j < k {
            assert(before.edge_relaxed(graph, costs, u, y));
        }
    }
}

/// Taking an entry from the open list leaves every other node as it was:
/// one that was still to be looked at by another entry still is.
proof fn lemma_pending_survives_removal(
    costs: &Costs,
    before: Progress,
    after: Progress,
    m: int,
    x: u64,
)
    requires
        0 <= m < before.open.len(),
        after.open == before.open.update(m, before.open.last()).drop_last(),
        after.g == before.g,
        before.pending(costs, x),
        before.open[m].1 != x,
    ensures
        after.pending(costs, x),
{
    let i = choose|i: int| #[trigger] before.is_fresh(costs, x, i);
    let last = before.open.len() - 1;
    if i == last {
        assert(after.open[m] == before.open[last]);
        assert(after.is_fresh(costs, x, m));
    } else {
        assert(after.open[i] == before.open[i]);
        assert(after.is_fresh(costs, x, i));
    }
}

/// When every edge of `u` is taken into account, every step from `u` is.
proof fn lemma_all_edges_relaxed(graph: &Graph, costs: &Costs, s: Progress, u: u64)
    requires
        s.relaxed_upto(graph, costs, u, graph.edges(u).len() as int),
    ensures
        s.relaxed(graph, costs, u),
{
    assert forall|v: u64| #[trigger]
        passable(graph, costs, u, v) && s.g[u] + step_cost(costs, u, v)
            < UNREACHABLE implies s.g.contains_key(v) && s.g[v] <= s.g[u] + step_cost(
        costs,
        u,
        v,
    ) by {
        let j = choose|j: int| 0 <= j < graph.edges(u).len() && graph.edges(u)[j] == v;
        assert(s.edge_relaxed(graph, costs, u, graph.edges(u)[j]));
    }
}

/// Searches the cheapest path from `start` to `goal`.
///
/// A path that is returned leads from `start` to `goal` by passable steps and
/// costs less than [`UNREACHABLE`]; where no estimate overshoots, no path
/// from `start` to `goal` is cheaper. No path is returned exactly where none
/// within reach exists, which is so in particular where `start` or `goal` is
/// no node.
pub fn search(graph: &Graph, costs: &Costs, start: u64, goal: u64) -> (r: Option<Vec<u64>>)
    requires
        graph.wf(),
    ensures
        match r {
            Some(path) => {
                &&& connects(graph, costs, path@, start, goal)
                &&& path_cost(costs, path@) < UNREACHABLE
                &&& admissible(graph, costs, goal) ==> forall|q: Seq<u64>| #[trigger]
                    connects(graph, costs, q, start, goal) ==> path_cost(costs, path@)
                        <= path_cost(costs, q)
            },
            None => forall|q: Seq<u64>| #[trigger]
                connects(graph, costs, q, start, goal) ==> path_cost(costs, q) >= UNREACHABLE,
        },
{
    if !graph.contains_node(start) || !graph.contains_node(goal) {
        proof {
            assert forall|q: Seq<u64>| #[trigger]
                connects(graph, costs, q, start, goal) implies path_cost(costs, q)
                >= UNREACHABLE by {
                if q.len() > 1 {
                    assert(passable(graph, costs, q[q.len() - 2], q[q.len() - 2 + 1]));
                }
            }
        }
        return None;
    }
    let mut search = Search {
        open: Vec::new(),
        g: HashMap::new(),
        came_from: HashMap::new(),
        tie: Ghost(Map::<u64, nat>::empty().insert(start, 0nat)),
    };
    let h0: u64 = costs.estimate_of(start);
    search.g.insert(start, 0);
    search.open.push((h0, start));
    proof {
        let s = search@;
        assert(s.is_fresh(costs, start, 0));
        assert(s.pending(costs, start));
        assert forall|n: u64| #[trigger] s.g.contains_key(n) implies graph.has_node(n) && s.g[n]
            < UNREACHABLE by {}
    }
    while search.open.len() > 0
        invariant
            graph.wf(),
            graph.has_node(start),
            graph.has_node(goal),
            search@.ways_hold(graph, costs, start),
            search@.entries_hold(),
            search@.frontier_holds(graph, costs),
            search@.goal_waits(costs, goal),
        decreases search@.work_left(graph),
    {
        let ghost before = search@;
        let m: usize = least_entry(&search.open);
        let entry: (u64, u64) = search.open.swap_remove(m);
        let current: u64 = entry.1;
        let ghost popped = search@;
        proof {
            assert(entry == before.open[m as int]);
            assert(before.g.contains_key(current));
            assert(popped.g == before.g);
            assert(popped.came_from == before.came_from);
            assert(popped.tie == before.tie);
            assert(popped.open == before.open.update(m as int, before.open.last()).drop_last());
            assert(popped.ways_hold(graph, costs, start));
        }
        if current == goal {
            let path = reconstruct(graph, costs, &search, start, goal);
            proof {
                if admissible(graph, costs, goal) {
                    assert forall|q: Seq<u64>| #[trigger]
                        connects(graph, costs, q, start, goal) implies path_cost(costs, path@)
                        <= path_cost(costs, q) by {
                        lemma_goal_is_reached_cheapest(
                            graph,
                            costs,
                            start,
                            goal,
                            before,
                            m as int,
                            q,
                        );
                    }
                }
            }
            return Some(path);
        }
        let gu: u64 = match search.g.get(&current) {
            Some(g) => *g,
            None => {
                return None;
            },
        };
        proof {
            assert forall|i: int| 0 <= i < popped.open.len() implies popped.g.contains_key(
                (#[trigger] popped.open[i]).1,
            ) && popped.open[i].0 >= popped.g[popped.open[i].1] by {
                if i == m {
                    assert(popped.open[i] == before.open.last());
                } else {
                    assert(popped.open[i] == before.open[i]);
                }
            }
            assert forall|x: u64| #[trigger]
                popped.g.contains_key(x) && x != current implies popped.pending(costs, x)
                || popped.relaxed(graph, costs, x) by {
                if before.pending(costs, x) {
                    lemma_pending_survives_removal(costs, before, popped, m as int, x);
                } else {
                    assert(before.relaxed(graph, costs, x));
                }
            }
            if popped.g.contains_key(goal) {
                lemma_pending_survives_removal(costs, before, popped, m as int, goal);
            }
            assert(popped.work_left(graph) < before.work_left(graph));
        }
        let n: usize = graph.edge_count(current);
        let mut k: usize = 0;
        while k < n
            invariant
                graph.wf(),
                n == graph.edges(current).len(),
                k <= n,
                current != goal,
                search@.ways_hold(graph, costs, start),
                search@.entries_hold(),
                search@.frontier_holds_but(graph, costs, current),
                search@.relaxed_upto(graph, costs, current, k as int),
                search@.goal_waits(costs, goal),
                search@.g.contains_key(current),
                search@.g[current] == gu,
                search@.work_left(graph) < before.work_left(graph),
            decreases n - k,
        {
            match graph.edge_target(current, k) {
                Some(v) => {
                    relax_edge(graph, costs, &mut search, start, goal, current, gu, v, Ghost(k as int));
                },
                None => {},
            }
            k += 1;
        }
        proof {
            lemma_all_edges_relaxed(graph, costs, search@, current);
        }
    }
    proof {
        assert forall|q: Seq<u64>| #[trigger]
            connects(graph, costs, q, start, goal) implies path_cost(costs, q) >= UNREACHABLE by {
            let s = search@;
            if s.g.contains_key(goal) {
                let i = choose|i: int| #[trigger] s.is_fresh(costs, goal, i);
                assert(false);
            }
            lemma_goal_is_out_of_reach(graph, costs, start, goal, s, q);
        }
    }
    None
}

// ---------------------------------------------------------------------------
// Estimates that can be relied on
// ---------------------------------------------------------------------------

/// Whether every step from `u` is consistent.
spec fn node_is_consistent(graph: &Graph, costs: &Costs, u: u64) -> bool {
    forall|v: u64| #[trigger] step_is_consistent(graph, costs, u, v)
}

/// Whether every step along an edge of `u` is consistent.
fn edges_are_consistent(graph: &Graph, costs: &Costs, u: u64) -> (r: bool)
    requires
        graph.wf(),
    ensures
        r == node_is_consistent(graph, costs, u),
{
    let hu: u64 = costs.estimate_of(u);
    let m: usize = graph.edge_count(u);
    let mut k: usize = 0;
    while k < m
        invariant
            k <= m,
            m == graph.edges(u).len(),
            hu == costs.estimate(u),
            forall|j: int|
                0 <= j < k ==> step_is_consistent(graph, costs, u, #[trigger] graph.edges(u)[j]),
        decreases m - k,
    {
        match graph.edge_target(u, k) {
            Some(v) => {
                if graph.contains_node(u) && graph.contains_node(v) {
                    match costs.edge_cost(u, v) {
                        Some(w) => {
                            let hv: u64 = costs.estimate_of(v);
                            let over: bool = match w.checked_add(hv) {
                                Some(sum) => hu > sum,
                                None => false,
                            };
                            if over {
                                assert(graph.edges(u).contains(v));
                                assert(!step_is_consistent(graph, costs, u, v));
                                return false;
                            }
                        },
                        None => {},
                    }
                }
            },
            None => {},
        }
        k += 1;
    }
    proof {
        assert forall|v: u64| #[trigger] step_is_consistent(graph, costs, u, v) by {
            if passable(graph, costs, u, v) {
                let j = choose|j: int| 0 <= j < graph.edges(u).len() && graph.edges(u)[j] == v;
                assert(step_is_consistent(graph, costs, u, graph.edges(u)[j]));
            }
        }
    }
    true
}

/// Whether the estimates are consistent.
pub fn estimates_are_consistent(graph: &Graph, costs: &Costs, goal: u64) -> (r: bool)
    requires
        graph.wf(),
    ensures
        r == consistent(graph, costs, goal),
{
    if costs.estimate_of(goal) != 0 {
        return false;
    }
    let n: usize = graph.node_count();
    let mut i: usize = 0;
    while i < n
        invariant
            i <= n,
            n == graph.ids().len(),
            graph.wf(),
            forall|j: int| 0 <= j < i ==> node_is_consistent(graph, costs, #[trigger] graph.ids()[j]),
        decreases n - i,
    {
        match graph.node_id(i) {
            Some(u) => {
                if !edges_are_consistent(graph, costs, u) {
                    let ghost v = choose|v: u64| !step_is_consistent(graph, costs, u, v);
                    assert(!step_is_consistent(graph, costs, u, v));
                    return false;
                }
            },
            None => {},
        }
        i += 1;
    }
    proof {
        assert forall|u: u64, v: u64| #[trigger] step_is_consistent(graph, costs, u, v) by {
            if passable(graph, costs, u, v) {
                assert(graph.ids().contains(u));
                let j = choose|j: int| 0 <= j < graph.ids().len() && graph.ids()[j] == u;
                assert(node_is_consistent(graph, costs, graph.ids()[j]));
            }
        }
    }
    true
}

/// Searches the cheapest path from `start` to `goal`, whatever the estimates
/// are worth. Estimates that are consistent guide the search; estimates that
/// are not are dropped before it, and the search goes by the costs alone.
///
/// A path that is returned leads from `start` to `goal` by passable steps,
/// costs less than [`UNREACHABLE`], and no path from `start` to `goal` is
/// cheaper. No path is returned exactly where none within reach exists.
/// What the edges cost is left as it was.
pub fn cheapest_path(graph: &Graph, costs: &mut Costs, start: u64, goal: u64) -> (r: Option<
    Vec<u64>,
>)
    requires
        graph.wf(),
    ensures
        forall|a: u64, b: u64| #[trigger] final(costs).edge(a, b) == old(costs).edge(a, b),
        consistent(graph, old(costs), goal) ==> forall|n: u64| #[trigger]
            final(costs).estimate(n) == old(costs).estimate(n),
        !consistent(graph, old(costs), goal) ==> forall|n: u64| #[trigger]
            final(costs).estimate(n) == 0,
        match r {
            Some(path) => {
                &&& connects(graph, final(costs), path@, start, goal)
                &&& path_cost(final(costs), path@) < UNREACHABLE
                &&& forall|q: Seq<u64>| #[trigger]
                    connects(graph, final(costs), q, start, goal) ==> path_cost(
                        final(costs),
                        path@,
                    ) <= path_cost(final(costs), q)
            },
            None => forall|q: Seq<u64>| #[trigger]
                connects(graph, final(costs), q, start, goal) ==> path_cost(final(costs), q)
                    >= UNREACHABLE,
        },
{
    if !estimates_are_consistent(graph, costs, goal) {
        costs.clear_estimates();
        proof {
            assert forall|u: u64, v: u64| #[trigger] step_is_consistent(graph, costs, u, v) by {}
        }
    }
    proof {
        lemma_consistent_is_admissible(graph, costs, goal);
    }
    search(graph, costs, start, goal)
}

} // verus!
