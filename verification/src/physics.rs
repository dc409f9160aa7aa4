//! The bookkeeping of the physics world: which bodies exist, how fast they
//! move, and which pairs collided in the current tick.
//!
//! A body is bound to the entity of the same id in the spatial index. Masses
//! and speeds are single-precision bit patterns; integrating them and
//! resolving a collision is arithmetic on them, which the caller does. What
//! is decided here needs none: which bodies are static, what stands in for a
//! collider that is no body, and that a pair is reported once, smaller id
//! first. The collisions are a hash set; a pair of ids is filed in it under
//! one number, the two ids side by side.
use crate::astar::{key_of, lemma_pair_key_injective, pair_key, pair_of};
use crate::id_list::{lemma_push_contains, lemma_push_keeps_distinct, list_remove};
use crate::single::{le, less, less_eq, lt, ONE, ZERO};
use std::collections::{HashMap, HashSet};
use vstd::prelude::*;
use vstd::std_specs::hash::spec_hash_keys_iter;
use vstd::std_specs::iter::IteratorSpec;

verus! {

broadcast use vstd::std_specs::hash::group_hash_axioms;

/// The part of an overlap that is pushed apart in one step: 0.8.
pub const CORRECTION_PERCENT: u32 = 0x3F4C_CCCD;

/// The overlap that is left alone, so that bodies at rest do not jitter:
/// 0.01.
pub const CORRECTION_SLOP: u32 = 0x3C23_D70A;

/// How far beyond its radius a body looks for what it may collide with: 50.
pub const QUERY_SKIN: u32 = 0x4248_0000;

/// The squared distance up to which two centres count as one point, with no
/// direction to push them apart in: 0.0001.
pub const DEGENERATE_DISTANCE_SQ: u32 = 0x38D1_B717;

/// Whether a drag slows a body down: a drag above zero does.
pub fn feels_drag(drag: u32) -> (r: bool)
    ensures
        r == lt(ZERO, drag),
{
    less(ZERO, drag)
}

/// Whether two bodies move apart along the normal of their contact, so that
/// no impulse is due: they do when their relative speed along it is above
/// zero.
pub fn separating(speed_along_normal: u32) -> (r: bool)
    ensures
        r == lt(ZERO, speed_along_normal),
{
    less(ZERO, speed_along_normal)
}

/// Whether two centres are far enough apart to tell a direction between
/// them.
pub fn has_direction(distance_sq: u32) -> (r: bool)
    ensures
        r == lt(DEGENERATE_DISTANCE_SQ, distance_sq),
{
    less(DEGENERATE_DISTANCE_SQ, distance_sq)
}

/// A rigid body. A body of non-positive mass is static: it never moves and
/// its inverse mass is zero.
#[derive(Clone, Copy, Debug, PartialEq, Eq, Structural)]
pub struct RigidBody {
    pub vx: u32,
    pub vy: u32,
    pub mass: u32,
    pub inv_mass: u32,
    pub restitution: u32,
    pub drag: u32,
    pub is_static: bool,
}

impl RigidBody {
    /// Whether the body is static exactly when its mass is not positive, and
    /// has inverse mass zero when it is.
    pub open spec fn well_formed(self) -> bool {
        &&& self.is_static == le(self.mass, ZERO)
        &&& self.is_static ==> self.inv_mass == ZERO
    }

    /// A body at rest. `reciprocal` is one over the mass; it becomes the
    /// inverse mass of a body that is not static.
    pub fn new(mass: u32, reciprocal: u32, restitution: u32, drag: u32) -> (r: Self)
        ensures
            r == (RigidBody {
                vx: ZERO,
                vy: ZERO,
                mass,
                inv_mass: if le(mass, ZERO) {
                    ZERO
                } else {
                    reciprocal
                },
                restitution,
                drag,
                is_static: le(mass, ZERO),
            }),
            r.well_formed(),
    {
        let is_static: bool = less_eq(mass, ZERO);
        let inv_mass: u32 = if is_static {
            ZERO
        } else {
            reciprocal
        };
        RigidBody { vx: ZERO, vy: ZERO, mass, inv_mass, restitution, drag, is_static }
    }
}

/// What a collision is resolved against on the far side.
#[derive(Clone, Copy, Debug, PartialEq, Eq, Structural)]
pub struct Collider {
    pub inv_mass: u32,
    pub vx: u32,
    pub vy: u32,
    pub restitution: u32,
}

impl Collider {
    /// Whether a collision moves this side: it does when the inverse mass is
    /// above zero.
    pub fn gives_way(&self) -> (r: bool)
        ensures
            r == lt(ZERO, self.inv_mass),
    {
        less(ZERO, self.inv_mass)
    }
}

/// What stands in for an entity that is no body: a wall of infinite mass, at
/// rest, that gives every bounce back in full.
pub open spec fn wall() -> Collider {
    Collider { inv_mass: ZERO, vx: ZERO, vy: ZERO, restitution: ONE }
}

/// A pair of ids, smaller first.
pub open spec fn ordered_pair(a: u64, b: u64) -> (u64, u64) {
    if a < b {
        (a, b)
    } else {
        (b, a)
    }
}

/// The bodies of a world, its gravity, and the collisions of the current
/// tick.
pub struct PhysicsWorld {
    bodies: HashMap<u64, RigidBody>,
    order: Vec<u64>,
    gravity_x: u32,
    gravity_y: u32,
    collisions: HashSet<u128>,
}

impl PhysicsWorld {
    /// The bodies held, by id.
    pub closed spec fn bodies(&self) -> Map<u64, RigidBody> {
        self.bodies@
    }

    /// The ids of the bodies, in the order in which the world goes through
    /// them.
    pub closed spec fn order(&self) -> Seq<u64> {
        self.order@
    }

    /// The acceleration that every body that is not static is under.
    pub closed spec fn gravity(&self) -> (u32, u32) {
        (self.gravity_x, self.gravity_y)
    }

    /// The collisions recorded since they were last taken out: a set of
    /// pairs of ids.
    pub closed spec fn events(&self) -> Set<(u64, u64)> {
        Set::new(|p: (u64, u64)| self.collisions@.contains(pair_key(p.0, p.1)))
    }

    /// Every collision recorded has its smaller id first, so that no two
    /// ids are recorded as a pair twice.
    pub open spec fn events_are_ordered_pairs(&self) -> bool {
        forall|p: (u64, u64)| #[trigger] self.events().contains(p) ==> p.0 < p.1
    }

    /// The invariant of the world.
    pub open spec fn wf(&self) -> bool {
        &&& forall|id: u64| #[trigger]
            self.bodies().contains_key(id) ==> self.bodies()[id].well_formed()
        &&& self.order().no_duplicates()
        &&& forall|id: u64| #[trigger] self.order().contains(id) <==> self.bodies().contains_key(id)
        &&& self.events_are_ordered_pairs()
    }

    /// A world without bodies, gravity or collisions.
    pub fn new() -> (r: Self)
        ensures
            r.wf(),
            r.bodies() == Map::<u64, RigidBody>::empty(),
            r.order() == Seq::<u64>::empty(),
            r.gravity() == (ZERO, ZERO),
            r.events() == Set::<(u64, u64)>::empty(),
    {
        let r = PhysicsWorld {
            bodies: HashMap::new(),
            order: Vec::new(),
            gravity_x: ZERO,
            gravity_y: ZERO,
            collisions: HashSet::new(),
        };
        assert(r.events() =~= Set::<(u64, u64)>::empty());
        r
    }

    /// Takes the recorded collisions out: the world holds none afterwards.
    /// Each pair that was recorded comes once, its smaller id first; in
    /// which order the pairs come is left open.
    pub fn get_collision_events(&mut self) -> (r: Vec<(u64, u64)>)
        requires
            old(self).wf(),
        ensures
            final(self).wf(),
            r@.no_duplicates(),
            forall|p: (u64, u64)| #[trigger] r@.contains(p) <==> old(self).events().contains(p),
            forall|i: int| 0 <= i < r@.len() ==> (#[trigger] r@[i]).0 < r@[i].1,
            final(self).events() == Set::<(u64, u64)>::empty(),
            final(self).bodies() == old(self).bodies(),
            final(self).order() == old(self).order(),
            final(self).gravity() == old(self).gravity(),
    {
        let mut out: Vec<(u64, u64)> = Vec::new();
        let ghost keys = spec_hash_keys_iter(&self.collisions).remaining();
        for key in it: self.collisions.iter()
            invariant
                it.seq() == keys,
                out@.len() == it.index(),
                forall|j: int| 0 <= j < out@.len() ==> pair_key(out@[j].0, out@[j].1) == *keys[j],
        {
            out.push(pair_of(*key));
        }
        proof {
            assert(keys.unref().to_set() == old(self).collisions@);
            assert(keys.no_duplicates());
            assert(out@.len() == keys.len());
            assert forall|i: int, j: int|
                0 <= i < out@.len() && 0 <= j < out@.len() && i != j implies out@[i]
                != out@[j] by {
                assert(keys[i] != keys[j]);
            }
            assert forall|p: (u64, u64)| #[trigger] out@.contains(p) <==> old(
                self,
            ).events().contains(p) by {
                if out@.contains(p) {
                    let j = choose|j: int| 0 <= j < out@.len() && out@[j] == p;
                    assert(keys.unref()[j] == pair_key(p.0, p.1));
                    assert(keys.unref().to_set().contains(pair_key(p.0, p.1)));
                }
                if old(self).events().contains(p) {
                    assert(keys.unref().to_set().contains(pair_key(p.0, p.1)));
                    let j = choose|j: int|
                        0 <= j < keys.unref().len() && keys.unref()[j] == pair_key(p.0, p.1);
                    lemma_pair_key_injective(out@[j].0, out@[j].1, p.0, p.1);
                    assert(out@[j] == p);
                }
            }
            assert forall|i: int| 0 <= i < out@.len() implies (#[trigger] out@[i]).0
                < out@[i].1 by {
                assert(out@.contains(out@[i]));
                assert(old(self).events().contains(out@[i]));
            }
        }
        self.collisions.clear();
        proof {
            assert(self.bodies() == old(self).bodies());
            assert(self.order() == old(self).order());
            assert(self.events() =~= Set::<(u64, u64)>::empty());
        }
        out
    }

    /// Sets the acceleration that every body that is not static is under.
    pub fn set_gravity(&mut self, x: u32, y: u32)
        ensures
            old(self).wf() ==> final(self).wf(),
            final(self).gravity() == (x, y),
            final(self).bodies() == old(self).bodies(),
            final(self).order() == old(self).order(),
            final(self).events() == old(self).events(),
    {
        self.gravity_x = x;
        self.gravity_y = y;
        proof {
            assert(self.bodies() == old(self).bodies());
            assert(self.order() == old(self).order());
            assert(self.events() =~= old(self).events());
        }
    }

    /// The acceleration that every body that is not static is under.
    pub fn get_gravity(&self) -> (g: (u32, u32))
        ensures
            g == self.gravity(),
    {
        (self.gravity_x, self.gravity_y)
    }

    /// Binds a new body, at rest, to the given id; a body already bound to
    /// it is replaced. `reciprocal` is one over the mass.
    pub fn add_body(&mut self, id: u64, mass: u32, reciprocal: u32, restitution: u32, drag: u32)
        requires
            old(self).wf(),
        ensures
            final(self).wf(),
            final(self).bodies() == old(self).bodies().insert(
                id,
                RigidBody {
                    vx: ZERO,
                    vy: ZERO,
                    mass,
                    inv_mass: if le(mass, ZERO) {
                        ZERO
                    } else {
                        reciprocal
                    },
                    restitution,
                    drag,
                    is_static: le(mass, ZERO),
                },
            ),
            final(self).order() == (if old(self).bodies().contains_key(id) {
                old(self).order()
            } else {
                old(self).order().push(id)
            }),
            final(self).gravity() == old(self).gravity(),
            final(self).events() == old(self).events(),
    {
        let body = RigidBody::new(mass, reciprocal, restitution, drag);
        let known: bool = self.bodies.contains_key(&id);
        self.bodies.insert(id, body);
        proof {
            assert(self.bodies() == old(self).bodies().insert(id, body));
            assert forall|j: u64| #[trigger] self.bodies().contains_key(j) implies self.bodies()[j].well_formed() by {
                if j != id {
                    assert(old(self).bodies().contains_key(j));
                }
            }
        }
        if !known {
            proof {
                assert(!old(self).order().contains(id));
                lemma_push_keeps_distinct(old(self).order(), id);
                assert forall|j: u64| #[trigger]
                    old(self).order().push(id).contains(j) <==> self.bodies().contains_key(
                        j,
                    ) by {
                    lemma_push_contains(old(self).order(), id, j);
                    assert(old(self).order().contains(j) <==> old(self).bodies().contains_key(j));
                }
            }
            self.order.push(id);
        } else {
            proof {
                assert forall|j: u64| #[trigger]
                    self.order().contains(j) <==> self.bodies().contains_key(j) by {
                    assert(old(self).order().contains(j) <==> old(self).bodies().contains_key(j));
                }
            }
        }
        proof {
            assert(self.events() =~= old(self).events());
        }
    }

    /// Unbinds the body of the given id, if there is one.
    pub fn remove_body(&mut self, id: u64)
        requires
            old(self).wf(),
        ensures
            final(self).wf(),
            final(self).bodies() == old(self).bodies().remove(id),
            final(self).gravity() == old(self).gravity(),
            final(self).events() == old(self).events(),
    {
        self.bodies.remove(&id);
        list_remove(&mut self.order, id);
        proof {
            assert(self.bodies() == old(self).bodies().remove(id));
            assert(self.events() =~= old(self).events());
            assert forall|j: u64| #[trigger] self.bodies().contains_key(j) implies self.bodies()[j].well_formed() by {
                assert(old(self).bodies().contains_key(j));
            }
            assert forall|j: u64| #[trigger]
                self.order().contains(j) <==> self.bodies().contains_key(j) by {
                assert(old(self).order().contains(j) <==> old(self).bodies().contains_key(j));
            }
        }
    }

    /// Sets the speed of a body. An id without a body changes nothing.
    pub fn set_velocity(&mut self, id: u64, vx: u32, vy: u32)
        requires
            old(self).wf(),
        ensures
            final(self).wf(),
            final(self).bodies() == (if old(self).bodies().contains_key(id) {
                old(self).bodies().insert(
                    id,
                    RigidBody {
                        vx,
                        vy,
                        mass: old(self).bodies()[id].mass,
                        inv_mass: old(self).bodies()[id].inv_mass,
                        restitution: old(self).bodies()[id].restitution,
                        drag: old(self).bodies()[id].drag,
                        is_static: old(self).bodies()[id].is_static,
                    },
                )
            } else {
                old(self).bodies()
            }),
            final(self).order() == old(self).order(),
            final(self).gravity() == old(self).gravity(),
            final(self).events() == old(self).events(),
    {
        let found = self.get_body(id);
        match found {
            Some(b) => {
                let moved = RigidBody {
                    vx,
                    vy,
                    mass: b.mass,
                    inv_mass: b.inv_mass,
                    restitution: b.restitution,
                    drag: b.drag,
                    is_static: b.is_static,
                };
                self.bodies.insert(id, moved);
                proof {
                    assert(self.bodies() == old(self).bodies().insert(id, moved));
                    assert(self.events() =~= old(self).events());
                    assert(self.order() == old(self).order());
                    assert(old(self).bodies()[id].well_formed());
                    assert forall|j: u64| #[trigger] self.bodies().contains_key(j) implies self.bodies()[j].well_formed() by {
                        if j != id {
                            assert(old(self).bodies().contains_key(j));
                        }
                    }
                    assert forall|j: u64| #[trigger]
                        self.order().contains(j) <==> self.bodies().contains_key(j) by {
                        assert(old(self).order().contains(j) <==> old(self).bodies().contains_key(
                            j,
                        ));
                    }
                }
            },
            None => {},
        }
    }

    /// The speed of a body.
    pub fn get_velocity(&self, id: u64) -> (r: Option<(u32, u32)>)
        ensures
            match r {
                Some(v) => self.bodies().contains_key(id) && v == (
                    self.bodies()[id].vx,
                    self.bodies()[id].vy,
                ),
                None => !self.bodies().contains_key(id),
            },
    {
        match self.bodies.get(&id) {
            Some(b) => Some((b.vx, b.vy)),
            None => None,
        }
    }

    /// The body of the given id.
    pub fn get_body(&self, id: u64) -> (r: Option<RigidBody>)
        ensures
            match r {
                Some(b) => self.bodies().contains_key(id) && b == self.bodies()[id],
                None => !self.bodies().contains_key(id),
            },
    {
        match self.bodies.get(&id) {
            Some(b) => Some(*b),
            None => None,
        }
    }

    /// The ids of the bodies that are not static, each once.
    pub fn dynamic_ids(&self) -> (r: Vec<u64>)
        requires
            self.wf(),
        ensures
            r@.no_duplicates(),
            forall|id: u64| #[trigger]
                r@.contains(id) <==> self.bodies().contains_key(id) && !self.bodies()[id].is_static,
    {
        let mut out: Vec<u64> = Vec::new();
        let mut i: usize = 0;
        while i < self.order.len()
            invariant
                i <= self.order@.len(),
                self.wf(),
                out@.no_duplicates(),
                forall|id: u64| #[trigger]
                    out@.contains(id) <==> self.order@.take(i as int).contains(id)
                        && !self.bodies()[id].is_static,
            decreases self.order@.len() - i,
        {
            let id: u64 = self.order[i];
            let ghost before = out@;
            let mut taken: bool = false;
            assert(self.order().contains(id));
            match self.bodies.get(&id) {
                Some(b) => {
                    if !b.is_static {
                        proof {
                            crate::id_list::lemma_take_step(self.order@, i as int, id);
                            lemma_push_keeps_distinct(before, id);
                        }
                        out.push(id);
                        taken = true;
                    }
                },
                None => {},
            }
            proof {
                assert forall|j: u64| #[trigger]
                    out@.contains(j) <==> self.order@.take(i + 1).contains(j)
                        && !self.bodies()[j].is_static by {
                    crate::id_list::lemma_take_step(self.order@, i as int, j);
                    if taken {
                        lemma_push_contains(before, id, j);
                    }
                }
            }
            i += 1;
        }
        proof {
            assert(self.order@.take(i as int) =~= self.order@);
        }
        out
    }

    /// What a collision with the entity of the given id is resolved against:
    /// the body bound to it, and a wall where there is none.
    pub fn collider(&self, id: u64) -> (r: Collider)
        ensures
            r == (if self.bodies().contains_key(id) {
                Collider {
                    inv_mass: self.bodies()[id].inv_mass,
                    vx: self.bodies()[id].vx,
                    vy: self.bodies()[id].vy,
                    restitution: self.bodies()[id].restitution,
                }
            } else {
                wall()
            }),
    {
        match self.bodies.get(&id) {
            Some(b) => Collider {
                inv_mass: b.inv_mass,
                vx: b.vx,
                vy: b.vy,
                restitution: b.restitution,
            },
            None => Collider { inv_mass: ZERO, vx: ZERO, vy: ZERO, restitution: ONE },
        }
    }

    /// Records that `a` and `b` collided. The pair is kept with its smaller
    /// id first; a pair already recorded stays recorded once, and an id
    /// paired with itself adds nothing.
    pub fn record_collision(&mut self, a: u64, b: u64)
        requires
            old(self).wf(),
        ensures
            final(self).wf(),
            final(self).events() == (if a == b {
                old(self).events()
            } else {
                old(self).events().insert(ordered_pair(a, b))
            }),
            final(self).bodies() == old(self).bodies(),
            final(self).order() == old(self).order(),
            final(self).gravity() == old(self).gravity(),
    {
        if a == b {
            return ;
        }
        let pair: (u64, u64) = if a < b {
            (a, b)
        } else {
            (b, a)
        };
        let key = key_of(pair.0, pair.1);
        self.collisions.insert(key);
        proof {
            assert(self.bodies() == old(self).bodies());
            assert(self.order() == old(self).order());
            assert forall|p: (u64, u64)|
                self.events().contains(p) <==> old(self).events().insert(pair).contains(p) by {
                if pair_key(p.0, p.1) == key {
                    lemma_pair_key_injective(p.0, p.1, pair.0, pair.1);
                }
            }
            assert(self.events() =~= old(self).events().insert(pair));
            assert forall|p: (u64, u64)| #[trigger] self.events().contains(p) implies p.0
                < p.1 by {
                if p != pair {
                    assert(old(self).events().contains(p));
                }
            }
        }
    }

    /// Takes in a contact between `a` and `b` whose inverse masses add up to
    /// `total_inv_mass`, and tells whether it is to be resolved. Where the
    /// sum is a number that is not above zero, neither side can give way:
    /// the contact is not resolved and no collision is recorded. Otherwise
    /// the collision is recorded as `record_collision` does.
    pub fn report_contact(&mut self, a: u64, b: u64, total_inv_mass: u32) -> (resolve: bool)
        requires
            old(self).wf(),
        ensures
            final(self).wf(),
            resolve == !le(total_inv_mass, ZERO),
            final(self).events() == (if !resolve || a == b {
                old(self).events()
            } else {
                old(self).events().insert(ordered_pair(a, b))
            }),
            final(self).bodies() == old(self).bodies(),
            final(self).order() == old(self).order(),
            final(self).gravity() == old(self).gravity(),
    {
        if less_eq(total_inv_mass, ZERO) {
            false
        } else {
            self.record_collision(a, b);
            true
        }
    }
}

/// A static body has inverse mass zero, whatever reciprocal it was made
/// with, and a body is static exactly when its mass is a number that is not
/// positive.
pub proof fn lemma_static_bodies_have_no_inverse_mass(world: &PhysicsWorld, id: u64)
    requires
        world.wf(),
        world.bodies().contains_key(id),
    ensures
        world.bodies()[id].is_static <==> le(world.bodies()[id].mass, ZERO),
        world.bodies()[id].is_static ==> world.bodies()[id].inv_mass == ZERO,
{
}

/// Every collision that is recorded has its smaller id first, and so no two
/// ids stand as a pair twice: not both ways round, and, the record being a
/// set, not the same way round either.
pub proof fn lemma_collisions_are_distinct_pairs(world: &PhysicsWorld, a: u64, b: u64)
    requires
        world.wf(),
        world.events().contains((a, b)),
    ensures
        a < b,
        !world.events().contains((b, a)),
{
    if world.events().contains((b, a)) {
        assert(b < a);
    }
}

} // verus!
