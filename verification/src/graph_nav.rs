//! The navigation graph and the search for a cheapest path.
//!
//! Nodes have a position, given as two single-precision bit patterns, and
//! directed edges to other nodes. What an edge costs, and how far a node is
//! from the goal at the least, follows from the positions by arithmetic that
//! the caller does; it reaches the search as [`Costs`], in whole units of the
//! caller's choosing. The search itself is A*: it returns a path whose steps
//! are edges of the graph and that no path is cheaper than, in those units.
use crate::astar::{cheapest_path, connects, consistent, path_cost, Costs, UNREACHABLE};
use crate::id_list::{lemma_push_contains, lemma_push_keeps_distinct, list_position};
use std::collections::HashMap;
use vstd::prelude::*;

verus! {

broadcast use vstd::std_specs::hash::group_hash_axioms;

/// A node: where it is, and the nodes that its edges lead to.
#[derive(Clone, Debug)]
pub struct Node {
    pub x: u32,
    pub y: u32,
    pub edges: Vec<u64>,
}

/// A directed graph over nodes with ids.
pub struct Graph {
    nodes: HashMap<u64, Node>,
    order: Vec<u64>,
}

impl Graph {
    /// Whether there is a node of the given id.
    pub closed spec fn has_node(&self, id: u64) -> bool {
        self.nodes@.contains_key(id)
    }

    /// Where the node of the given id is.
    pub closed spec fn position(&self, id: u64) -> (u32, u32) {
        (self.nodes@[id].x, self.nodes@[id].y)
    }

    /// The nodes that the edges of the given node lead to, in the order in
    /// which the edges were added; none for an id without a node.
    pub closed spec fn edges(&self, id: u64) -> Seq<u64> {
        if self.nodes@.contains_key(id) {
            self.nodes@[id].edges@
        } else {
            Seq::<u64>::empty()
        }
    }

    /// The ids of the nodes, in the order in which the nodes were added.
    pub closed spec fn ids(&self) -> Seq<u64> {
        self.order@
    }

    /// The invariant of the graph: every node is listed once, and no node
    /// has two edges to the same node.
    pub open spec fn wf(&self) -> bool {
        &&& self.ids().no_duplicates()
        &&& forall|id: u64| #[trigger] self.ids().contains(id) <==> self.has_node(id)
        &&& forall|id: u64| #[trigger] self.edges(id).no_duplicates()
    }

    /// Whether the graph has the nodes of `other`, at the same places and
    /// with the same edges, except perhaps for the node `id`.
    pub open spec fn same_but(&self, other: &Graph, id: u64) -> bool {
        forall|n: u64|
            n != id ==> (#[trigger] self.has_node(n) == other.has_node(n) && self.position(n)
                == other.position(n) && self.edges(n) == other.edges(n))
    }

    /// A graph without nodes.
    pub fn new() -> (r: Self)
        ensures
            r.wf(),
            r.ids() == Seq::<u64>::empty(),
            forall|id: u64| !r.has_node(id),
    {
        Graph { nodes: HashMap::new(), order: Vec::new() }
    }

    /// Adds a node without edges. An id that has a node already keeps it:
    /// the first node of an id stays.
    pub fn add_node(&mut self, id: u64, x: u32, y: u32)
        requires
            old(self).wf(),
        ensures
            final(self).wf(),
            final(self).has_node(id),
            final(self).same_but(old(self), id),
            old(self).has_node(id) ==> final(self).position(id) == old(self).position(id)
                && final(self).edges(id) == old(self).edges(id) && final(self).ids() == old(
                self,
            ).ids(),
            !old(self).has_node(id) ==> final(self).position(id) == (x, y) && final(self).edges(id)
                == Seq::<u64>::empty() && final(self).ids() == old(self).ids().push(id),
    {
        if self.nodes.contains_key(&id) {
            return ;
        }
        self.nodes.insert(id, Node { x, y, edges: Vec::new() });
        self.order.push(id);
        proof {
            assert(!old(self).ids().contains(id));
            lemma_push_keeps_distinct(old(self).ids(), id);
            assert(self.ids() == old(self).ids().push(id));
            assert forall|n: u64| #[trigger] self.ids().contains(n) <==> self.has_node(n) by {
                lemma_push_contains(old(self).ids(), id, n);
                assert(old(self).ids().contains(n) <==> old(self).has_node(n));
            }
            assert forall|n: u64| #[trigger] self.edges(n).no_duplicates() by {
                if n != id {
                    assert(self.edges(n) == old(self).edges(n));
                    assert(old(self).edges(n).no_duplicates());
                }
            }
        }
    }

    /// Adds an edge from `from` to `to`. An edge that is there already is
    /// not added again, and an edge from an id without a node is not added
    /// at all.
    pub fn add_edge(&mut self, from: u64, to: u64)
        requires
            old(self).wf(),
        ensures
            final(self).wf(),
            final(self).ids() == old(self).ids(),
            final(self).same_but(old(self), from),
            final(self).has_node(from) == old(self).has_node(from),
            final(self).position(from) == old(self).position(from),
            final(self).edges(from) == (if old(self).has_node(from) && !old(self).edges(
                from,
            ).contains(to) {
                old(self).edges(from).push(to)
            } else {
                old(self).edges(from)
            }),
    {
        let known: bool = match self.nodes.get(&from) {
            Some(node) => list_position(&node.edges, to).is_some(),
            None => true,
        };
        if known {
            return ;
        }
        assert(old(self).has_node(from) && !old(self).edges(from).contains(to));
        match self.nodes.remove(&from) {
            Some(node) => {
                let mut node = node;
                node.edges.push(to);
                self.nodes.insert(from, node);
                proof {
                    lemma_push_keeps_distinct(old(self).edges(from), to);
                    assert forall|n: u64| #[trigger] self.ids().contains(n) <==> self.has_node(
                        n,
                    ) by {
                        assert(old(self).ids().contains(n) <==> old(self).has_node(n));
                    }
                    assert forall|n: u64| #[trigger] self.edges(n).no_duplicates() by {
                        if n != from {
                            assert(self.edges(n) == old(self).edges(n));
                            assert(old(self).edges(n).no_duplicates());
                        } else {
                            assert(old(self).edges(from).no_duplicates());
                        }
                    }
                }
            },
            None => {},
        }
    }

    /// Whether there is a node of the given id.
    pub fn contains_node(&self, id: u64) -> (r: bool)
        ensures
            r == self.has_node(id),
    {
        self.nodes.contains_key(&id)
    }

    /// Where the node of the given id is.
    pub fn node_position(&self, id: u64) -> (r: Option<(u32, u32)>)
        ensures
            match r {
                Some(p) => self.has_node(id) && p == self.position(id),
                None => !self.has_node(id),
            },
    {
        match self.nodes.get(&id) {
            Some(node) => Some((node.x, node.y)),
            None => None,
        }
    }

    /// The number of nodes.
    pub fn node_count(&self) -> (n: usize)
        ensures
            n == self.ids().len(),
    {
        self.order.len()
    }

    /// The id of the node that was added at the given place.
    pub fn node_id(&self, index: usize) -> (r: Option<u64>)
        ensures
            match r {
                Some(id) => index < self.ids().len() && id == self.ids()[index as int],
                None => index >= self.ids().len(),
            },
    {
        if index < self.order.len() {
            Some(self.order[index])
        } else {
            None
        }
    }

    /// The number of edges of the node of the given id.
    pub fn edge_count(&self, id: u64) -> (n: usize)
        ensures
            n == self.edges(id).len(),
    {
        match self.nodes.get(&id) {
            Some(node) => node.edges.len(),
            None => 0,
        }
    }

    /// The node that the edge at the given place of the given node leads to.
    pub fn edge_target(&self, id: u64, index: usize) -> (r: Option<u64>)
        ensures
            match r {
                Some(to) => index < self.edges(id).len() && to == self.edges(id)[index as int],
                None => index >= self.edges(id).len(),
            },
    {
        match self.nodes.get(&id) {
            Some(node) => if index < node.edges.len() {
                Some(node.edges[index])
            } else {
                None
            },
            None => None,
        }
    }

    /// The cheapest path from `start` to `goal`, as the ids of its nodes from
    /// the first to the last.
    ///
    /// A path that is returned goes by edges of the graph, costs less than
    /// [`UNREACHABLE`], and no path from `start` to `goal` is cheaper. No
    /// path is returned exactly where none within reach exists, as where
    /// `start` or `goal` is no node. Estimates guide the search where they
    /// are consistent; where they are not they are dropped from `costs`, so
    /// that the path is the cheapest whatever the estimates were.
    pub fn find_path(&self, start: u64, goal: u64, costs: &mut Costs) -> (r: Option<Vec<u64>>)
        requires
            self.wf(),
        ensures
            forall|a: u64, b: u64| #[trigger] final(costs).edge(a, b) == old(costs).edge(a, b),
            consistent(self, old(costs), goal) ==> forall|n: u64| #[trigger]
                final(costs).estimate(n) == old(costs).estimate(n),
            !consistent(self, old(costs), goal) ==> forall|n: u64| #[trigger]
                final(costs).estimate(n) == 0,
            match r {
                Some(path) => {
                    &&& connects(self, final(costs), path@, start, goal)
                    &&& path_cost(final(costs), path@) < UNREACHABLE
                    &&& forall|q: Seq<u64>| #[trigger]
                        connects(self, final(costs), q, start, goal) ==> path_cost(
                            final(costs),
                            path@,
                        ) <= path_cost(final(costs), q)
                },
                None => forall|q: Seq<u64>| #[trigger]
                    connects(self, final(costs), q, start, goal) ==> path_cost(final(costs), q)
                        >= UNREACHABLE,
            },
    {
        cheapest_path(self, costs, start, goal)
    }
}

} // verus!
