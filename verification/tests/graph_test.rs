use engine::astar::{cheapest_path, estimates_are_consistent, search, UNREACHABLE};
use engine::{Costs, Graph};

// Costs in thousandths of a unit of length. Edges are rounded up and
// estimates down, so that no estimate overshoots.
const SCALE: f32 = 1000.0;

fn distance(graph: &Graph, a: u64, b: u64) -> Option<f32> {
    let (ax, ay) = graph.node_position(a)?;
    let (bx, by) = graph.node_position(b)?;
    let dx = f32::from_bits(ax) - f32::from_bits(bx);
    let dy = f32::from_bits(ay) - f32::from_bits(by);
    Some((dx * dx + dy * dy).sqrt())
}

fn costs_to(graph: &Graph, goal: u64) -> Costs {
    let mut costs = Costs::new();
    for i in 0..graph.node_count() {
        let id = graph.node_id(i).unwrap();
        if let Some(d) = distance(graph, id, goal) {
            costs.set_estimate(id, (d * SCALE).floor() as u64);
        }
        for k in 0..graph.edge_count(id) {
            let to = graph.edge_target(id, k).unwrap();
            if let Some(d) = distance(graph, id, to) {
                costs.set_edge(id, to, (d * SCALE).ceil() as u64);
            }
        }
    }
    costs
}

fn find_path(graph: &Graph, start: u64, goal: u64) -> Option<Vec<u64>> {
    let mut costs = costs_to(graph, goal);
    graph.find_path(start, goal, &mut costs)
}

fn cost_of(graph: &Graph, path: &[u64]) -> f32 {
    path.windows(2).map(|w| distance(graph, w[0], w[1]).unwrap()).sum()
}

fn node(graph: &mut Graph, id: u64, x: f32, y: f32) {
    graph.add_node(id, x.to_bits(), y.to_bits());
}

fn both_ways(graph: &mut Graph, a: u64, b: u64) {
    graph.add_edge(a, b);
    graph.add_edge(b, a);
}

fn square() -> Graph {
    let mut g = Graph::new();
    node(&mut g, 1, 0.0, 0.0);
    node(&mut g, 2, 10.0, 0.0);
    node(&mut g, 3, 0.0, 10.0);
    node(&mut g, 4, 10.0, 10.0);
    both_ways(&mut g, 1, 2);
    both_ways(&mut g, 1, 3);
    both_ways(&mut g, 2, 4);
    both_ways(&mut g, 3, 4);
    g
}

#[test]
fn a_star_optimality() {
    let g = square();
    let path = find_path(&g, 1, 4).unwrap();
    assert_eq!(path.len(), 3);
    assert_eq!((path[0], path[2]), (1, 4));
    assert!(path[1] == 2 || path[1] == 3);
    assert_eq!(cost_of(&g, &path), 20.0);
}

#[test]
fn a_path_goes_by_edges_only() {
    let g = square();
    for start in 1..=4 {
        for goal in 1..=4 {
            let path = find_path(&g, start, goal).unwrap();
            assert_eq!(path[0], start);
            assert_eq!(*path.last().unwrap(), goal);
            for w in path.windows(2) {
                let edges: Vec<u64> =
                    (0..g.edge_count(w[0])).map(|k| g.edge_target(w[0], k).unwrap()).collect();
                assert!(edges.contains(&w[1]), "no edge from {} to {}", w[0], w[1]);
            }
        }
    }
}

#[test]
fn the_detour_is_taken_when_it_is_cheaper() {
    // 1 -> 2 directly is long; 1 -> 3 -> 4 -> 2 follows a short arc
    let mut g = Graph::new();
    node(&mut g, 1, 0.0, 0.0);
    node(&mut g, 2, 3.0, 0.0);
    node(&mut g, 3, 1.0, 0.1);
    node(&mut g, 4, 2.0, 0.1);
    node(&mut g, 5, 1.5, 40.0);
    g.add_edge(1, 5);
    g.add_edge(5, 2);
    g.add_edge(1, 3);
    g.add_edge(3, 4);
    g.add_edge(4, 2);
    assert_eq!(find_path(&g, 1, 2), Some(vec![1, 3, 4, 2]));
}

#[test]
fn fewer_steps_do_not_win_over_less_cost() {
    let mut g = Graph::new();
    node(&mut g, 1, 0.0, 0.0);
    node(&mut g, 2, 10.0, 0.0);
    let mut costs = Costs::new();
    g.add_edge(1, 2);
    costs.set_edge(1, 2, 100);
    node(&mut g, 3, 5.0, 0.0);
    g.add_edge(1, 3);
    g.add_edge(3, 2);
    costs.set_edge(1, 3, 10);
    costs.set_edge(3, 2, 10);
    assert_eq!(g.find_path(1, 2, &mut costs), Some(vec![1, 3, 2]));
    costs.set_edge(3, 2, 91);
    assert_eq!(g.find_path(1, 2, &mut costs), Some(vec![1, 2]));
}

#[test]
fn a_cheaper_way_found_later_replaces_the_first() {
    // 1 -> 2 -> 4 is found first, 1 -> 3 -> 2 -> 4 is cheaper
    let mut g = Graph::new();
    for id in 1..=4 {
        node(&mut g, id, 0.0, 0.0);
    }
    g.add_edge(1, 2);
    g.add_edge(1, 3);
    g.add_edge(3, 2);
    g.add_edge(2, 4);
    let mut costs = Costs::new();
    costs.set_edge(1, 2, 10);
    costs.set_edge(1, 3, 1);
    costs.set_edge(3, 2, 1);
    costs.set_edge(2, 4, 1);
    assert_eq!(g.find_path(1, 4, &mut costs), Some(vec![1, 3, 2, 4]));
}

#[test]
fn start_and_goal_the_same() {
    let g = square();
    assert_eq!(find_path(&g, 2, 2), Some(vec![2]));
}

#[test]
fn a_missing_endpoint_is_no_path() {
    let g = square();
    assert_eq!(find_path(&g, 1, 9), None);
    assert_eq!(find_path(&g, 9, 1), None);
    assert_eq!(find_path(&g, 8, 9), None);
    assert_eq!(find_path(&Graph::new(), 1, 1), None);
}

#[test]
fn edges_are_directed() {
    let mut g = Graph::new();
    node(&mut g, 1, 0.0, 0.0);
    node(&mut g, 2, 1.0, 0.0);
    g.add_edge(1, 2);
    assert_eq!(find_path(&g, 1, 2), Some(vec![1, 2]));
    assert_eq!(find_path(&g, 2, 1), None);
}

#[test]
fn an_island_is_out_of_reach() {
    let mut g = square();
    node(&mut g, 5, 100.0, 100.0);
    assert_eq!(find_path(&g, 1, 5), None);
}

#[test]
fn an_edge_to_what_is_no_node_is_passed_over() {
    let mut g = square();
    g.add_edge(1, 77);
    assert_eq!(g.edge_count(1), 3);
    let path = find_path(&g, 1, 4).unwrap();
    assert_eq!(path.len(), 3);
    assert_eq!(find_path(&g, 1, 77), None);
}

#[test]
fn an_edge_without_a_cost_is_passed_over() {
    let mut g = Graph::new();
    node(&mut g, 1, 0.0, 0.0);
    node(&mut g, 2, 1.0, 0.0);
    g.add_edge(1, 2);
    assert_eq!(search(&g, &Costs::new(), 1, 2), None);
}

#[test]
fn a_path_as_dear_as_unreachable_is_not_found() {
    let mut g = Graph::new();
    node(&mut g, 1, 0.0, 0.0);
    node(&mut g, 2, 1.0, 0.0);
    node(&mut g, 3, 2.0, 0.0);
    g.add_edge(1, 2);
    g.add_edge(2, 3);
    let mut costs = Costs::new();
    costs.set_edge(1, 2, UNREACHABLE - 1);
    costs.set_edge(2, 3, 1);
    assert_eq!(g.find_path(1, 2, &mut costs), Some(vec![1, 2]));
    assert_eq!(g.find_path(1, 3, &mut costs), None);
    costs.set_edge(1, 2, UNREACHABLE);
    assert_eq!(g.find_path(1, 2, &mut costs), None);
}

#[test]
fn steps_that_cost_nothing_are_fine() {
    let mut g = Graph::new();
    for id in 1..=3 {
        node(&mut g, id, 0.0, 0.0);
    }
    both_ways(&mut g, 1, 2);
    both_ways(&mut g, 2, 3);
    both_ways(&mut g, 3, 1);
    let path = find_path(&g, 1, 3).unwrap();
    assert_eq!(path, vec![1, 3]);
}

#[test]
fn the_first_node_of_an_id_stays() {
    let mut g = Graph::new();
    node(&mut g, 1, 1.0, 2.0);
    g.add_edge(1, 1);
    node(&mut g, 1, 9.0, 9.0);
    assert_eq!(g.node_position(1), Some((1f32.to_bits(), 2f32.to_bits())));
    assert_eq!(g.edge_count(1), 1);
    assert_eq!(g.node_count(), 1);
}

#[test]
fn an_edge_is_added_once() {
    let mut g = Graph::new();
    node(&mut g, 1, 0.0, 0.0);
    node(&mut g, 2, 0.0, 0.0);
    g.add_edge(1, 2);
    g.add_edge(1, 2);
    g.add_edge(1, 3);
    g.add_edge(1, 2);
    assert_eq!(g.edge_count(1), 2);
    assert_eq!(g.edge_target(1, 0), Some(2));
    assert_eq!(g.edge_target(1, 1), Some(3));
    assert_eq!(g.edge_target(1, 2), None);
}

#[test]
fn an_edge_from_what_is_no_node_is_not_added() {
    let mut g = Graph::new();
    g.add_edge(1, 2);
    assert!(!g.contains_node(1));
    assert!(!g.contains_node(2));
    assert_eq!(g.edge_count(1), 0);
    assert_eq!(g.node_count(), 0);
    assert_eq!(g.node_id(0), None);
    assert_eq!(g.node_position(1), None);
}

#[test]
fn nodes_are_listed_in_the_order_they_came() {
    let mut g = Graph::new();
    node(&mut g, 30, 0.0, 0.0);
    node(&mut g, 10, 0.0, 0.0);
    node(&mut g, 20, 0.0, 0.0);
    assert_eq!((0..3).map(|i| g.node_id(i).unwrap()).collect::<Vec<_>>(), vec![30, 10, 20]);
}

#[test]
fn costs_read_back() {
    let mut costs = Costs::new();
    assert_eq!(costs.edge_cost(1, 2), None);
    assert_eq!(costs.estimate_of(1), 0);
    costs.set_edge(1, 2, 5);
    costs.set_edge(2, 1, 6);
    costs.set_estimate(1, 7);
    assert_eq!(costs.edge_cost(1, 2), Some(5));
    assert_eq!(costs.edge_cost(2, 1), Some(6));
    assert_eq!(costs.edge_cost(1, 1), None);
    assert_eq!(costs.estimate_of(1), 7);
    assert_eq!(costs.estimate_of(2), 0);
    // ids that differ only in their high or low halves are not mixed up
    costs.set_edge(1 << 63, 0, 8);
    costs.set_edge(0, 1 << 63, 9);
    assert_eq!(costs.edge_cost(1 << 63, 0), Some(8));
    assert_eq!(costs.edge_cost(0, 1 << 63), Some(9));
}

fn two_ways() -> (Graph, Costs) {
    let mut g = Graph::new();
    for id in 1..=4 {
        node(&mut g, id, 0.0, 0.0);
    }
    g.add_edge(1, 2);
    g.add_edge(2, 4);
    g.add_edge(1, 3);
    g.add_edge(3, 4);
    let mut costs = Costs::new();
    costs.set_edge(1, 2, 1);
    costs.set_edge(2, 4, 1);
    costs.set_edge(1, 3, 2);
    costs.set_edge(3, 4, 2);
    (g, costs)
}

#[test]
fn an_estimate_that_overshoots_misleads_the_bare_search() {
    let (g, mut costs) = two_ways();
    costs.set_estimate(2, 1000);
    assert!(!estimates_are_consistent(&g, &costs, 4));
    assert_eq!(search(&g, &costs, 1, 4), Some(vec![1, 3, 4]));
}

#[test]
fn an_estimate_that_overshoots_is_dropped_and_the_cheapest_path_found() {
    let (g, mut costs) = two_ways();
    costs.set_estimate(2, 1000);
    assert_eq!(g.find_path(1, 4, &mut costs), Some(vec![1, 2, 4]));
    // the estimates are gone, the costs are not
    assert_eq!(costs.estimate_of(2), 0);
    assert_eq!(costs.edge_cost(1, 2), Some(1));
    let (g, mut costs) = two_ways();
    costs.set_estimate(2, 1000);
    assert_eq!(cheapest_path(&g, &mut costs, 1, 4), Some(vec![1, 2, 4]));
}

#[test]
fn consistent_estimates_are_kept() {
    let (g, mut costs) = two_ways();
    costs.set_estimate(1, 2);
    costs.set_estimate(2, 1);
    costs.set_estimate(3, 2);
    assert!(estimates_are_consistent(&g, &costs, 4));
    assert_eq!(g.find_path(1, 4, &mut costs), Some(vec![1, 2, 4]));
    assert_eq!(costs.estimate_of(1), 2);
    assert_eq!(costs.estimate_of(3), 2);
}

#[test]
fn what_makes_estimates_inconsistent() {
    let (g, mut costs) = two_ways();
    assert!(estimates_are_consistent(&g, &costs, 4));
    // the goal must be estimated at zero
    costs.set_estimate(4, 1);
    assert!(!estimates_are_consistent(&g, &costs, 4));
    costs.clear_estimates();
    assert!(estimates_are_consistent(&g, &costs, 4));
    // a step may not take the estimate down by more than it costs
    costs.set_estimate(1, 3);
    costs.set_estimate(2, 1);
    assert!(!estimates_are_consistent(&g, &costs, 4));
    costs.set_estimate(1, 2);
    // 1 -> 3 costs 2 and 3 is estimated at 0
    assert!(estimates_are_consistent(&g, &costs, 4));
    // an estimate on what is no node, or over an edge without cost, does not count
    costs.set_estimate(99, u64::MAX);
    assert!(estimates_are_consistent(&g, &costs, 4));
}

#[test]
fn clearing_estimates_leaves_the_costs() {
    let mut costs = Costs::new();
    costs.set_edge(1, 2, 5);
    costs.set_estimate(1, 7);
    costs.clear_estimates();
    assert_eq!(costs.estimate_of(1), 0);
    assert_eq!(costs.edge_cost(1, 2), Some(5));
}
