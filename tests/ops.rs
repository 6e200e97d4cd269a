use vehr_alns::ops::{
    best_insertion, improve, improve_step, insert_greedy, Destroy, GreedyRebuild, RandomDestroy,
    Rebuild,
};
use vehr_alns::reg::{LowerColDist, NodeKind, NodeRegistry};
use vehr_alns::tour::{Node, Tour};

fn seven_nodes() -> Tour {
    let mut reg = NodeRegistry::new();
    reg.add(NodeKind::Depot, 0);
    for _ in 0..6 {
        reg.add(NodeKind::Request, 1);
    }
    let lcd = LowerColDist::new(
        7,
        vec![
            10, 20, 25, 25, 20, 10, 12, 20, 25, 30, 20, 10, 11, 22, 30, 2, 11, 25, 10, 20, 12,
        ],
    );
    reg.compute(&lcd);
    Tour::new(reg, 3)
}

fn initial() -> Tour {
    let mut tour = seven_nodes();
    tour.init_sequential();
    tour
}

fn served_count(tour: &Tour) -> usize {
    (0..tour.n_routes()).map(|r| tour.route(r).len()).sum()
}

fn all_ids(tour: &Tour) -> Vec<Vec<usize>> {
    (0..tour.n_routes()).map(|r| tour.route(r).node_ids()).collect()
}

fn within_capacity(tour: &Tour) -> bool {
    (0..tour.n_routes()).all(|r| tour.route(r).load() <= tour.capacity())
}

#[test]
fn test_random_greedy() {
    let mut tour = initial();
    let mut rd = RandomDestroy::new(0, 1, 5);
    let unserved = rd.destroy(&mut tour);
    assert!(unserved.len() > 0);

    let mut gr = GreedyRebuild::new();
    gr.rebuild(&mut tour, unserved);
}

#[test]
fn distances_from_lower_columns() {
    let tour = seven_nodes();
    assert_eq!(tour.distance(1, 0), 10);
    assert_eq!(tour.distance(0, 6), 10);
    assert_eq!(tour.distance(2, 1), 12);
    assert_eq!(tour.distance(1, 2), 12);
    assert_eq!(tour.distance(4, 3), 2);
    assert_eq!(tour.distance(6, 5), 12);
    assert_eq!(tour.distance(3, 3), 0);
}

#[test]
fn initial_construction_fills_routes_in_order() {
    let tour = initial();
    assert_eq!(all_ids(&tour), vec![vec![1, 2, 3], vec![4, 5, 6]]);
    assert_eq!(tour.route(0).load(), 3);
    assert_eq!(tour.route(1).depot(), 0);
    assert_eq!(tour.total_distance(), 114);
}

#[test]
fn route_arcs_include_closing_edges() {
    let tour = initial();
    let rt = tour.route(0);
    assert_eq!(rt.arc(0), (0, 1));
    assert_eq!(rt.arc(2), (2, 3));
    assert_eq!(rt.arc(3), (3, 0));
}

#[test]
fn removal_target_is_ceiling() {
    let rd = RandomDestroy::new(0, 1, 5);
    assert_eq!(rd.removal_target(7), 2);
    assert_eq!(rd.removal_target(10), 2);
    assert_eq!(rd.removal_target(11), 3);
    assert_eq!(rd.removal_target(0), 0);
    let all = RandomDestroy::new(0, 1, 1);
    assert_eq!(all.removal_target(7), 7);
}

#[test]
fn end_to_end_seven_nodes() {
    let mut tour = initial();
    let mut rd = RandomDestroy::new(0, 1, 5);
    let unserved = rd.destroy(&mut tour);
    assert_eq!(unserved.len(), 2);
    assert_eq!(served_count(&tour), 4);
    let mut gr = GreedyRebuild::new();
    gr.rebuild(&mut tour, unserved);
    assert_eq!(tour.n_nodes(), 7);
    assert_eq!(served_count(&tour), 6);
    assert!(within_capacity(&tour));
}

#[test]
fn destroy_returns_distinct_requests() {
    let mut tour = initial();
    let mut rd = RandomDestroy::new(42, 1, 2);
    let unserved = rd.destroy(&mut tour);
    assert_eq!(unserved.len(), 4);
    let mut ids: Vec<usize> = unserved.iter().map(|n| n.id()).collect();
    assert!(unserved.iter().all(|n| n.kind() == NodeKind::Request && n.demand() == 1));
    ids.sort();
    ids.dedup();
    assert_eq!(ids.len(), 4);
    assert_eq!(served_count(&tour), 2);
    assert!((0..tour.n_routes()).all(|r| tour.route(r).len() > 0));
    for id in ids {
        assert!(all_ids(&tour).iter().all(|rt| !rt.contains(&id)));
    }
}

#[test]
fn full_population_ejects_every_request() {
    let mut tour = initial();
    let mut rd = RandomDestroy::new(7, 1, 1);
    let unserved = rd.destroy(&mut tour);
    assert_eq!(unserved.len(), 6);
    assert_eq!(tour.n_routes(), 0);
    let mut gr = GreedyRebuild::new();
    gr.rebuild(&mut tour, unserved);
    assert_eq!(served_count(&tour), 6);
    assert!(within_capacity(&tour));
}

#[test]
fn same_seed_same_outcome() {
    let run = || {
        let mut tour = initial();
        let mut rd = RandomDestroy::new(5, 1, 3);
        let unserved = rd.destroy(&mut tour);
        let ids: Vec<usize> = unserved.iter().map(|n| n.id()).collect();
        GreedyRebuild::new().rebuild(&mut tour, unserved);
        (ids, tour.total_distance(), all_ids(&tour))
    };
    assert_eq!(run(), run());
}

#[test]
fn destroy_then_rebuild_keeps_feasibility() {
    let mut tour = initial();
    let mut rd = RandomDestroy::new(3, 2, 5);
    let mut gr = GreedyRebuild::default();
    for _ in 0..20 {
        let d = improve_step(&mut tour, &mut rd, &mut gr);
        assert_eq!(d, tour.total_distance());
        assert_eq!(served_count(&tour), 6);
        assert!(within_capacity(&tour));
    }
}

#[test]
fn improve_never_reports_worse_than_start() {
    let mut tour = initial();
    let start = tour.total_distance();
    let mut rd = RandomDestroy::new(11, 1, 5);
    let mut gr = GreedyRebuild::new();
    let best = improve(&mut tour, &mut rd, &mut gr, 50);
    assert!(best <= start);
    assert!(best <= tour.total_distance());
    assert_eq!(served_count(&tour), 6);
}

#[test]
fn best_insertion_picks_least_delta() {
    let mut tour = initial();
    let four = tour.eject(4).unwrap();
    let two = tour.eject(2).unwrap();
    assert_eq!(two, Node { id: 2, kind: NodeKind::Request, demand: 1 });
    // route 0 is [1, 3], route 1 is [5, 6]: the arc (3, depot) costs 2 more.
    assert_eq!(best_insertion(&tour, four), Some((0, 2)));
    assert_eq!(insert_greedy(&mut tour, four), (0, 2));
    assert_eq!(all_ids(&tour), vec![vec![1, 3, 4], vec![5, 6]]);
}

#[test]
fn best_insertion_ties_go_to_first_and_full_routes_are_skipped() {
    let mut tour = initial();
    let two = tour.eject(2).unwrap();
    // only route 0 has room; arc (depot, 1) costs 22, arc (1, 3) costs 2.
    assert_eq!(best_insertion(&tour, two), Some((0, 1)));
    insert_greedy(&mut tour, two);
    assert_eq!(all_ids(&tour), vec![vec![1, 2, 3], vec![4, 5, 6]]);
    assert_eq!(best_insertion(&tour, two), None);
}

#[test]
fn greedy_opens_a_route_when_none_has_room() {
    let mut tour = seven_nodes();
    let node = tour.node(5).unwrap();
    assert_eq!(best_insertion(&tour, node), None);
    assert_eq!(insert_greedy(&mut tour, node), (0, 0));
    assert_eq!(all_ids(&tour), vec![vec![5]]);
    assert_eq!(tour.total_distance(), 40);
}

#[test]
fn eject_ignores_depots_and_unknown_ids() {
    let mut tour = initial();
    assert_eq!(tour.eject(0), None);
    assert_eq!(tour.eject(99), None);
    assert_eq!(tour.node(99), None);
    assert!(tour.eject(3).is_some());
    assert_eq!(tour.eject(3), None);
    assert_eq!(all_ids(&tour), vec![vec![1, 2], vec![4, 5, 6]]);
    assert_eq!(tour.route(0).load(), 2);
}

#[test]
fn drop_empty_removes_only_empty_routes() {
    let mut tour = initial();
    tour.eject(1);
    tour.eject(2);
    tour.eject(3);
    assert_eq!(tour.n_routes(), 2);
    tour.drop_empty();
    assert_eq!(all_ids(&tour), vec![vec![4, 5, 6]]);
    let r = tour.new_route();
    assert_eq!(r, 1);
    assert!(tour.check_capacity(1, 3));
    assert!(!tour.check_capacity(0, 1));
    tour.drop_empty();
    assert_eq!(tour.n_routes(), 1);
}

#[test]
fn rebuild_trait_object_places_all() {
    let mut tour = initial();
    let mut rd = RandomDestroy::new(9, 1, 2);
    let unserved = Destroy::destroy(&mut rd, &mut tour);
    let mut gr = GreedyRebuild::new();
    Rebuild::rebuild(&mut gr, &mut tour, unserved);
    assert_eq!(served_count(&tour), 6);
    assert!(within_capacity(&tour));
}

#[test]
fn improve_matches_repeated_steps() {
    let mut a = initial();
    let mut rd_a = RandomDestroy::new(21, 2, 7);
    let mut gr = GreedyRebuild::new();
    let best = improve(&mut a, &mut rd_a, &mut gr, 10);

    let mut b = initial();
    let mut rd_b = RandomDestroy::new(21, 2, 7);
    let mut least = b.total_distance();
    for _ in 0..10 {
        least = least.min(improve_step(&mut b, &mut rd_b, &mut gr));
    }
    assert_eq!(best, least);
    assert_eq!(all_ids(&a), all_ids(&b));
}

#[test]
fn improve_with_no_passes_reports_start() {
    let mut tour = initial();
    let mut rd = RandomDestroy::new(1, 1, 5);
    let best = improve(&mut tour, &mut rd, &mut GreedyRebuild::new(), 0);
    assert_eq!(best, 114);
    assert_eq!(all_ids(&tour), vec![vec![1, 2, 3], vec![4, 5, 6]]);
}

#[test]
fn new_routes_anchor_at_lowest_depot() {
    let mut reg = NodeRegistry::new();
    reg.add(NodeKind::Request, 1);
    reg.add(NodeKind::Depot, 0);
    reg.add(NodeKind::Depot, 0);
    reg.compute(&LowerColDist::new(3, vec![4, 5, 6]));
    let mut tour = Tour::new(reg, 2);
    assert!(tour.has_anchor());
    let r = tour.new_route();
    assert_eq!(tour.route(r).depot(), 1);
}
