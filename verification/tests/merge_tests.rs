use cvrp_savings::model::{Node, FP_ONE};
use cvrp_savings::matrix::generate_distance_matrix;
use cvrp_savings::route::{create_initial_routes, is_dominated, route_contains, Route};
use cvrp_savings::merge::{merge_routes, merge_routes_randomized, merge_trial};
use cvrp_savings::select::{quickselect, select_rank};

fn node(id: u64, x: i64, y: i64, demand: u64) -> Node {
    Node { id, x, y, demand }
}

fn line_nodes() -> Vec<Node> {
    // Depot at the origin, three customers on a line through it, all on
    // the same side.
    vec![
        node(1, 0, 0, 0),
        node(2, 10, 0, 10),
        node(3, 20, 0, 20),
        node(4, 40, 0, 30),
    ]
}

#[test]
fn initial_routes_shape() {
    let nodes = line_nodes();
    let dm = generate_distance_matrix(&nodes);
    let routes = create_initial_routes(&nodes, &dm);
    assert_eq!(routes.len(), 3);
    assert_eq!(routes[0].stops, vec![0, 1, 0]);
    assert_eq!(routes[0].dist, 2 * 10 * FP_ONE);
    assert_eq!(routes[0].demand, 10);
    assert_eq!(routes[2].stops, vec![0, 3, 0]);
    assert_eq!(routes[2].dist, 2 * 40 * FP_ONE);
    assert_eq!(routes[2].demand, 30);
}

#[test]
fn greedy_merge_visits_nearest_first() {
    let nodes = line_nodes();
    let dm = generate_distance_matrix(&nodes);
    let routes = create_initial_routes(&nodes, &dm);
    let merged = merge_routes(&routes[0], &routes[1], &nodes, &dm);
    assert_eq!(merged.stops, vec![0, 1, 2, 0]);
    assert_eq!(merged.dist, (10 + 10 + 20) * FP_ONE);
    assert_eq!(merged.demand, 30);
}

#[test]
fn zero_bias_trial_is_pure_nearest_neighbor() {
    // A bias of zero must reproduce the deterministic nearest-neighbor
    // construction exactly, whatever order the input routes hand their
    // customers over in.
    let nodes = line_nodes();
    let dm = generate_distance_matrix(&nodes);
    let routes = create_initial_routes(&nodes, &dm);
    let r23 = merge_routes(&routes[1], &routes[2], &nodes, &dm);
    assert_eq!(r23.stops, vec![0, 2, 3, 0]);
    let all = merge_trial(&r23, &routes[0], &nodes, &dm, 0, 1);
    assert_eq!(all.stops, vec![0, 1, 2, 3, 0]);
    assert_eq!(all.dist, (10 + 10 + 20 + 40) * FP_ONE);
    assert_eq!(all.demand, 60);
}

#[test]
fn merged_demand_equals_sum_of_inputs() {
    // The demand accumulated customer by customer during construction must
    // agree with the sum of the two input routes' demands.
    let nodes = line_nodes();
    let dm = generate_distance_matrix(&nodes);
    let routes = create_initial_routes(&nodes, &dm);
    for num in [0u64, 1, 2] {
        let merged = merge_trial(&routes[0], &routes[2], &nodes, &dm, num, 3);
        assert_eq!(merged.demand, routes[0].demand + routes[2].demand);
    }
}

#[test]
fn randomized_merge_is_feasible_route() {
    let nodes = line_nodes();
    let dm = generate_distance_matrix(&nodes);
    let routes = create_initial_routes(&nodes, &dm);
    let merged = merge_routes_randomized(&routes[0], &routes[2], &nodes, &dm, 10, false);
    assert_eq!(merged.stops.len(), 4);
    assert_eq!(merged.stops[0], 0);
    assert_eq!(merged.stops[3], 0);
    assert!(merged.stops[1..3].contains(&1));
    assert!(merged.stops[1..3].contains(&3));
    assert_eq!(merged.demand, 40);
}

#[test]
fn deterministic_sweep_keeps_best_trial() {
    // With every bias tried, the best construction over a line of
    // customers is the sorted sweep.
    let nodes = line_nodes();
    let dm = generate_distance_matrix(&nodes);
    let routes = create_initial_routes(&nodes, &dm);
    let r13 = merge_routes_randomized(&routes[0], &routes[2], &nodes, &dm, 4, true);
    assert_eq!(r13.stops, vec![0, 1, 3, 0]);
    assert_eq!(r13.dist, (10 + 30 + 40) * FP_ONE);
}

#[test]
fn quickselect_ranks_with_duplicates() {
    let mut v: Vec<u64> = vec![5, 3, 9, 3, 7];
    assert_eq!(quickselect(&mut v, 0), 3);
    let mut v2: Vec<u64> = vec![5, 3, 9, 3, 7];
    assert_eq!(quickselect(&mut v2, 1), 3);
    let mut v3: Vec<u64> = vec![5, 3, 9, 3, 7];
    assert_eq!(quickselect(&mut v3, 2), 5);
    let mut v4: Vec<u64> = vec![5, 3, 9, 3, 7];
    assert_eq!(quickselect(&mut v4, 4), 9);
}

#[test]
fn select_rank_breaks_ties_by_first_index() {
    let v: Vec<u64> = vec![4, 2, 7, 2, 1];
    // Rank 1 is the value 2; the first index holding it is 1, not 3.
    assert_eq!(select_rank(&v, 1), 1);
    assert_eq!(select_rank(&v, 0), 4);
    assert_eq!(select_rank(&v, 4), 2);
}

#[test]
fn dominance_is_by_node_membership_only() {
    let nodes = line_nodes();
    let dm = generate_distance_matrix(&nodes);
    let routes = create_initial_routes(&nodes, &dm);
    let merged = merge_routes(&routes[0], &routes[1], &nodes, &dm);
    assert!(is_dominated(&routes[0], &merged));
    assert!(is_dominated(&routes[1], &merged));
    assert!(!is_dominated(&routes[2], &merged));
    assert!(!is_dominated(&merged, &routes[0]));
}

#[test]
fn route_contains_checks_positions() {
    let r = Route { stops: vec![0, 2, 3, 0], dist: 0, demand: 0 };
    assert!(route_contains(&r, 0));
    assert!(route_contains(&r, 2));
    assert!(!route_contains(&r, 1));
}
