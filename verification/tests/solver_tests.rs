use cvrp_savings::model::{Node, FP_ONE};
use cvrp_savings::matrix::generate_distance_matrix;
use cvrp_savings::route::create_initial_routes;
use cvrp_savings::merge::merge_routes;
use cvrp_savings::savings::{calculate_savings, calculate_savings_for_pairs, feasible_pairs, saving_value};
use cvrp_savings::prune::remove_routes_dominated;
use cvrp_savings::solver::{best_positive, solve, solve_step};

fn node(id: u64, x: i64, y: i64, demand: u64) -> Node {
    Node { id, x, y, demand }
}

#[test]
fn saving_is_truncated_never_rounded() {
    // A merge saving exactly 4.9 whole units must be recorded as 4.
    let four_point_nine: u64 = 4 * FP_ONE + (FP_ONE * 9) / 10; // floor(4.9 * FP_ONE)
    assert_eq!(saving_value(four_point_nine, 0), 4);
    // Truncation is toward zero on the negative side as well.
    assert_eq!(saving_value(0, four_point_nine), -4);
    assert_eq!(saving_value(5 * FP_ONE, 0), 5);
    assert_eq!(saving_value(FP_ONE - 1, 0), 0);
}

#[test]
fn two_customers_same_side_merge_into_one_route() {
    // 1 depot + 2 customers, demands 10 and 20, capacity 100, both on a
    // line through the depot on the same side: a single merged route, with
    // total distance strictly below the two singleton round-trips.
    let nodes = vec![node(1, 0, 0, 0), node(2, 10, 0, 10), node(3, 20, 0, 20)];
    let (_dm, routes, iters) = solve(&nodes, 100, 1, true, false);
    assert_eq!(routes.len(), 1);
    assert_eq!(iters, 1);
    assert_eq!(routes[0].stops, vec![0, 1, 2, 0]);
    assert_eq!(routes[0].demand, 30);
    let singleton_total = (2 * 10 + 2 * 20) * FP_ONE;
    assert_eq!(routes[0].dist, (10 + 10 + 20) * FP_ONE);
    assert!(routes[0].dist < singleton_total);
}

#[test]
fn infeasible_pair_terminates_with_initial_routes() {
    // 1 depot + 2 customers with combined demand 150 over capacity 100:
    // the merge is infeasible, the loop terminates at once, and the two
    // singleton routes come back unchanged.
    let nodes = vec![node(1, 0, 0, 0), node(2, 10, 0, 100), node(3, 20, 0, 50)];
    let (_dm, routes, iters) = solve(&nodes, 100, 4, true, false);
    assert_eq!(iters, 0);
    assert_eq!(routes.len(), 2);
    assert_eq!(routes[0].stops, vec![0, 1, 0]);
    assert_eq!(routes[1].stops, vec![0, 2, 0]);
    assert_eq!(routes[0].dist, 2 * 10 * FP_ONE);
    assert_eq!(routes[1].dist, 2 * 20 * FP_ONE);
}

#[test]
fn zero_saving_is_rejected() {
    // Two customers on a line through the depot on opposite sides: the
    // merged route is exactly as long as the two round trips, the saving
    // is 0, and a saving of 0 is not an improvement, so the loop stops at
    // Terminal with the singleton routes.
    let nodes = vec![node(1, 0, 0, 0), node(2, -10, 0, 10), node(3, 10, 0, 20)];
    let (_dm, routes, iters) = solve(&nodes, 100, 1, true, false);
    assert_eq!(iters, 0);
    assert_eq!(routes.len(), 2);
}

#[test]
fn solution_covers_every_customer_once_within_capacity() {
    let nodes = vec![
        node(1, 0, 0, 0),
        node(2, 10, 0, 40),
        node(3, 20, 0, 40),
        node(4, 0, 15, 40),
        node(5, 0, 30, 40),
        node(6, -25, 0, 40),
    ];
    let capacity = 80;
    let (_dm, routes, _iters) = solve(&nodes, capacity, 5, true, false);
    let mut seen = vec![0usize; nodes.len()];
    for r in &routes {
        assert!(r.demand <= capacity);
        assert_eq!(r.stops[0], 0);
        assert_eq!(*r.stops.last().unwrap(), 0);
        let mut demand = 0;
        for &s in &r.stops[1..r.stops.len() - 1] {
            assert!(s >= 1 && s < nodes.len());
            seen[s] += 1;
            demand += nodes[s].demand;
        }
        assert_eq!(demand, r.demand);
    }
    for c in 1..nodes.len() {
        assert_eq!(seen[c], 1, "customer served exactly once");
    }
}

#[test]
fn total_distance_never_increases_across_steps() {
    let nodes = vec![
        node(1, 0, 0, 0),
        node(2, 10, 0, 10),
        node(3, 20, 0, 10),
        node(4, 0, 15, 10),
        node(5, 0, 30, 10),
    ];
    let dm = generate_distance_matrix(&nodes);
    let mut routes = create_initial_routes(&nodes, &dm);
    let total = |rs: &Vec<cvrp_savings::route::Route>| rs.iter().map(|r| r.dist).sum::<u64>();
    let mut prev = total(&routes);
    loop {
        let accepted = solve_step(&mut routes, &nodes, &dm, 100, 3, true, false);
        if !accepted {
            break;
        }
        let now = total(&routes);
        assert!(now < prev, "each accepted merge strictly improves");
        prev = now;
    }
}

#[test]
fn terminal_within_customer_count_iterations() {
    let nodes = vec![
        node(1, 0, 0, 0),
        node(2, 10, 0, 10),
        node(3, 20, 0, 10),
        node(4, 30, 0, 10),
        node(5, 40, 0, 10),
        node(6, 50, 0, 10),
    ];
    let (_dm, routes, iters) = solve(&nodes, 100, 2, true, false);
    let customers = (nodes.len() - 1) as u64;
    assert!(iters <= customers - 1);
    assert_eq!(iters + routes.len() as u64, customers);
}

#[test]
fn pruning_is_idempotent_on_route_sets() {
    let nodes = vec![node(1, 0, 0, 0), node(2, 10, 0, 10), node(3, 20, 0, 20), node(4, 40, 0, 5)];
    let dm = generate_distance_matrix(&nodes);
    let routes = create_initial_routes(&nodes, &dm);
    let merged = merge_routes(&routes[0], &routes[1], &nodes, &dm);
    let mut once = create_initial_routes(&nodes, &dm);
    remove_routes_dominated(&mut once, &merged);
    let after_once: Vec<Vec<usize>> = once.iter().map(|r| r.stops.clone()).collect();
    remove_routes_dominated(&mut once, &merged);
    let after_twice: Vec<Vec<usize>> = once.iter().map(|r| r.stops.clone()).collect();
    assert_eq!(after_once, after_twice);
    assert_eq!(after_once, vec![vec![0, 3, 0]]);
}

#[test]
fn best_candidate_takes_first_strict_maximum() {
    let nodes = vec![node(1, 0, 0, 0), node(2, 10, 0, 10), node(3, 20, 0, 10), node(4, 21, 0, 10)];
    let dm = generate_distance_matrix(&nodes);
    let routes = create_initial_routes(&nodes, &dm);
    let sv = calculate_savings(&routes, &nodes, &dm, 100, 1, true, false);
    let best = best_positive(&sv).expect("line instances always have a positive saving");
    for (k, c) in sv.iter().enumerate() {
        assert!(c.saving <= sv[best].saving);
        if k < best {
            assert!(c.saving < sv[best].saving);
        }
    }
}

#[test]
fn feasible_pairs_are_complete_and_ordered() {
    let nodes = vec![node(1, 0, 0, 0), node(2, 10, 0, 60), node(3, 20, 0, 60), node(4, 30, 0, 10)];
    let dm = generate_distance_matrix(&nodes);
    let routes = create_initial_routes(&nodes, &dm);
    let ps = feasible_pairs(&routes, 100);
    // Pairs (0,1) is infeasible (120 > 100); (0,2) and (1,2) fit.
    assert_eq!(ps, vec![(0, 2), (1, 2)]);
    let _ = dm;
}

#[test]
fn parallel_and_serial_savings_agree_in_deterministic_mode() {
    let nodes = vec![
        node(1, 0, 0, 0),
        node(2, 10, 0, 10),
        node(3, 20, 5, 10),
        node(4, 0, 25, 10),
        node(5, -10, -10, 10),
    ];
    let dm = generate_distance_matrix(&nodes);
    let routes = create_initial_routes(&nodes, &dm);
    let ps = feasible_pairs(&routes, 100);
    let serial = calculate_savings_for_pairs(&routes, &nodes, &dm, &ps, 4, true, false);
    let par = calculate_savings_for_pairs(&routes, &nodes, &dm, &ps, 4, true, true);
    assert_eq!(serial.len(), par.len());
    for (a, b) in serial.iter().zip(par.iter()) {
        assert_eq!(a.saving, b.saving);
        assert_eq!(a.route.stops, b.route.stops);
        assert_eq!(a.route.dist, b.route.dist);
        assert_eq!(a.route.demand, b.route.demand);
    }
}
