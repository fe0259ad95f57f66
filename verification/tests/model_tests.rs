use cvrp_savings::model::{check_instance, Node, FP_ONE};
use cvrp_savings::matrix::generate_distance_matrix;

fn node(id: u64, x: i64, y: i64, demand: u64) -> Node {
    Node { id, x, y, demand }
}

#[test]
fn matrix_exact_values() {
    // A 3-4-5 triangle: all three distances are whole numbers, so the
    // fixed-point entries are exact multiples of FP_ONE.
    let nodes = vec![node(1, 0, 0, 0), node(2, 3, 4, 10), node(3, 3, 0, 20)];
    let dm = generate_distance_matrix(&nodes);
    assert_eq!(dm.dist(0, 1), 5 * FP_ONE);
    assert_eq!(dm.dist(1, 2), 4 * FP_ONE);
    assert_eq!(dm.dist(0, 2), 3 * FP_ONE);
}

#[test]
fn matrix_symmetric_zero_diagonal() {
    let nodes = vec![node(1, 0, 0, 0), node(2, 7, -2, 5), node(3, -4, 9, 6)];
    let dm = generate_distance_matrix(&nodes);
    for i in 0..3 {
        assert_eq!(dm.dist(i, i), 0);
        for j in 0..3 {
            assert_eq!(dm.dist(i, j), dm.dist(j, i));
        }
    }
}

#[test]
fn matrix_truncates_irrational_distances() {
    // Distance sqrt(2): the fixed-point value is floor(sqrt(2) * 2^20).
    let nodes = vec![node(1, 0, 0, 0), node(2, 1, 1, 1)];
    let dm = generate_distance_matrix(&nodes);
    assert_eq!(dm.dist(0, 1), 1_482_910);
}

#[test]
fn instance_accepts_well_formed() {
    let nodes = vec![node(1, 0, 0, 0), node(2, 10, 0, 10), node(3, 20, 0, 20)];
    assert!(check_instance(&nodes, 100));
}

#[test]
fn instance_rejects_empty() {
    let nodes: Vec<Node> = Vec::new();
    assert!(!check_instance(&nodes, 100));
}

#[test]
fn instance_rejects_bad_ids() {
    // Ids must be contiguous and 1-based.
    let nodes = vec![node(1, 0, 0, 0), node(3, 10, 0, 10)];
    assert!(!check_instance(&nodes, 100));
}

#[test]
fn instance_rejects_out_of_range_coordinate() {
    let nodes = vec![node(1, 0, 0, 0), node(2, 2_000_000, 0, 10)];
    assert!(!check_instance(&nodes, 100));
}

#[test]
fn instance_rejects_customer_demand_above_capacity() {
    let nodes = vec![node(1, 0, 0, 0), node(2, 10, 0, 150)];
    assert!(!check_instance(&nodes, 100));
}

#[test]
fn instance_allows_depot_demand_unchecked_against_capacity() {
    // Only customers are checked against the capacity; the depot's demand
    // field is the caller's business.
    let nodes = vec![node(1, 0, 0, 150), node(2, 10, 0, 10)];
    assert!(check_instance(&nodes, 100));
}
