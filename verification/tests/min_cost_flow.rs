use cpkit::change_min_max::ChangeMinMax;
use cpkit::min_cost_flow::{CapacityScalingSuccessiveShortestPath, Status};

#[test]
fn routes_single_unit_on_a_path() {
    let mut mcf = CapacityScalingSuccessiveShortestPath::new(3);
    let e01 = mcf.add_edge(0, 1, 0, 1, 4);
    let e12 = mcf.add_edge(1, 2, 0, 1, 3);
    mcf.add_supply(0, 1);
    mcf.add_demand(2, 1);
    let status = mcf.solve(2);
    assert_eq!(status, Status::OPTIMAL);
    assert_eq!(mcf.get_edge_flow(&e01), 1);
    assert_eq!(mcf.get_edge_flow(&e12), 1);
    assert_eq!(mcf.get_result_cost(), 7);
}

#[test]
fn picks_the_cheaper_of_two_routes() {
    let mut mcf = CapacityScalingSuccessiveShortestPath::new(4);
    let cheap_a = mcf.add_edge(0, 1, 0, 5, 1);
    let cheap_b = mcf.add_edge(1, 3, 0, 5, 1);
    let dear_a = mcf.add_edge(0, 2, 0, 5, 10);
    let dear_b = mcf.add_edge(2, 3, 0, 5, 10);
    mcf.add_supply(0, 2);
    mcf.add_demand(3, 2);
    let status = mcf.solve(2);
    assert_eq!(status, Status::OPTIMAL);
    assert_eq!(mcf.get_edge_flow(&cheap_a), 2);
    assert_eq!(mcf.get_edge_flow(&cheap_b), 2);
    assert_eq!(mcf.get_edge_flow(&dear_a), 0);
    assert_eq!(mcf.get_edge_flow(&dear_b), 0);
    assert_eq!(mcf.get_result_cost(), 4);
}

#[test]
fn reports_infeasible_when_capacity_is_short() {
    let mut mcf = CapacityScalingSuccessiveShortestPath::new(2);
    mcf.add_edge(0, 1, 0, 1, 1);
    mcf.add_supply(0, 3);
    mcf.add_demand(1, 3);
    let status = mcf.solve(2);
    assert_eq!(status, Status::INFEASIBLE);
}

#[test]
fn meets_lower_bounds() {
    // an edge with lower bound 2 must carry at least 2 units
    let mut mcf = CapacityScalingSuccessiveShortestPath::new(2);
    let e = mcf.add_edge(0, 1, 2, 5, 1);
    mcf.add_supply(0, 2);
    mcf.add_demand(1, 2);
    let status = mcf.solve(2);
    assert_eq!(status, Status::OPTIMAL);
    assert_eq!(mcf.get_edge_flow(&e), 2);
    let _ = mcf.get_potential(0);
}

#[test]
fn chmin_chmax_report_changes() {
    let mut a: i64 = 10;
    assert!(a.chmin(3));
    assert_eq!(a, 3);
    assert!(!a.chmin(5));
    assert_eq!(a, 3);
    assert!(a.chmax(8));
    assert_eq!(a, 8);
    assert!(!a.chmax(8));
    assert_eq!(a, 8);

    let mut u: usize = 4;
    assert!(u.chmax(9));
    assert!(!u.chmin(9));
    assert!(u.chmin(2));
    assert_eq!(u, 2);
}
