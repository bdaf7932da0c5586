//! Behavior of the solver's bookkeeping API: registration, validation
//! errors, position overrides and the position report.

use solver::engine::{Solver, SolverError};
use solver::num::SCALE;

#[test]
fn new_solver_is_empty() {
    let s = Solver::new();
    assert_eq!(s.sync().len(), 0);
}

#[test]
fn add_node_and_sync_reports_positions() {
    let mut s = Solver::new();
    assert!(s.add_node(1, -SCALE, 0).is_ok());
    assert!(s.add_node(2, SCALE, 0).is_ok());
    let report = s.sync();
    assert_eq!(report, vec![(1, -SCALE), (2, SCALE)]);
}

#[test]
fn add_node_duplicate_identity_rejected() {
    let mut s = Solver::new();
    assert!(s.add_node(7, 0, 0).is_ok());
    assert_eq!(s.add_node(7, SCALE, 3), Err(SolverError::DuplicateIdentity));
    // The failed addition left the solver untouched.
    assert_eq!(s.sync(), vec![(7, 0)]);
}

#[test]
fn add_hlink_unknown_node_rejected() {
    let mut s = Solver::new();
    assert!(s.add_node(1, 0, 0).is_ok());
    assert_eq!(s.add_hlink(10, 1, 2), Err(SolverError::UnknownReference));
}

#[test]
fn add_hlink_layer_mismatch_rejected() {
    let mut s = Solver::new();
    assert!(s.add_node(1, 0, 0).is_ok());
    assert!(s.add_node(2, SCALE, 1).is_ok());
    assert_eq!(s.add_hlink(10, 1, 2), Err(SolverError::LayerMismatch));
}

#[test]
fn add_hlink_duplicate_identity_rejected() {
    let mut s = Solver::new();
    assert!(s.add_node(1, 0, 0).is_ok());
    assert!(s.add_node(2, SCALE, 0).is_ok());
    assert!(s.add_hlink(10, 1, 2).is_ok());
    assert_eq!(s.add_hlink(10, 2, 1), Err(SolverError::DuplicateIdentity));
}

#[test]
fn add_vlink_unknown_hlink_rejected() {
    let mut s = Solver::new();
    assert!(s.add_node(1, 0, 0).is_ok());
    assert!(s.add_node(2, SCALE, 0).is_ok());
    assert!(s.add_node(3, 0, 1).is_ok());
    // No horizontal link 99 is registered.
    assert_eq!(s.add_vlink(20, 99, 3), Err(SolverError::UnknownReference));
}

#[test]
fn add_vlink_unknown_bottom_rejected() {
    let mut s = Solver::new();
    assert!(s.add_node(1, 0, 0).is_ok());
    assert!(s.add_node(2, SCALE, 0).is_ok());
    assert!(s.add_hlink(10, 1, 2).is_ok());
    assert_eq!(s.add_vlink(20, 10, 99), Err(SolverError::UnknownReference));
}

#[test]
fn add_vlink_duplicate_identity_rejected() {
    let mut s = Solver::new();
    assert!(s.add_node(1, 0, 0).is_ok());
    assert!(s.add_node(2, SCALE, 0).is_ok());
    assert!(s.add_node(3, 0, 1).is_ok());
    assert!(s.add_hlink(10, 1, 2).is_ok());
    assert!(s.add_vlink(20, 10, 3).is_ok());
    assert_eq!(s.add_vlink(20, 10, 3), Err(SolverError::DuplicateIdentity));
}

#[test]
fn update_node_overrides_position_only() {
    let mut s = Solver::new();
    assert!(s.add_node(1, 0, 0).is_ok());
    assert!(s.update_node(1, 5 * SCALE).is_ok());
    assert_eq!(s.sync(), vec![(1, 5 * SCALE)]);
    assert_eq!(s.nodes[0].vel, 0);
    assert_eq!(s.update_node(2, 0), Err(SolverError::UnknownReference));
}

#[test]
fn default_solver_matches_new() {
    let s = Solver::default();
    assert_eq!(s.sync().len(), 0);
}
