//! The force laws on concrete values: finite-range repulsion,
//! action-reaction symmetry, momentum conservation, damping at
//! coincidence, skipped self-interactions, the fourth-order combination,
//! and the end-to-end relaxation of a small layer.

use solver::engine::Solver;
use solver::model::{HLink, Node, Spring, VLink};
use solver::num::{MAX_STEP, SCALE, sixth64};

#[test]
fn separated_pair_feels_no_force() {
    // Two resting nodes a full interaction radius apart: one compute
    // pass leaves zero net force on both.
    let mut s = Solver::new();
    assert!(s.add_node(1, 0, 0).is_ok());
    assert!(s.add_node(2, 2 * SCALE, 0).is_ok());
    s.compute();
    assert_eq!(s.nodes[0].acc, 0);
    assert_eq!(s.nodes[1].acc, 0);
}

#[test]
fn close_pair_forces_equal_and_opposite() {
    // Half a unit apart: saturated repulsion of the node spring
    // (elastic coefficient 8.0), applied as an exact action-reaction
    // pair, so total momentum change is zero.
    let mut s = Solver::new();
    assert!(s.add_node(1, 0, 0).is_ok());
    assert!(s.add_node(2, SCALE / 2, 0).is_ok());
    s.compute();
    assert_eq!(s.nodes[0].acc, -8_000_000);
    assert_eq!(s.nodes[1].acc, 8_000_000);
    assert_eq!(s.nodes[0].acc + s.nodes[1].acc, 0);
}

#[test]
fn interact_conserves_momentum() {
    // A lone pair interaction with velocities: the accumulator sum is
    // unchanged and velocities are untouched.
    let mut a = Node { id: 1, pos: 0, vel: 300_000, acc: 1_000, layer: 0 };
    let mut b = Node { id: 2, pos: SCALE / 4, vel: -200_000, acc: -5_000, layer: 0 };
    let spring = Spring::new(8_000_000, 4_000_000);
    a.interact(&mut b, &spring);
    assert_eq!(a.acc + b.acc, 1_000 - 5_000);
    assert_eq!(a.vel, 300_000);
    assert_eq!(b.vel, -200_000);
    assert_ne!(a.acc, 1_000);
}

#[test]
fn coincident_hlink_damps_without_elastic_force() {
    // Coincident endpoints: zero separation gives zero elastic force,
    // but a relative velocity of 0.2 against damping 1.0 leaves a pure
    // damping force of 0.2.
    let mut nodes = vec![
        Node { id: 1, pos: SCALE, vel: 100_000, acc: 0, layer: 0 },
        Node { id: 2, pos: SCALE, vel: -100_000, acc: 0, layer: 0 },
    ];
    let h = HLink::new(0, 1);
    h.act(&mut nodes, &Spring::new(2_000_000, 1_000_000));
    assert_eq!(nodes[0].acc, -200_000);
    assert_eq!(nodes[1].acc, 200_000);
}

#[test]
fn hlink_measures() {
    let nodes = vec![
        Node { id: 1, pos: 3 * SCALE, vel: 400_000, acc: 0, layer: 0 },
        Node { id: 2, pos: SCALE, vel: 200_000, acc: 0, layer: 0 },
    ];
    let h = HLink::new(0, 1);
    assert_eq!(h.center(&nodes), 2 * SCALE);
    assert_eq!(h.size(&nodes), 2 * SCALE);
    assert_eq!(h.speed(&nodes), 300_000);
    // Sorted by position, the second node comes first.
    assert_eq!(h.nodes_sorted(&nodes), (1, 0));
    assert!(h.has_common_node(&HLink::new(1, 5)));
    assert!(!h.has_common_node(&HLink::new(2, 5)));
}

#[test]
fn hlink_apply_force_splits_preserving_total() {
    // An even force splits into equal halves; an odd one gives the left
    // endpoint the truncated half and the right endpoint the rest, so
    // the endpoints always receive exactly the applied force in total.
    let mut nodes = vec![
        Node { id: 1, pos: 0, vel: 0, acc: 0, layer: 0 },
        Node { id: 2, pos: SCALE, vel: 0, acc: 0, layer: 0 },
    ];
    let h = HLink::new(0, 1);
    h.apply_force(&mut nodes, 4);
    assert_eq!(nodes[0].acc, 2);
    assert_eq!(nodes[1].acc, 2);
    h.apply_force(&mut nodes, 5);
    assert_eq!(nodes[0].acc, 4);
    assert_eq!(nodes[1].acc, 5);
    h.apply_force(&mut nodes, -9);
    assert_eq!(nodes[0].acc, 0);
    assert_eq!(nodes[1].acc, 0);
}

#[test]
fn shared_endpoint_hlinks_never_intersect() {
    // The two links overlap geometrically but share node 1: the
    // intersection pass must not touch any accumulator.
    let mut nodes = vec![
        Node { id: 1, pos: 0, vel: 0, acc: 0, layer: 0 },
        Node { id: 2, pos: SCALE / 2, vel: 0, acc: 0, layer: 0 },
        Node { id: 3, pos: SCALE / 4, vel: 0, acc: 0, layer: 0 },
    ];
    let a = HLink::new(0, 1);
    let b = HLink::new(1, 2);
    a.intersect(&b, &mut nodes, &Spring::new(20_000_000, 10_000_000));
    assert_eq!(nodes[0].acc, 0);
    assert_eq!(nodes[1].acc, 0);
    assert_eq!(nodes[2].acc, 0);
}

#[test]
fn overlapping_hlinks_push_their_facing_endpoints() {
    // Links [0.0, 0.4] and [0.6, 1.0]: centers 0.6 apart, clearance
    // radius 1.4, so they repel. Only the two facing endpoints are
    // perturbed, by exact opposites.
    let mut nodes = vec![
        Node { id: 1, pos: 0, vel: 0, acc: 0, layer: 0 },
        Node { id: 2, pos: 400_000, vel: 0, acc: 0, layer: 0 },
        Node { id: 3, pos: 600_000, vel: 0, acc: 0, layer: 0 },
        Node { id: 4, pos: SCALE, vel: 0, acc: 0, layer: 0 },
    ];
    let a = HLink::new(0, 1);
    let b = HLink::new(2, 3);
    a.intersect(&b, &mut nodes, &Spring::new(20_000_000, 10_000_000));
    assert_eq!(nodes[0].acc, 0);
    assert_eq!(nodes[1].acc, -16_000_000);
    assert_eq!(nodes[2].acc, 16_000_000);
    assert_eq!(nodes[3].acc, 0);
}

#[test]
fn vlink_pulls_bottom_under_center() {
    // Parent edge [0.0, 2.0], bottom at 0.0: the bottom is pulled one
    // unit toward the center at 1.0, the reaction split onto the edge.
    let mut nodes = vec![
        Node { id: 1, pos: 0, vel: 0, acc: 0, layer: 0 },
        Node { id: 2, pos: 2 * SCALE, vel: 0, acc: 0, layer: 0 },
        Node { id: 3, pos: 0, vel: 0, acc: 0, layer: 1 },
    ];
    let hlinks = vec![HLink::new(0, 1)];
    let v = VLink::new(0, 2);
    v.act(&mut nodes, &hlinks, &Spring::new(1_000_000, 500_000));
    assert_eq!(nodes[0].acc, -500_000);
    assert_eq!(nodes[1].acc, -500_000);
    assert_eq!(nodes[2].acc, 1_000_000);
}

#[test]
fn same_top_vlinks_never_intersect() {
    let mut nodes = vec![
        Node { id: 1, pos: 0, vel: 0, acc: 0, layer: 0 },
        Node { id: 2, pos: SCALE, vel: 0, acc: 0, layer: 0 },
        Node { id: 3, pos: 0, vel: 0, acc: 0, layer: 1 },
        Node { id: 4, pos: 1, vel: 0, acc: 0, layer: 1 },
    ];
    let hlinks = vec![HLink::new(0, 1)];
    let va = VLink::new(0, 2);
    let vb = VLink::new(0, 3);
    va.intersect(&vb, &mut nodes, &hlinks, &Spring::new(20_000_000, 10_000_000));
    assert_eq!(nodes[2].acc, 0);
    assert_eq!(nodes[3].acc, 0);
}

#[test]
fn crowded_vlink_bottoms_repel() {
    // Two vertical links under distinct parent edges whose bottom nodes
    // sit 0.2 apart: both bottoms are pushed apart by exact opposites.
    let mut nodes = vec![
        Node { id: 1, pos: -3 * SCALE, vel: 0, acc: 0, layer: 0 },
        Node { id: 2, pos: -SCALE, vel: 0, acc: 0, layer: 0 },
        Node { id: 3, pos: SCALE, vel: 0, acc: 0, layer: 0 },
        Node { id: 4, pos: 3 * SCALE, vel: 0, acc: 0, layer: 0 },
        Node { id: 5, pos: 0, vel: 0, acc: 0, layer: 1 },
        Node { id: 6, pos: 200_000, vel: 0, acc: 0, layer: 1 },
    ];
    let hlinks = vec![HLink::new(0, 1), HLink::new(2, 3)];
    let va = VLink::new(0, 4);
    let vb = VLink::new(1, 5);
    va.intersect(&vb, &mut nodes, &hlinks, &Spring::new(20_000_000, 10_000_000));
    assert_eq!(nodes[4].acc, -16_000_000);
    assert_eq!(nodes[5].acc, 16_000_000);
}

#[test]
fn equal_samples_combine_to_one_euler_step() {
    // The fourth-order weight (k + 2k + 2k + k) / 6 collapses to k.
    for k in [0i64, 1, -1, 123_456, -987_654, MAX_STEP] {
        assert_eq!(sixth64(k + 2 * k + 2 * k + k), k);
    }
}

#[test]
fn step_clamps_velocity_to_max_step() {
    let mut n = Node { id: 1, pos: 0, vel: 0, acc: 1_000_000_000, layer: 0 };
    n.step(SCALE);
    assert_eq!(n.vel, MAX_STEP);
    assert_eq!(n.pos, SCALE);
}

#[test]
fn three_node_layer_relaxes_outward() {
    // Three nodes on one layer, 0.9 apart, no links: repeated steps of
    // 0.1 push the outer pair apart while the middle node stays put by
    // symmetry; once separated, drag decays the velocities toward zero.
    let mut s = Solver::new();
    assert!(s.add_node(1, -900_000, 0).is_ok());
    assert!(s.add_node(2, 0, 0).is_ok());
    assert!(s.add_node(3, 900_000, 0).is_ok());

    let sep0 = s.nodes[2].pos - s.nodes[0].pos;
    s.solve(100_000);
    let sep1 = s.nodes[2].pos - s.nodes[0].pos;
    assert!(sep1 > sep0);

    let mut early_speed: i64 = 0;
    for k in 0..1000 {
        s.solve(100_000);
        if k == 2 {
            early_speed = s.nodes[0].vel.abs().max(s.nodes[2].vel.abs());
        }
    }
    let sep_end = s.nodes[2].pos - s.nodes[0].pos;
    assert!(sep_end > sep0 + 100_000);
    assert_eq!(s.nodes[1].pos, 0);
    let late_speed = s.nodes[0].vel.abs().max(s.nodes[2].vel.abs());
    assert!(early_speed > 10_000);
    assert!(late_speed < 1_000);
    assert!(late_speed < early_speed);
}

#[test]
fn solve_pushes_close_pair_apart() {
    let mut s = Solver::new();
    assert!(s.add_node(1, 0, 0).is_ok());
    assert!(s.add_node(2, 500_000, 0).is_ok());
    s.solve(100_000);
    assert!(s.nodes[0].pos < 0);
    assert!(s.nodes[1].pos > 500_000);
}

#[test]
fn node_report_record() {
    let n = Node { id: 9, pos: 42, vel: 1, acc: 2, layer: 3 };
    assert_eq!(n.sync(), (9, 42));
}

#[test]
fn spring_profile_coefficients() {
    let p = solver::model::profile();
    assert_eq!(p.visc, 100_000);
    assert_eq!(p.node.elast, 8_000_000);
    assert_eq!(p.node.frict, 4_000_000);
    assert_eq!(p.hor_inter.elast, 20_000_000);
    let sp = Spring::new(123, 456);
    assert_eq!(sp.elast, 123);
    assert_eq!(sp.frict, 456);
}

#[test]
fn hlink_spring_pulls_linked_nodes_together() {
    // Two nodes three units apart, beyond the repulsion radius, joined
    // by a horizontal spring with target length zero: one step draws
    // them toward each other.
    let mut s = Solver::new();
    assert!(s.add_node(1, 0, 0).is_ok());
    assert!(s.add_node(2, 3 * SCALE, 0).is_ok());
    assert!(s.add_hlink(10, 1, 2).is_ok());
    s.solve(100_000);
    assert!(s.nodes[0].pos > 0);
    assert!(s.nodes[1].pos < 3 * SCALE);
}

#[test]
fn vlink_pulls_child_under_parent_edge() {
    // A parent edge spanning [0.0, 2.0] and a child hanging at -1.0:
    // the vertical spring drags the child toward the edge's midpoint at
    // 1.0 and the parent endpoints toward the child.
    let mut s = Solver::new();
    assert!(s.add_node(1, 0, 0).is_ok());
    assert!(s.add_node(2, 2 * SCALE, 0).is_ok());
    assert!(s.add_node(3, -SCALE, 1).is_ok());
    assert!(s.add_hlink(10, 1, 2).is_ok());
    assert!(s.add_vlink(20, 10, 3).is_ok());
    s.solve(100_000);
    assert!(s.nodes[2].pos > -SCALE);
    // The right parent endpoint is pulled left both by its own spring
    // and by the vertical link's reaction.
    assert!(s.nodes[1].pos < 2 * SCALE);
}

#[test]
fn rk4_single_node_drag_trajectory() {
    // One node with velocity 0.6 and only viscous drag (0.1) acting:
    // one step of 1.0 must follow the classic scheme, each stage
    // restarting from the full stage-0 snapshot. Stage samples are
    // 0.6, 0.57, 0.5715 and 0.54285; their weighted mix is 0.570975,
    // and the final advance lands on velocity 0.513878.
    let mut s = Solver::new();
    assert!(s.add_node(1, 0, 0).is_ok());
    s.nodes[0].vel = 600_000;
    s.solve(SCALE);
    assert_eq!(s.nodes[0].vel, 513_878);
    assert_eq!(s.nodes[0].pos, 513_878);
}
