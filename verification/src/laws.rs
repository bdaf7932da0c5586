//! The force laws' global guarantees, stated and proved once for all
//! inputs: vanishing of out-of-range repulsion through a full pass,
//! action-reaction symmetry, momentum conservation, pure damping at
//! coincidence, skipped self-interactions, and the collapse of the
//! fourth-order combination under a constant force.

use vstd::prelude::*;
use crate::num::{
    ACC_LIMIT, SCALE, clip, fmul, iabs, lemma_tdiv_at_least_one, lemma_tdiv_exact, tdiv,
};
use crate::model::{
    HLink, Node, Spring, VLink, bump, h_act, h_act_force, h_apply, h_center, h_in_bounds,
    h_intersect, h_size, h_sorted, hh_force, node_force, shares_node, v_act, v_act_force,
    v_in_bounds, v_intersect, vv_force,
};
use crate::engine::{
    combine6, drag_all, dragged, groups_in_bounds, h_act_all, hh_from, hh_levels, hh_sweep,
    pair_from, pair_levels, pair_one, pair_sweep, pass, v_act_all, vv_from, vv_levels, vv_sweep,
};

verus! {

/// Nodes a full interaction radius apart exert no force on one another,
/// whatever their velocities: the repulsion has finite range.
pub proof fn law_separated_nodes_zero_force(a: Node, b: Node, s: Spring)
    requires
        iabs(a.pos - b.pos) >= SCALE as int,
    ensures
        node_force(a, b, s) == 0,
{
}

/// A two-node layer whose nodes rest one interaction radius apart comes
/// out of a full force-compute pass with zero net force on both.
pub proof fn law_separated_pair_full_pass(a: Node, b: Node)
    requires
        a.wf(),
        b.wf(),
        a.vel == 0,
        b.vel == 0,
        iabs(a.pos - b.pos) >= SCALE as int,
    ensures
        ({
            let r = pass(
                seq![a, b],
                seq![seq![0usize, 1usize]],
                Seq::<HLink>::empty(),
                Seq::<VLink>::empty(),
                Seq::<Seq<usize>>::empty(),
                Seq::<Seq<usize>>::empty(),
            );
            &&& r.len() == 2
            &&& r[0].acc == 0
            &&& r[1].acc == 0
        }),
{
    let ns = seq![a, b];
    let p = crate::model::profile_spec();
    let a0 = Node { acc: 0i64, ..a };
    let b0 = Node { acc: 0i64, ..b };
    let d = seq![a0, b0];
    assert(fmul(p.visc as int, 0) == 0) by {
        assert(p.visc as int * 0 == 0);
        assert(tdiv(0, SCALE as int) == 0) by {
            vstd::arithmetic::div_mod::lemma_div_of0(SCALE as int);
        }
    }
    assert(dragged(a, p.visc as int) == a0);
    assert(dragged(b, p.visc as int) == b0);
    assert(drag_all(ns, p.visc as int) =~= d);

    // The single pair exerts no force, so the pair sweep is the identity.
    let g = seq![0usize, 1usize];
    let gs = seq![g];
    assert(node_force(a0, b0, p.node) == 0);
    assert(pair_one(d, 0, 1, p.node) =~= d);
    let g1 = g.drop_first();
    assert(g1.len() == 1 && g1[0] == 1usize);
    let g2 = g1.drop_first();
    assert(g2.len() == 0);
    assert(pair_from(d, 0usize, g1, p.node) == pair_from(pair_one(d, 0, 1, p.node), 0usize, g2, p.node));
    assert(pair_from(pair_one(d, 0, 1, p.node), 0usize, g2, p.node) == pair_one(d, 0, 1, p.node));
    assert(pair_from(d, 0usize, g1, p.node) == d);
    assert(pair_sweep(d, g, p.node) == pair_sweep(pair_from(d, 0usize, g1, p.node), g1, p.node));
    assert(pair_from(d, 1usize, g2, p.node) == d);
    assert(pair_sweep(d, g1, p.node) == pair_sweep(pair_from(d, 1usize, g2, p.node), g2, p.node));
    assert(pair_sweep(d, g2, p.node) == d);
    assert(pair_sweep(d, g, p.node) == d);
    let gs1 = gs.drop_first();
    assert(gs1.len() == 0);
    assert(pair_levels(d, gs, p.node) == pair_levels(pair_sweep(d, gs[0], p.node), gs1, p.node));
    assert(gs[0] == g);
    assert(pair_levels(d, gs1, p.node) == d);
    assert(pair_levels(d, gs, p.node) == d);

    // No links: the remaining phases are empty folds.
    assert(h_act_all(d, Seq::<HLink>::empty(), p.hor) == d);
    assert(v_act_all(d, Seq::<HLink>::empty(), Seq::<VLink>::empty(), p.ver) == d);
    assert(hh_levels(d, Seq::<HLink>::empty(), Seq::<Seq<usize>>::empty(), p.hor_inter) == d);
    assert(vv_levels(
        d,
        Seq::<HLink>::empty(),
        Seq::<VLink>::empty(),
        Seq::<Seq<usize>>::empty(),
        p.ver_inter,
    ) == d);
    assert(pass(
        ns,
        gs,
        Seq::<HLink>::empty(),
        Seq::<VLink>::empty(),
        Seq::<Seq<usize>>::empty(),
        Seq::<Seq<usize>>::empty(),
    ) == d);
}

/// Action equals reaction for the node-node repulsion: away from the
/// accumulator's saturation limits, the two accumulator changes of one
/// pair interaction are exact opposites.
pub proof fn law_pair_forces_opposite(ns: Seq<Node>, i: int, j: int, s: Spring)
    requires
        0 <= i < ns.len(),
        0 <= j < ns.len(),
        i != j,
        iabs(ns[i].acc + node_force(ns[i], ns[j], s)) <= ACC_LIMIT as int,
        iabs(ns[j].acc - node_force(ns[i], ns[j], s)) <= ACC_LIMIT as int,
    ensures
        ({
            let r = pair_one(ns, i, j, s);
            r[i].acc - ns[i].acc == -(r[j].acc - ns[j].acc)
        }),
{
}

/// Action equals reaction for horizontal collision avoidance: when two
/// disjoint links overlap, the two facing endpoints receive exactly
/// opposite accumulator changes and every other node is untouched, so
/// the accumulator deltas over all four endpoints sum to zero.
pub proof fn law_hlink_intersect_forces_opposite(ns: Seq<Node>, a: HLink, b: HLink, s: Spring)
    requires
        h_in_bounds(a, ns.len()),
        h_in_bounds(b, ns.len()),
        !shares_node(a, b),
        iabs(h_center(a, ns) - h_center(b, ns)) < tdiv(h_size(a, ns) + h_size(b, ns), 2)
            + SCALE as int,
        forall|k: int|
            0 <= k < ns.len() ==> iabs((#[trigger] ns[k]).acc + hh_force(ns, a, b, s))
                <= ACC_LIMIT as int && iabs(ns[k].acc - hh_force(ns, a, b, s)) <= ACC_LIMIT as int,
    ensures
        ({
            let r = h_intersect(ns, a, b, s);
            let dp = h_center(a, ns) - h_center(b, ns);
            let ta = if dp > 0 {
                h_sorted(a, ns).0
            } else {
                h_sorted(a, ns).1
            };
            let tb = if dp > 0 {
                h_sorted(b, ns).1
            } else {
                h_sorted(b, ns).0
            };
            r[ta as int].acc - ns[ta as int].acc == -(r[tb as int].acc - ns[tb as int].acc)
        }),
        ({
            let r = h_intersect(ns, a, b, s);
            let dp = h_center(a, ns) - h_center(b, ns);
            let ta = if dp > 0 {
                h_sorted(a, ns).0
            } else {
                h_sorted(a, ns).1
            };
            let tb = if dp > 0 {
                h_sorted(b, ns).1
            } else {
                h_sorted(b, ns).0
            };
            forall|k: int|
                0 <= k < ns.len() && k != ta as int && k != tb as int ==> #[trigger] r[k] == ns[k]
        }),
{
    let dp = h_center(a, ns) - h_center(b, ns);
    let f = hh_force(ns, a, b, s);
    let ta = if dp > 0 {
        h_sorted(a, ns).0
    } else {
        h_sorted(a, ns).1
    };
    let tb = if dp > 0 {
        h_sorted(b, ns).1
    } else {
        h_sorted(b, ns).0
    };
    assert(ta != tb);
    let r1 = bump(ns, ta as int, f);
    assert(r1[ta as int].acc == clip(ns[ta as int].acc + f, ACC_LIMIT as int));
    assert(r1[tb as int].acc == ns[tb as int].acc);
}

/// Action equals reaction for vertical collision avoidance: when two
/// vertical links with different parents and distinct bottom nodes sit
/// too close, the two bottom nodes receive exactly opposite changes.
pub proof fn law_vlink_intersect_forces_opposite(
    ns: Seq<Node>,
    hs: Seq<HLink>,
    a: VLink,
    b: VLink,
    s: Spring,
)
    requires
        a.top != b.top,
        a.bottom < ns.len(),
        b.bottom < ns.len(),
        a.bottom != b.bottom,
        ({
            let first = if h_center(hs[a.top as int], ns) < h_center(hs[b.top as int], ns) {
                a
            } else {
                b
            };
            let second = if h_center(hs[a.top as int], ns) < h_center(hs[b.top as int], ns) {
                b
            } else {
                a
            };
            &&& ns[first.bottom as int].pos - ns[second.bottom as int].pos > -(SCALE as int)
            &&& iabs(ns[first.bottom as int].acc + vv_force(ns, first, second, s))
                <= ACC_LIMIT as int
            &&& iabs(ns[second.bottom as int].acc - vv_force(ns, first, second, s))
                <= ACC_LIMIT as int
        }),
    ensures
        ({
            let r = v_intersect(ns, hs, a, b, s);
            r[a.bottom as int].acc - ns[a.bottom as int].acc == -(r[b.bottom as int].acc
                - ns[b.bottom as int].acc)
        }),
{
}

/// The vertical spring's reaction balances the pull on the child: with
/// three distinct nodes involved and away from the accumulator's
/// saturation limits, the two parent-endpoint changes and the child's
/// change sum to exactly zero.
pub proof fn law_vlink_act_balances(ns: Seq<Node>, hs: Seq<HLink>, v: VLink, s: Spring)
    requires
        v_in_bounds(v, hs, ns.len()),
        hs[v.top as int].left != hs[v.top as int].right,
        hs[v.top as int].left != v.bottom,
        hs[v.top as int].right != v.bottom,
        ({
            let f = v_act_force(v, ns, hs, s);
            let t = hs[v.top as int];
            &&& iabs(ns[t.left as int].acc + tdiv(f, 2)) <= ACC_LIMIT as int
            &&& iabs(ns[t.right as int].acc + (f - tdiv(f, 2))) <= ACC_LIMIT as int
            &&& iabs(ns[v.bottom as int].acc - f) <= ACC_LIMIT as int
        }),
    ensures
        ({
            let r = v_act(ns, hs, v, s);
            let t = hs[v.top as int];
            (r[t.left as int].acc - ns[t.left as int].acc) + (r[t.right as int].acc - ns[t.right
                as int].acc) + (r[v.bottom as int].acc - ns[v.bottom as int].acc) == 0
        }),
{
    let f = v_act_force(v, ns, hs, s);
    let t = hs[v.top as int];
    let m1 = bump(ns, t.left as int, tdiv(f, 2));
    let m2 = bump(m1, t.right as int, f - tdiv(f, 2));
    assert(m2[t.left as int].acc == clip(ns[t.left as int].acc + tdiv(f, 2), ACC_LIMIT as int));
    assert(m2[t.right as int].acc == clip(
        ns[t.right as int].acc + (f - tdiv(f, 2)),
        ACC_LIMIT as int,
    ));
    assert(h_apply(ns, t, f) == m2);
}

/// An isolated node pair conserves total momentum through one
/// interaction: away from saturation the accumulators change by exact
/// opposites, so their sum is untouched, and neither velocity nor
/// position moves at all.
pub proof fn law_interact_conserves_momentum(ns: Seq<Node>, i: int, j: int, s: Spring)
    requires
        0 <= i < ns.len(),
        0 <= j < ns.len(),
        i != j,
        iabs(ns[i].acc + node_force(ns[i], ns[j], s)) <= ACC_LIMIT as int,
        iabs(ns[j].acc - node_force(ns[i], ns[j], s)) <= ACC_LIMIT as int,
    ensures
        ({
            let r = pair_one(ns, i, j, s);
            &&& r[i].acc + r[j].acc == ns[i].acc + ns[j].acc
            &&& r[i].vel == ns[i].vel
            &&& r[j].vel == ns[j].vel
            &&& r[i].pos == ns[i].pos
            &&& r[j].pos == ns[j].pos
        }),
{
}

/// A horizontal link with coincident endpoints produces no elastic
/// force: what remains is pure damping, and it is nonzero as soon as the
/// damping product reaches one fixed-point step.
pub proof fn law_coincident_hlink_damps_only(h: HLink, ns: Seq<Node>, s: Spring)
    requires
        h_in_bounds(h, ns.len()),
        ns[h.left as int].pos == ns[h.right as int].pos,
    ensures
        h_act_force(h, ns, s) == -fmul(
            s.frict as int,
            ns[h.left as int].vel - ns[h.right as int].vel,
        ),
        iabs(s.frict as int * (ns[h.left as int].vel - ns[h.right as int].vel)) >= SCALE as int
            ==> h_act_force(h, ns, s) != 0,
{
    let dv = ns[h.left as int].vel - ns[h.right as int].vel;
    assert(clip(0, SCALE as int) == 0);
    assert(fmul(s.elast as int, 0) == 0) by {
        assert(s.elast as int * 0 == 0);
        vstd::arithmetic::div_mod::lemma_div_of0(SCALE as int);
    }
    let p = s.frict as int * dv;
    if iabs(p) >= SCALE as int {
        if p >= 0 {
            lemma_tdiv_at_least_one(p, SCALE as int);
        } else {
            lemma_tdiv_at_least_one(-p, SCALE as int);
        }
    }
}

/// Two horizontal links sharing an endpoint never contribute an
/// intersection force, whatever their geometry.
pub proof fn law_shared_endpoint_no_intersection(ns: Seq<Node>, a: HLink, b: HLink, s: Spring)
    requires
        shares_node(a, b),
    ensures
        h_intersect(ns, a, b, s) == ns,
{
}

/// Two vertical links hanging from the same parent edge never
/// contribute an intersection force.
pub proof fn law_shared_top_no_intersection(
    ns: Seq<Node>,
    hs: Seq<HLink>,
    a: VLink,
    b: VLink,
    s: Spring,
)
    requires
        a.top == b.top,
    ensures
        v_intersect(ns, hs, a, b, s) == ns,
{
}

/// `b` differs from `a` at most in the force accumulators: same length,
/// and every node keeps its identity, layer, position and velocity.
pub open spec fn acc_only(a: Seq<Node>, b: Seq<Node>) -> bool {
    &&& a.len() == b.len()
    &&& forall|i: int|
        0 <= i < a.len() ==> (#[trigger] b[i]).id == a[i].id && b[i].layer == a[i].layer && b[i].pos
            == a[i].pos && b[i].vel == a[i].vel
}

proof fn lemma_acc_only_trans(a: Seq<Node>, b: Seq<Node>, c: Seq<Node>)
    requires
        acc_only(a, b),
        acc_only(b, c),
    ensures
        acc_only(a, c),
{
}

proof fn lemma_bump_acc_only(ns: Seq<Node>, i: int, d: int)
    requires
        0 <= i < ns.len(),
    ensures
        acc_only(ns, bump(ns, i, d)),
{
}

proof fn lemma_pair_from_acc_only(ns: Seq<Node>, i: usize, rest: Seq<usize>, s: Spring)
    requires
        (i as int) < ns.len(),
        forall|k: int| 0 <= k < rest.len() ==> ((#[trigger] rest[k]) as int) < ns.len(),
    ensures
        acc_only(ns, pair_from(ns, i, rest, s)),
    decreases rest.len(),
{
    if rest.len() > 0 {
        let m = pair_one(ns, i as int, rest[0] as int, s);
        lemma_bump_acc_only(ns, i as int, node_force(ns[i as int], ns[rest[0] as int], s));
        assert(acc_only(ns, m));
        assert(forall|k: int|
            0 <= k < rest.drop_first().len() ==> ((#[trigger] rest.drop_first()[k]) as int)
                < m.len()) by {
            assert(forall|k: int|
                0 <= k < rest.drop_first().len() ==> rest.drop_first()[k] == rest[k + 1]);
        }
        lemma_pair_from_acc_only(m, i, rest.drop_first(), s);
        lemma_acc_only_trans(ns, m, pair_from(m, i, rest.drop_first(), s));
    }
}

proof fn lemma_pair_sweep_acc_only(ns: Seq<Node>, g: Seq<usize>, s: Spring)
    requires
        forall|k: int| 0 <= k < g.len() ==> ((#[trigger] g[k]) as int) < ns.len(),
    ensures
        acc_only(ns, pair_sweep(ns, g, s)),
    decreases g.len(),
{
    if g.len() > 0 {
        assert(forall|k: int|
            0 <= k < g.drop_first().len() ==> ((#[trigger] g.drop_first()[k]) as int) < ns.len())
            by {
            assert(forall|k: int|
                0 <= k < g.drop_first().len() ==> g.drop_first()[k] == g[k + 1]);
        }
        let m = pair_from(ns, g[0], g.drop_first(), s);
        lemma_pair_from_acc_only(ns, g[0], g.drop_first(), s);
        lemma_pair_sweep_acc_only(m, g.drop_first(), s);
        lemma_acc_only_trans(ns, m, pair_sweep(m, g.drop_first(), s));
    }
}

proof fn lemma_pair_levels_acc_only(ns: Seq<Node>, gs: Seq<Seq<usize>>, s: Spring)
    requires
        groups_in_bounds(gs, ns.len()),
    ensures
        acc_only(ns, pair_levels(ns, gs, s)),
    decreases gs.len(),
{
    if gs.len() > 0 {
        assert(forall|k: int| 0 <= k < gs[0].len() ==> ((#[trigger] gs[0][k]) as int) < ns.len());
        let m = pair_sweep(ns, gs[0], s);
        lemma_pair_sweep_acc_only(ns, gs[0], s);
        assert(groups_in_bounds(gs.drop_first(), m.len())) by {
            assert(forall|a: int, b: int|
                #![trigger gs.drop_first()[a][b]]
                0 <= a < gs.drop_first().len() && 0 <= b < gs.drop_first()[a].len()
                    ==> gs.drop_first()[a][b] == gs[a + 1][b]);
        }
        lemma_pair_levels_acc_only(m, gs.drop_first(), s);
        lemma_acc_only_trans(ns, m, pair_levels(m, gs.drop_first(), s));
    }
}

proof fn lemma_h_act_acc_only(ns: Seq<Node>, h: HLink, s: Spring)
    requires
        h_in_bounds(h, ns.len()),
    ensures
        acc_only(ns, h_act(ns, h, s)),
{
    let f = h_act_force(h, ns, s);
    let m = bump(ns, h.left as int, f);
    lemma_bump_acc_only(ns, h.left as int, f);
    lemma_bump_acc_only(m, h.right as int, -f);
    lemma_acc_only_trans(ns, m, bump(m, h.right as int, -f));
}

proof fn lemma_h_act_all_acc_only(ns: Seq<Node>, hs: Seq<HLink>, s: Spring)
    requires
        forall|k: int| 0 <= k < hs.len() ==> h_in_bounds(#[trigger] hs[k], ns.len()),
    ensures
        acc_only(ns, h_act_all(ns, hs, s)),
    decreases hs.len(),
{
    if hs.len() > 0 {
        let m = h_act(ns, hs[0], s);
        lemma_h_act_acc_only(ns, hs[0], s);
        assert(forall|k: int|
            0 <= k < hs.drop_first().len() ==> h_in_bounds(#[trigger] hs.drop_first()[k], m.len()))
            by {
            assert(forall|k: int|
                0 <= k < hs.drop_first().len() ==> hs.drop_first()[k] == hs[k + 1]);
        }
        lemma_h_act_all_acc_only(m, hs.drop_first(), s);
        lemma_acc_only_trans(ns, m, h_act_all(m, hs.drop_first(), s));
    }
}

proof fn lemma_v_act_acc_only(ns: Seq<Node>, hs: Seq<HLink>, v: VLink, s: Spring)
    requires
        v_in_bounds(v, hs, ns.len()),
    ensures
        acc_only(ns, v_act(ns, hs, v, s)),
{
    let f = crate::model::v_act_force(v, ns, hs, s);
    let t = hs[v.top as int];
    let m1 = bump(ns, t.left as int, tdiv(f, 2));
    let m2 = bump(m1, t.right as int, f - tdiv(f, 2));
    lemma_bump_acc_only(ns, t.left as int, tdiv(f, 2));
    lemma_bump_acc_only(m1, t.right as int, f - tdiv(f, 2));
    lemma_bump_acc_only(m2, v.bottom as int, -f);
    lemma_acc_only_trans(ns, m1, m2);
    lemma_acc_only_trans(ns, m2, bump(m2, v.bottom as int, -f));
    assert(h_apply(ns, t, f) == m2);
}

proof fn lemma_v_act_all_acc_only(ns: Seq<Node>, hs: Seq<HLink>, vs: Seq<VLink>, s: Spring)
    requires
        forall|k: int| 0 <= k < vs.len() ==> v_in_bounds(#[trigger] vs[k], hs, ns.len()),
    ensures
        acc_only(ns, v_act_all(ns, hs, vs, s)),
    decreases vs.len(),
{
    if vs.len() > 0 {
        let m = v_act(ns, hs, vs[0], s);
        lemma_v_act_acc_only(ns, hs, vs[0], s);
        assert(forall|k: int|
            0 <= k < vs.drop_first().len() ==> v_in_bounds(
                #[trigger] vs.drop_first()[k],
                hs,
                m.len(),
            )) by {
            assert(forall|k: int|
                0 <= k < vs.drop_first().len() ==> vs.drop_first()[k] == vs[k + 1]);
        }
        lemma_v_act_all_acc_only(m, hs, vs.drop_first(), s);
        lemma_acc_only_trans(ns, m, v_act_all(m, hs, vs.drop_first(), s));
    }
}

proof fn lemma_h_intersect_acc_only(ns: Seq<Node>, a: HLink, b: HLink, s: Spring)
    requires
        h_in_bounds(a, ns.len()),
        h_in_bounds(b, ns.len()),
    ensures
        acc_only(ns, h_intersect(ns, a, b, s)),
{
    if !shares_node(a, b) {
        let dp = h_center(a, ns) - h_center(b, ns);
        let l = iabs(dp);
        let r = tdiv(h_size(a, ns) + h_size(b, ns), 2) + SCALE as int;
        if l < r {
            let f = hh_force(ns, a, b, s);
            let ta = if dp > 0 {
                h_sorted(a, ns).0
            } else {
                h_sorted(a, ns).1
            };
            let tb = if dp > 0 {
                h_sorted(b, ns).1
            } else {
                h_sorted(b, ns).0
            };
            let m = bump(ns, ta as int, f);
            lemma_bump_acc_only(ns, ta as int, f);
            lemma_bump_acc_only(m, tb as int, -f);
            lemma_acc_only_trans(ns, m, bump(m, tb as int, -f));
        }
    }
}

proof fn lemma_hh_from_acc_only(ns: Seq<Node>, hs: Seq<HLink>, i: usize, rest: Seq<usize>, s: Spring)
    requires
        forall|k: int| 0 <= k < hs.len() ==> h_in_bounds(#[trigger] hs[k], ns.len()),
        (i as int) < hs.len(),
        forall|k: int| 0 <= k < rest.len() ==> ((#[trigger] rest[k]) as int) < hs.len(),
    ensures
        acc_only(ns, hh_from(ns, hs, i, rest, s)),
    decreases rest.len(),
{
    if rest.len() > 0 {
        let m = h_intersect(ns, hs[i as int], hs[rest[0] as int], s);
        lemma_h_intersect_acc_only(ns, hs[i as int], hs[rest[0] as int], s);
        assert(forall|k: int| 0 <= k < hs.len() ==> h_in_bounds(#[trigger] hs[k], m.len()));
        assert(forall|k: int|
            0 <= k < rest.drop_first().len() ==> ((#[trigger] rest.drop_first()[k]) as int)
                < hs.len()) by {
            assert(forall|k: int|
                0 <= k < rest.drop_first().len() ==> rest.drop_first()[k] == rest[k + 1]);
        }
        lemma_hh_from_acc_only(m, hs, i, rest.drop_first(), s);
        lemma_acc_only_trans(ns, m, hh_from(m, hs, i, rest.drop_first(), s));
    }
}

proof fn lemma_hh_sweep_acc_only(ns: Seq<Node>, hs: Seq<HLink>, g: Seq<usize>, s: Spring)
    requires
        forall|k: int| 0 <= k < hs.len() ==> h_in_bounds(#[trigger] hs[k], ns.len()),
        forall|k: int| 0 <= k < g.len() ==> ((#[trigger] g[k]) as int) < hs.len(),
    ensures
        acc_only(ns, hh_sweep(ns, hs, g, s)),
    decreases g.len(),
{
    if g.len() > 0 {
        assert(forall|k: int|
            0 <= k < g.drop_first().len() ==> ((#[trigger] g.drop_first()[k]) as int) < hs.len())
            by {
            assert(forall|k: int|
                0 <= k < g.drop_first().len() ==> g.drop_first()[k] == g[k + 1]);
        }
        let m = hh_from(ns, hs, g[0], g.drop_first(), s);
        lemma_hh_from_acc_only(ns, hs, g[0], g.drop_first(), s);
        assert(forall|k: int| 0 <= k < hs.len() ==> h_in_bounds(#[trigger] hs[k], m.len()));
        lemma_hh_sweep_acc_only(m, hs, g.drop_first(), s);
        lemma_acc_only_trans(ns, m, hh_sweep(m, hs, g.drop_first(), s));
    }
}

proof fn lemma_hh_levels_acc_only(ns: Seq<Node>, hs: Seq<HLink>, gs: Seq<Seq<usize>>, s: Spring)
    requires
        forall|k: int| 0 <= k < hs.len() ==> h_in_bounds(#[trigger] hs[k], ns.len()),
        groups_in_bounds(gs, hs.len()),
    ensures
        acc_only(ns, hh_levels(ns, hs, gs, s)),
    decreases gs.len(),
{
    if gs.len() > 0 {
        assert(forall|k: int| 0 <= k < gs[0].len() ==> ((#[trigger] gs[0][k]) as int) < hs.len());
        let m = hh_sweep(ns, hs, gs[0], s);
        lemma_hh_sweep_acc_only(ns, hs, gs[0], s);
        assert(forall|k: int| 0 <= k < hs.len() ==> h_in_bounds(#[trigger] hs[k], m.len()));
        assert(groups_in_bounds(gs.drop_first(), hs.len())) by {
            assert(forall|a: int, b: int|
                #![trigger gs.drop_first()[a][b]]
                0 <= a < gs.drop_first().len() && 0 <= b < gs.drop_first()[a].len()
                    ==> gs.drop_first()[a][b] == gs[a + 1][b]);
        }
        lemma_hh_levels_acc_only(m, hs, gs.drop_first(), s);
        lemma_acc_only_trans(ns, m, hh_levels(m, hs, gs.drop_first(), s));
    }
}

proof fn lemma_v_intersect_acc_only(ns: Seq<Node>, hs: Seq<HLink>, a: VLink, b: VLink, s: Spring)
    requires
        (a.bottom as int) < ns.len(),
        (b.bottom as int) < ns.len(),
    ensures
        acc_only(ns, v_intersect(ns, hs, a, b, s)),
{
    if a.top != b.top {
        let first = if h_center(hs[a.top as int], ns) < h_center(hs[b.top as int], ns) {
            a
        } else {
            b
        };
        let second = if h_center(hs[a.top as int], ns) < h_center(hs[b.top as int], ns) {
            b
        } else {
            a
        };
        let dp = ns[first.bottom as int].pos - ns[second.bottom as int].pos;
        if dp > -(SCALE as int) {
            let f = vv_force(ns, first, second, s);
            let m = bump(ns, first.bottom as int, f);
            lemma_bump_acc_only(ns, first.bottom as int, f);
            lemma_bump_acc_only(m, second.bottom as int, -f);
            lemma_acc_only_trans(ns, m, bump(m, second.bottom as int, -f));
        }
    }
}

proof fn lemma_vv_from_acc_only(
    ns: Seq<Node>,
    hs: Seq<HLink>,
    vs: Seq<VLink>,
    i: usize,
    rest: Seq<usize>,
    s: Spring,
)
    requires
        forall|k: int| 0 <= k < vs.len() ==> v_in_bounds(#[trigger] vs[k], hs, ns.len()),
        (i as int) < vs.len(),
        forall|k: int| 0 <= k < rest.len() ==> ((#[trigger] rest[k]) as int) < vs.len(),
    ensures
        acc_only(ns, vv_from(ns, hs, vs, i, rest, s)),
    decreases rest.len(),
{
    if rest.len() > 0 {
        let m = v_intersect(ns, hs, vs[i as int], vs[rest[0] as int], s);
        lemma_v_intersect_acc_only(ns, hs, vs[i as int], vs[rest[0] as int], s);
        assert(forall|k: int| 0 <= k < vs.len() ==> v_in_bounds(#[trigger] vs[k], hs, m.len()));
        assert(forall|k: int|
            0 <= k < rest.drop_first().len() ==> ((#[trigger] rest.drop_first()[k]) as int)
                < vs.len()) by {
            assert(forall|k: int|
                0 <= k < rest.drop_first().len() ==> rest.drop_first()[k] == rest[k + 1]);
        }
        lemma_vv_from_acc_only(m, hs, vs, i, rest.drop_first(), s);
        lemma_acc_only_trans(ns, m, vv_from(m, hs, vs, i, rest.drop_first(), s));
    }
}

proof fn lemma_vv_sweep_acc_only(
    ns: Seq<Node>,
    hs: Seq<HLink>,
    vs: Seq<VLink>,
    g: Seq<usize>,
    s: Spring,
)
    requires
        forall|k: int| 0 <= k < vs.len() ==> v_in_bounds(#[trigger] vs[k], hs, ns.len()),
        forall|k: int| 0 <= k < g.len() ==> ((#[trigger] g[k]) as int) < vs.len(),
    ensures
        acc_only(ns, vv_sweep(ns, hs, vs, g, s)),
    decreases g.len(),
{
    if g.len() > 0 {
        assert(forall|k: int|
            0 <= k < g.drop_first().len() ==> ((#[trigger] g.drop_first()[k]) as int) < vs.len())
            by {
            assert(forall|k: int|
                0 <= k < g.drop_first().len() ==> g.drop_first()[k] == g[k + 1]);
        }
        let m = vv_from(ns, hs, vs, g[0], g.drop_first(), s);
        lemma_vv_from_acc_only(ns, hs, vs, g[0], g.drop_first(), s);
        assert(forall|k: int| 0 <= k < vs.len() ==> v_in_bounds(#[trigger] vs[k], hs, m.len()));
        lemma_vv_sweep_acc_only(m, hs, vs, g.drop_first(), s);
        lemma_acc_only_trans(ns, m, vv_sweep(m, hs, vs, g.drop_first(), s));
    }
}

proof fn lemma_vv_levels_acc_only(
    ns: Seq<Node>,
    hs: Seq<HLink>,
    vs: Seq<VLink>,
    gs: Seq<Seq<usize>>,
    s: Spring,
)
    requires
        forall|k: int| 0 <= k < vs.len() ==> v_in_bounds(#[trigger] vs[k], hs, ns.len()),
        groups_in_bounds(gs, vs.len()),
    ensures
        acc_only(ns, vv_levels(ns, hs, vs, gs, s)),
    decreases gs.len(),
{
    if gs.len() > 0 {
        assert(forall|k: int| 0 <= k < gs[0].len() ==> ((#[trigger] gs[0][k]) as int) < vs.len());
        let m = vv_sweep(ns, hs, vs, gs[0], s);
        lemma_vv_sweep_acc_only(ns, hs, vs, gs[0], s);
        assert(forall|k: int| 0 <= k < vs.len() ==> v_in_bounds(#[trigger] vs[k], hs, m.len()));
        assert(groups_in_bounds(gs.drop_first(), vs.len())) by {
            assert(forall|a: int, b: int|
                #![trigger gs.drop_first()[a][b]]
                0 <= a < gs.drop_first().len() && 0 <= b < gs.drop_first()[a].len()
                    ==> gs.drop_first()[a][b] == gs[a + 1][b]);
        }
        lemma_vv_levels_acc_only(m, hs, vs, gs.drop_first(), s);
        lemma_acc_only_trans(ns, m, vv_levels(m, hs, vs, gs.drop_first(), s));
    }
}

/// A force-compute pass works from one frozen kinematic snapshot and
/// writes only the force accumulators: every position, velocity,
/// identity and layer comes through a pass unchanged.
pub proof fn law_pass_touches_only_accumulators(
    ns: Seq<Node>,
    gs_nodes: Seq<Seq<usize>>,
    hs: Seq<HLink>,
    vs: Seq<VLink>,
    gs_h: Seq<Seq<usize>>,
    gs_v: Seq<Seq<usize>>,
)
    requires
        groups_in_bounds(gs_nodes, ns.len()),
        forall|k: int| 0 <= k < hs.len() ==> h_in_bounds(#[trigger] hs[k], ns.len()),
        forall|k: int| 0 <= k < vs.len() ==> v_in_bounds(#[trigger] vs[k], hs, ns.len()),
        groups_in_bounds(gs_h, hs.len()),
        groups_in_bounds(gs_v, vs.len()),
    ensures
        acc_only(ns, pass(ns, gs_nodes, hs, vs, gs_h, gs_v)),
{
    let p = crate::model::profile_spec();
    let a = drag_all(ns, p.visc as int);
    assert(acc_only(ns, a)) by {
        assert(forall|i: int| 0 <= i < ns.len() ==> a[i] == dragged(#[trigger] ns[i], p.visc as int));
    }
    let b = pair_levels(a, gs_nodes, p.node);
    lemma_pair_levels_acc_only(a, gs_nodes, p.node);
    let c = h_act_all(b, hs, p.hor);
    lemma_h_act_all_acc_only(b, hs, p.hor);
    let d = v_act_all(c, hs, vs, p.ver);
    lemma_v_act_all_acc_only(c, hs, vs, p.ver);
    let e = hh_levels(d, hs, gs_h, p.hor_inter);
    lemma_hh_levels_acc_only(d, hs, gs_h, p.hor_inter);
    let f = vv_levels(e, hs, vs, gs_v, p.ver_inter);
    lemma_vv_levels_acc_only(e, hs, vs, gs_v, p.ver_inter);
    lemma_acc_only_trans(ns, a, b);
    lemma_acc_only_trans(ns, b, c);
    lemma_acc_only_trans(ns, c, d);
    lemma_acc_only_trans(ns, d, e);
    lemma_acc_only_trans(ns, e, f);
}

/// In a constant-force regime, where all four Runge-Kutta samples agree,
/// the fourth-order combination collapses to the single sample: the step
/// matches one Euler step.
pub proof fn law_constant_samples_reduce_to_euler(k: int)
    ensures
        combine6(k, k, k, k) == k,
{
    assert(k + 2 * k + 2 * k + k == 6 * k);
    lemma_tdiv_exact(k, 6);
}

} // verus!

