//! Entities of the kernel and the force laws acting on them.
//!
//! Nodes live in one arena (a vector); links address their endpoints by
//! index into that arena, so the "same endpoint" test is plain index
//! equality. Every force application is expressed through `bump`, which
//! adds a contribution into one node's accumulator, saturating at the
//! working range `ACC_LIMIT`.

use vstd::prelude::*;
use crate::num::{
    ACC_LIMIT, COEFF_LIMIT, DT_LIMIT, POS_LIMIT, SCALE, VEL_LIMIT, clip, clip64, fmul, half64,
    iabs, imin, lemma_abs_mul_bound, lemma_fmul_bound, scaled_mul, sign_of, tdiv,
};

verus! {

/// Elastic and damping coefficients of one interaction kind (fixed point).
#[derive(Clone, Copy, Debug)]
pub struct Spring {
    pub elast: i64,
    pub frict: i64,
}

impl Spring {
    /// Coefficients are nonnegative and within the working range.
    pub open spec fn wf(self) -> bool {
        0 <= self.elast <= COEFF_LIMIT && 0 <= self.frict <= COEFF_LIMIT
    }

    pub fn new(elast: i64, frict: i64) -> (s: Spring)
        requires
            0 <= elast <= COEFF_LIMIT,
            0 <= frict <= COEFF_LIMIT,
        ensures
            s == (Spring { elast, frict }),
            s.wf(),
    {
        Spring { elast, frict }
    }
}

/// The coefficients of every interaction kind, plus global viscosity.
#[derive(Clone, Copy, Debug)]
pub struct ForceProfile {
    pub visc: i64,
    pub node: Spring,
    pub hor: Spring,
    pub ver: Spring,
    pub hor_inter: Spring,
    pub ver_inter: Spring,
}

impl ForceProfile {
    pub open spec fn wf(self) -> bool {
        &&& 0 <= self.visc <= COEFF_LIMIT
        &&& self.node.wf()
        &&& self.hor.wf()
        &&& self.ver.wf()
        &&& self.hor_inter.wf()
        &&& self.ver_inter.wf()
    }
}

/// The tuned coefficients the solver integrates with.
pub open spec fn profile_spec() -> ForceProfile {
    ForceProfile {
        visc: 100_000,
        node: Spring { elast: 8_000_000, frict: 4_000_000 },
        hor: Spring { elast: 2_000_000, frict: 1_000_000 },
        ver: Spring { elast: 1_000_000, frict: 500_000 },
        hor_inter: Spring { elast: 20_000_000, frict: 10_000_000 },
        ver_inter: Spring { elast: 20_000_000, frict: 10_000_000 },
    }
}

/// The tuned coefficients, executable form.
pub fn profile() -> (p: ForceProfile)
    ensures
        p == profile_spec(),
        p.wf(),
{
    ForceProfile {
        visc: 100_000,
        node: Spring { elast: 8_000_000, frict: 4_000_000 },
        hor: Spring { elast: 2_000_000, frict: 1_000_000 },
        ver: Spring { elast: 1_000_000, frict: 500_000 },
        hor_inter: Spring { elast: 20_000_000, frict: 10_000_000 },
        ver_inter: Spring { elast: 20_000_000, frict: 10_000_000 },
    }
}

/// A point mass: identity, kinematic state, and its layer tag.
#[derive(Clone, Copy, Debug, PartialEq, Eq, Structural)]
pub struct Node {
    pub id: u64,
    pub pos: i64,
    pub vel: i64,
    pub acc: i64,
    pub layer: i64,
}

impl Node {
    /// The kinematic state sits inside the working ranges.
    pub open spec fn wf(self) -> bool {
        &&& iabs(self.pos as int) <= POS_LIMIT
        &&& iabs(self.vel as int) <= VEL_LIMIT
        &&& iabs(self.acc as int) <= ACC_LIMIT
    }

    /// A fresh node: at rest at `pos` on `layer`.
    pub fn new(id: u64, pos: i64, layer: i64) -> (n: Node)
        requires
            iabs(pos as int) <= POS_LIMIT,
        ensures
            n == (Node { id, pos, vel: 0i64, acc: 0i64, layer }),
            n.wf(),
    {
        Node { id, pos, vel: 0, acc: 0, layer }
    }

    /// Add a contribution into the force accumulator, saturating at the
    /// working range.
    pub fn apply_force(&mut self, f: i64)
        ensures
            *final(self) == (Node {
                acc: clip(old(self).acc + f, ACC_LIMIT as int) as i64,
                ..*old(self)
            }),
    {
        let s: i128 = self.acc as i128 + f as i128;
        let lim: i128 = ACC_LIMIT as i128;
        let c: i128 = if s > lim {
            lim
        } else if s < -lim {
            -lim
        } else {
            s
        };
        self.acc = c as i64;
    }

    /// Reset the force accumulator to zero.
    pub fn clear(&mut self)
        ensures
            *final(self) == (Node { acc: 0i64, ..*old(self) }),
    {
        self.acc = 0;
    }

    /// Seed the accumulator with linear viscous drag, `-vel * visc`.
    pub fn frict(&mut self, visc: i64)
        requires
            0 <= visc <= COEFF_LIMIT,
            iabs(old(self).vel as int) <= VEL_LIMIT,
        ensures
            *final(self) == (Node {
                acc: (-fmul(visc as int, old(self).vel as int)) as i64,
                ..*old(self)
            }),
            iabs(final(self).acc as int) <= COEFF_LIMIT,
    {
        proof {
            lemma_abs_mul_bound(visc as int, self.vel as int, COEFF_LIMIT as int, VEL_LIMIT as int);
            lemma_fmul_bound(visc as int, self.vel as int, COEFF_LIMIT as int);
        }
        let d = scaled_mul(visc, self.vel);
        self.acc = -d;
    }

    /// One semi-implicit advance by `dt`: acceleration into velocity
    /// (clamped to `VEL_LIMIT`), then the new velocity into position
    /// (clamped to `POS_LIMIT`).
    pub fn step(&mut self, dt: i64)
        requires
            0 <= dt <= DT_LIMIT,
            old(self).wf(),
        ensures
            *final(self) == step_node(*old(self), dt as int),
            final(self).wf(),
    {
        proof {
            lemma_abs_mul_bound(self.acc as int, dt as int, ACC_LIMIT as int, DT_LIMIT as int);
        }
        let adt: i128 = (self.acc as i128) * (dt as i128);
        let dv: i128 = adt / (SCALE as i128);
        let vraw: i128 = self.vel as i128 + dv;
        let vlim: i128 = VEL_LIMIT as i128;
        let v: i128 = if vraw > vlim {
            vlim
        } else if vraw < -vlim {
            -vlim
        } else {
            vraw
        };
        self.vel = v as i64;
        proof {
            lemma_abs_mul_bound(v as int, dt as int, VEL_LIMIT as int, DT_LIMIT as int);
        }
        let vdt: i128 = v * (dt as i128);
        let dp: i128 = vdt / (SCALE as i128);
        let praw: i128 = self.pos as i128 + dp;
        let plim: i128 = POS_LIMIT as i128;
        let p: i128 = if praw > plim {
            plim
        } else if praw < -plim {
            -plim
        } else {
            praw
        };
        self.pos = p as i64;
    }

    /// The position report record for this node: identity and position.
    pub fn sync(&self) -> (r: (u64, i64))
        ensures
            r == (self.id, self.pos),
    {
        (self.id, self.pos)
    }

    /// Mutual short-range repulsion: the pair force is applied to `self`
    /// and its exact opposite to `other`.
    pub fn interact(&mut self, other: &mut Node, s: &Spring)
        requires
            old(self).wf(),
            old(other).wf(),
            s.wf(),
        ensures
            ({
                let f = node_force(*old(self), *old(other), *s);
                &&& *final(self) == (Node {
                    acc: clip(old(self).acc + f, ACC_LIMIT as int) as i64,
                    ..*old(self)
                })
                &&& *final(other) == (Node {
                    acc: clip(old(other).acc - f, ACC_LIMIT as int) as i64,
                    ..*old(other)
                })
            }),
            final(self).wf(),
            final(other).wf(),
    {
        let dp = self.pos - other.pos;
        let dv = self.vel - other.vel;
        let l = if dp >= 0 {
            dp
        } else {
            -dp
        };
        let f: i64;
        if l < SCALE {
            let gap0 = 4 * (SCALE - l);
            let gap = if gap0 < SCALE {
                gap0
            } else {
                SCALE
            };
            proof {
                lemma_abs_mul_bound(s.elast as int, gap as int, COEFF_LIMIT as int, SCALE as int);
                lemma_fmul_bound(s.elast as int, gap as int, COEFF_LIMIT as int);
                lemma_abs_mul_bound(
                    s.frict as int,
                    dv as int,
                    COEFF_LIMIT as int,
                    2 * VEL_LIMIT as int,
                );
                lemma_fmul_bound(s.frict as int, dv as int, 2 * COEFF_LIMIT as int);
            }
            let e = scaled_mul(s.elast, gap);
            let fe = if dp > 0 {
                e
            } else if dp < 0 {
                -e
            } else {
                0
            };
            let ff = scaled_mul(s.frict, dv);
            f = fe - ff;
        } else {
            f = 0;
        }
        self.apply_force(f);
        other.apply_force(-f);
    }
}

/// Short-range same-layer repulsion: the force applied to `a` out of the
/// pair `(a, b)`; `b` receives its opposite. Zero at separation `SCALE`
/// (one length unit) or more, whatever the velocities.
pub open spec fn node_force(a: Node, b: Node, s: Spring) -> int {
    let dp = a.pos - b.pos;
    let dv = a.vel - b.vel;
    let l = iabs(dp);
    if l < SCALE as int {
        let gap = imin(4 * (SCALE as int - l), SCALE as int);
        sign_of(dp) * fmul(s.elast as int, gap) - fmul(s.frict as int, dv)
    } else {
        0
    }
}

/// The pair force stays well within the accumulator's working range.
pub proof fn lemma_node_force_bound(a: Node, b: Node, s: Spring)
    requires
        a.wf(),
        b.wf(),
        s.wf(),
    ensures
        iabs(node_force(a, b, s)) <= 3_000_000_000_000,
{
    let dp = a.pos - b.pos;
    let dv = a.vel - b.vel;
    let l = iabs(dp);
    if l < SCALE as int {
        let gap = imin(4 * (SCALE as int - l), SCALE as int);
        lemma_abs_mul_bound(s.elast as int, gap, COEFF_LIMIT as int, SCALE as int);
        lemma_fmul_bound(s.elast as int, gap, COEFF_LIMIT as int);
        lemma_abs_mul_bound(s.frict as int, dv, COEFF_LIMIT as int, 2 * VEL_LIMIT as int);
        lemma_fmul_bound(s.frict as int, dv, 2 * COEFF_LIMIT as int);
    }
}

/// `n` advanced by `dt`: the integrator's single sub-step.
pub open spec fn step_node(n: Node, dt: int) -> Node {
    let v = clip(n.vel + tdiv(n.acc * dt, SCALE as int), VEL_LIMIT as int);
    let p = clip(n.pos + tdiv(v * dt, SCALE as int), POS_LIMIT as int);
    Node { pos: p as i64, vel: v as i64, ..n }
}

/// Every node of the arena is within the working ranges.
pub open spec fn wf_nodes(ns: Seq<Node>) -> bool {
    forall|i: int| 0 <= i < ns.len() ==> (#[trigger] ns[i]).wf()
}

/// `ns` with contribution `d` added (saturating) into node `i`'s
/// accumulator.
pub open spec fn bump(ns: Seq<Node>, i: int, d: int) -> Seq<Node> {
    ns.update(i, Node { acc: clip(ns[i].acc + d, ACC_LIMIT as int) as i64, ..ns[i] })
}

/// Add `d` into node `i`'s accumulator within the arena.
pub fn bump_node(nodes: &mut Vec<Node>, i: usize, d: i64)
    requires
        i < old(nodes).len(),
    ensures
        final(nodes)@ == bump(old(nodes)@, i as int, d as int),
        wf_nodes(old(nodes)@) ==> wf_nodes(final(nodes)@),
{
    let mut n = nodes[i];
    n.apply_force(d);
    nodes.set(i, n);
    proof {
        assert(nodes@ =~= bump(old(nodes)@, i as int, d as int));
    }
}

/// A horizontal spring-damper between two same-layer nodes, by arena index.
#[derive(Clone, Copy, Debug, PartialEq, Eq, Structural)]
pub struct HLink {
    pub left: usize,
    pub right: usize,
}

/// Both endpoints of `h` lie inside an arena of `n` nodes.
pub open spec fn h_in_bounds(h: HLink, n: nat) -> bool {
    h.left < n && h.right < n
}

/// Midpoint of the link's endpoints.
pub open spec fn h_center(h: HLink, ns: Seq<Node>) -> int {
    tdiv(ns[h.left as int].pos + ns[h.right as int].pos, 2)
}

/// Span between the link's endpoints.
pub open spec fn h_size(h: HLink, ns: Seq<Node>) -> int {
    iabs(ns[h.left as int].pos - ns[h.right as int].pos)
}

/// Mean velocity of the link's endpoints.
pub open spec fn h_speed(h: HLink, ns: Seq<Node>) -> int {
    tdiv(ns[h.left as int].vel + ns[h.right as int].vel, 2)
}

/// The two links share at least one endpoint node.
pub open spec fn shares_node(a: HLink, b: HLink) -> bool {
    a.left == b.left || a.left == b.right || a.right == b.left || a.right == b.right
}

/// The link's endpoints ordered by position, left-most first; ties keep
/// the stored order.
pub open spec fn h_sorted(h: HLink, ns: Seq<Node>) -> (usize, usize) {
    if ns[h.left as int].pos <= ns[h.right as int].pos {
        (h.left, h.right)
    } else {
        (h.right, h.left)
    }
}

/// `ns` after splitting `f` onto both endpoints of `h`, left first: the
/// left endpoint takes the truncated half, the right endpoint the rest,
/// so that together they receive exactly `f`.
pub open spec fn h_apply(ns: Seq<Node>, h: HLink, f: int) -> Seq<Node> {
    bump(bump(ns, h.left as int, tdiv(f, 2)), h.right as int, f - tdiv(f, 2))
}

/// The spring-damper force applied to the left endpoint of `h`; the right
/// endpoint receives its opposite. The separation is clamped to one unit,
/// bounding the elastic term.
pub open spec fn h_act_force(h: HLink, ns: Seq<Node>, s: Spring) -> int {
    let dp = ns[h.left as int].pos - ns[h.right as int].pos;
    let dv = ns[h.left as int].vel - ns[h.right as int].vel;
    fmul(s.elast as int, -clip(dp, SCALE as int)) - fmul(s.frict as int, dv)
}

/// `ns` after the spring of `h` acts on its endpoints.
pub open spec fn h_act(ns: Seq<Node>, h: HLink, s: Spring) -> Seq<Node> {
    let f = h_act_force(h, ns, s);
    bump(bump(ns, h.left as int, f), h.right as int, -f)
}

/// The repulsion applied between two overlapping horizontal links: a
/// push proportional to the penetration depth, minus damping on the
/// links' mean-velocity difference.
pub open spec fn hh_force(ns: Seq<Node>, a: HLink, b: HLink, s: Spring) -> int {
    let dp = h_center(a, ns) - h_center(b, ns);
    let l = iabs(dp);
    let r = tdiv(h_size(a, ns) + h_size(b, ns), 2) + SCALE as int;
    let dv = h_speed(a, ns) - h_speed(b, ns);
    sign_of(dp) * fmul(s.elast as int, r - l) - fmul(s.frict as int, dv)
}

/// `ns` after collision avoidance between two horizontal links. Links
/// sharing an endpoint are skipped outright. Otherwise, when the centers
/// sit closer than half the summed spans plus one unit of padding, a
/// repulsion acts only on the two facing endpoints: of each link, the one
/// nearer the opposing link.
pub open spec fn h_intersect(ns: Seq<Node>, a: HLink, b: HLink, s: Spring) -> Seq<Node> {
    if shares_node(a, b) {
        ns
    } else {
        let dp = h_center(a, ns) - h_center(b, ns);
        let l = iabs(dp);
        let r = tdiv(h_size(a, ns) + h_size(b, ns), 2) + SCALE as int;
        if l < r {
            let f = hh_force(ns, a, b, s);
            let ta = if dp > 0 {
                h_sorted(a, ns).0
            } else {
                h_sorted(a, ns).1
            };
            let tb = if dp > 0 {
                h_sorted(b, ns).1
            } else {
                h_sorted(b, ns).0
            };
            bump(bump(ns, ta as int, f), tb as int, -f)
        } else {
            ns
        }
    }
}

impl HLink {
    pub fn new(left: usize, right: usize) -> (h: HLink)
        ensures
            h == (HLink { left, right }),
    {
        HLink { left, right }
    }

    /// Split `f` onto both endpoints, the two shares adding up to
    /// exactly `f`.
    pub fn apply_force(&self, nodes: &mut Vec<Node>, f: i64)
        requires
            h_in_bounds(*self, old(nodes)@.len()),
        ensures
            final(nodes)@ == h_apply(old(nodes)@, *self, f as int),
            wf_nodes(old(nodes)@) ==> wf_nodes(final(nodes)@),
    {
        let half = half64(f);
        proof {
            crate::num::lemma_tdiv_bound(f as int, 2, iabs(f as int));
            if f >= 0 {
                vstd::arithmetic::div_mod::lemma_div_pos_is_pos(f as int, 2);
            } else {
                vstd::arithmetic::div_mod::lemma_div_pos_is_pos(-(f as int), 2);
            }
        }
        bump_node(nodes, self.left, half);
        bump_node(nodes, self.right, f - half);
    }

    /// Midpoint of the endpoints.
    pub fn center(&self, nodes: &Vec<Node>) -> (c: i64)
        requires
            h_in_bounds(*self, nodes@.len()),
            wf_nodes(nodes@),
        ensures
            c as int == h_center(*self, nodes@),
            iabs(c as int) <= POS_LIMIT,
    {
        proof {
            crate::num::lemma_tdiv_bound(
                nodes@[self.left as int].pos + nodes@[self.right as int].pos,
                2,
                POS_LIMIT as int,
            );
        }
        half64(nodes[self.left].pos + nodes[self.right].pos)
    }

    /// Span between the endpoints.
    pub fn size(&self, nodes: &Vec<Node>) -> (c: i64)
        requires
            h_in_bounds(*self, nodes@.len()),
            wf_nodes(nodes@),
        ensures
            c as int == h_size(*self, nodes@),
            0 <= c as int <= 2 * POS_LIMIT,
    {
        let d = nodes[self.left].pos - nodes[self.right].pos;
        if d >= 0 {
            d
        } else {
            -d
        }
    }

    /// Mean velocity of the endpoints.
    pub fn speed(&self, nodes: &Vec<Node>) -> (c: i64)
        requires
            h_in_bounds(*self, nodes@.len()),
            wf_nodes(nodes@),
        ensures
            c as int == h_speed(*self, nodes@),
            iabs(c as int) <= VEL_LIMIT,
    {
        proof {
            crate::num::lemma_tdiv_bound(
                nodes@[self.left as int].vel + nodes@[self.right as int].vel,
                2,
                VEL_LIMIT as int,
            );
        }
        half64(nodes[self.left].vel + nodes[self.right].vel)
    }

    /// Whether the two links share an endpoint node (index equality).
    pub fn has_common_node(&self, other: &HLink) -> (r: bool)
        ensures
            r == shares_node(*self, *other),
    {
        self.left == other.left || self.left == other.right || self.right == other.left
            || self.right == other.right
    }

    /// The endpoints ordered by position, left-most first.
    pub fn nodes_sorted(&self, nodes: &Vec<Node>) -> (r: (usize, usize))
        requires
            h_in_bounds(*self, nodes@.len()),
        ensures
            r == h_sorted(*self, nodes@),
    {
        if nodes[self.left].pos <= nodes[self.right].pos {
            (self.left, self.right)
        } else {
            (self.right, self.left)
        }
    }

    /// Let the link's own spring-damper act on its endpoints.
    pub fn act(&self, nodes: &mut Vec<Node>, s: &Spring)
        requires
            h_in_bounds(*self, old(nodes)@.len()),
            wf_nodes(old(nodes)@),
            s.wf(),
        ensures
            final(nodes)@ == h_act(old(nodes)@, *self, *s),
            wf_nodes(final(nodes)@),
    {
        let l = nodes[self.left];
        let r = nodes[self.right];
        let dp = l.pos - r.pos;
        let dv = l.vel - r.vel;
        let c = clip64(dp, SCALE);
        proof {
            lemma_abs_mul_bound(s.elast as int, -c as int, COEFF_LIMIT as int, SCALE as int);
            lemma_fmul_bound(s.elast as int, -c as int, COEFF_LIMIT as int);
            lemma_abs_mul_bound(s.frict as int, dv as int, COEFF_LIMIT as int, 2 * VEL_LIMIT as int);
            lemma_fmul_bound(s.frict as int, dv as int, 2 * COEFF_LIMIT as int);
        }
        let fe = scaled_mul(s.elast, -c);
        let ff = scaled_mul(s.frict, dv);
        let f = fe - ff;
        bump_node(nodes, self.left, f);
        bump_node(nodes, self.right, -f);
    }

    /// Collision avoidance against another horizontal link.
    pub fn intersect(&self, other: &HLink, nodes: &mut Vec<Node>, s: &Spring)
        requires
            h_in_bounds(*self, old(nodes)@.len()),
            h_in_bounds(*other, old(nodes)@.len()),
            wf_nodes(old(nodes)@),
            s.wf(),
        ensures
            final(nodes)@ == h_intersect(old(nodes)@, *self, *other, *s),
            wf_nodes(final(nodes)@),
    {
        if self.has_common_node(other) {
            return ;
        }
        let tc = self.center(nodes);
        let oc = other.center(nodes);
        let ts = self.size(nodes);
        let os = other.size(nodes);
        let dp = tc - oc;
        let l = if dp >= 0 {
            dp
        } else {
            -dp
        };
        proof {
            crate::num::lemma_tdiv_bound(ts + os as int, 2, 2 * POS_LIMIT as int);
        }
        let r = half64(ts + os) + SCALE;
        if l < r {
            let dv = self.speed(nodes) - other.speed(nodes);
            let rl = r - l;
            proof {
                lemma_abs_mul_bound(
                    s.elast as int,
                    rl as int,
                    COEFF_LIMIT as int,
                    2 * POS_LIMIT + SCALE as int,
                );
                lemma_fmul_bound(s.elast as int, rl as int, 2_000_001_000_000_000);
                lemma_abs_mul_bound(
                    s.frict as int,
                    dv as int,
                    COEFF_LIMIT as int,
                    2 * VEL_LIMIT as int,
                );
                lemma_fmul_bound(s.frict as int, dv as int, 2 * COEFF_LIMIT as int);
            }
            let e = scaled_mul(s.elast, rl);
            let fe = if dp > 0 {
                e
            } else if dp < 0 {
                -e
            } else {
                0
            };
            let ff = scaled_mul(s.frict, dv);
            let f = fe - ff;
            let ss = self.nodes_sorted(nodes);
            let so = other.nodes_sorted(nodes);
            let ta = if dp > 0 {
                ss.0
            } else {
                ss.1
            };
            let tb = if dp > 0 {
                so.1
            } else {
                so.0
            };
            bump_node(nodes, ta, f);
            bump_node(nodes, tb, -f);
        }
    }
}

/// A vertical spring-damper pulling a child node (`bottom`, an index into
/// the node arena) toward the midpoint of its parent edge (`top`, an
/// index into the link arena).
#[derive(Clone, Copy, Debug, PartialEq, Eq, Structural)]
pub struct VLink {
    pub top: usize,
    pub bottom: usize,
}

/// The link's references lie inside the arenas.
pub open spec fn v_in_bounds(v: VLink, hs: Seq<HLink>, n: nat) -> bool {
    v.top < hs.len() && h_in_bounds(hs[v.top as int], n) && v.bottom < n
}

/// The spring-damper force applied to the top link (split onto its
/// endpoints); the bottom node receives its opposite. Proportional to the
/// full offset between the top link's center and the bottom node.
pub open spec fn v_act_force(v: VLink, ns: Seq<Node>, hs: Seq<HLink>, s: Spring) -> int {
    let t = hs[v.top as int];
    let dp = h_center(t, ns) - ns[v.bottom as int].pos;
    let dv = h_speed(t, ns) - ns[v.bottom as int].vel;
    fmul(s.elast as int, -dp) - fmul(s.frict as int, dv)
}

/// `ns` after the spring of `v` acts: half the force onto each endpoint
/// of the top link, the opposite force onto the bottom node.
pub open spec fn v_act(ns: Seq<Node>, hs: Seq<HLink>, v: VLink, s: Spring) -> Seq<Node> {
    let f = v_act_force(v, ns, hs, s);
    bump(h_apply(ns, hs[v.top as int], f), v.bottom as int, -f)
}

/// The clearance repulsion applied to the left-ordered one of two
/// vertical links' bottom nodes; the other bottom receives its opposite.
pub open spec fn vv_force(ns: Seq<Node>, first: VLink, second: VLink, s: Spring) -> int {
    let dp = ns[first.bottom as int].pos - ns[second.bottom as int].pos;
    let dv = ns[first.bottom as int].vel - ns[second.bottom as int].vel;
    fmul(s.elast as int, -clip(dp + SCALE, SCALE as int)) - fmul(s.frict as int, dv)
}

/// `ns` after collision avoidance between two vertical links. Links
/// hanging from the same top link are skipped. The pair is ordered by the
/// top links' centers; when the bottom nodes sit less than one unit of
/// clearance apart, a clamped repulsion acts on both bottom nodes.
pub open spec fn v_intersect(ns: Seq<Node>, hs: Seq<HLink>, a: VLink, b: VLink, s: Spring) -> Seq<
    Node,
> {
    if a.top == b.top {
        ns
    } else {
        let first = if h_center(hs[a.top as int], ns) < h_center(hs[b.top as int], ns) {
            a
        } else {
            b
        };
        let second = if h_center(hs[a.top as int], ns) < h_center(hs[b.top as int], ns) {
            b
        } else {
            a
        };
        let dp = ns[first.bottom as int].pos - ns[second.bottom as int].pos;
        if dp > -(SCALE as int) {
            let f = vv_force(ns, first, second, s);
            bump(bump(ns, first.bottom as int, f), second.bottom as int, -f)
        } else {
            ns
        }
    }
}

impl VLink {
    pub fn new(top: usize, bottom: usize) -> (v: VLink)
        ensures
            v == (VLink { top, bottom }),
    {
        VLink { top, bottom }
    }

    /// Let the vertical spring act: pull the bottom node under the top
    /// link's midpoint, with the reaction split onto the top's endpoints.
    pub fn act(&self, nodes: &mut Vec<Node>, hlinks: &Vec<HLink>, s: &Spring)
        requires
            v_in_bounds(*self, hlinks@, old(nodes)@.len()),
            wf_nodes(old(nodes)@),
            s.wf(),
        ensures
            final(nodes)@ == v_act(old(nodes)@, hlinks@, *self, *s),
            wf_nodes(final(nodes)@),
    {
        let t = hlinks[self.top];
        let dp = t.center(nodes) - nodes[self.bottom].pos;
        let dv = t.speed(nodes) - nodes[self.bottom].vel;
        proof {
            lemma_abs_mul_bound(s.elast as int, -dp as int, COEFF_LIMIT as int, 2 * POS_LIMIT);
            lemma_fmul_bound(s.elast as int, -dp as int, 2_000_000_000_000_000);
            lemma_abs_mul_bound(s.frict as int, dv as int, COEFF_LIMIT as int, 2 * VEL_LIMIT as int);
            lemma_fmul_bound(s.frict as int, dv as int, 2 * COEFF_LIMIT as int);
        }
        let fe = scaled_mul(s.elast, -dp);
        let ff = scaled_mul(s.frict, dv);
        let f = fe - ff;
        t.apply_force(nodes, f);
        bump_node(nodes, self.bottom, -f);
    }

    /// Collision avoidance against another vertical link.
    pub fn intersect(&self, other: &VLink, nodes: &mut Vec<Node>, hlinks: &Vec<HLink>, s: &Spring)
        requires
            v_in_bounds(*self, hlinks@, old(nodes)@.len()),
            v_in_bounds(*other, hlinks@, old(nodes)@.len()),
            wf_nodes(old(nodes)@),
            s.wf(),
        ensures
            final(nodes)@ == v_intersect(old(nodes)@, hlinks@, *self, *other, *s),
            wf_nodes(final(nodes)@),
    {
        if self.top == other.top {
            return ;
        }
        let sc = hlinks[self.top].center(nodes);
        let oc = hlinks[other.top].center(nodes);
        let (fst, snd) = if sc < oc {
            (*self, *other)
        } else {
            (*other, *self)
        };
        let dp = nodes[fst.bottom].pos - nodes[snd.bottom].pos;
        let dv = nodes[fst.bottom].vel - nodes[snd.bottom].vel;
        if dp > -SCALE {
            let c = clip64(dp + SCALE, SCALE);
            proof {
                lemma_abs_mul_bound(s.elast as int, -c as int, COEFF_LIMIT as int, SCALE as int);
                lemma_fmul_bound(s.elast as int, -c as int, COEFF_LIMIT as int);
                lemma_abs_mul_bound(
                    s.frict as int,
                    dv as int,
                    COEFF_LIMIT as int,
                    2 * VEL_LIMIT as int,
                );
                lemma_fmul_bound(s.frict as int, dv as int, 2 * COEFF_LIMIT as int);
            }
            let fe = scaled_mul(s.elast, -c);
            let ff = scaled_mul(s.frict, dv);
            let f = fe - ff;
            bump_node(nodes, fst.bottom, f);
            bump_node(nodes, snd.bottom, -f);
        }
    }
}

} // verus!
