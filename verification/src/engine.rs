//! The solver: arenas, the per-layer index, the force-compute pass and
//! the fourth-order Runge-Kutta integrator.
//!
//! Topology is append-only: nodes and links are added, never removed.
//! The layer index maps a layer number to the arena indices living on it,
//! so pairwise interactions stay within one layer.

use vstd::prelude::*;
use crate::num::{
    ACC_LIMIT, COEFF_LIMIT, DT_LIMIT, POS_LIMIT, SCALE, VEL_LIMIT, clip, fmul, iabs,
    lemma_tdiv_bound, sixth64, tdiv,
};
use crate::model::{
    HLink, Node, Spring, VLink, bump_node, h_act, h_in_bounds, h_intersect, node_force, profile,
    profile_spec, step_node, v_act, v_in_bounds, v_intersect, wf_nodes,
};

verus! {

/// Why a topology addition was rejected.
#[derive(Clone, Copy, Debug, PartialEq, Eq, Structural)]
pub enum SolverError {
    /// The given identity already exists.
    DuplicateIdentity,
    /// A referenced identity is not registered.
    UnknownReference,
    /// A horizontal link's endpoints lie on different layers.
    LayerMismatch,
}

/// Per-node scratch state of one integration call: the stage-0 snapshot
/// and the four sampled derivatives. Recomputed on every call.
#[derive(Clone, Copy, Debug)]
pub struct Rk4 {
    pub pos: i64,
    pub vel: i64,
    pub v1: i64,
    pub v2: i64,
    pub v3: i64,
    pub v4: i64,
    pub a1: i64,
    pub a2: i64,
    pub a3: i64,
    pub a4: i64,
}

/// The all-zero scratch record.
pub open spec fn rk4_zero() -> Rk4 {
    Rk4 { pos: 0, vel: 0, v1: 0, v2: 0, v3: 0, v4: 0, a1: 0, a2: 0, a3: 0, a4: 0 }
}

impl Default for Rk4 {
    fn default() -> (r: Rk4)
        ensures
            r == rk4_zero(),
    {
        Rk4 { pos: 0, vel: 0, v1: 0, v2: 0, v3: 0, v4: 0, a1: 0, a2: 0, a3: 0, a4: 0 }
    }
}

/// Some entry of the arena carries this identity.
pub open spec fn has_node_id(ns: Seq<Node>, id: u64) -> bool {
    exists|i: int| 0 <= i < ns.len() && (#[trigger] ns[i]).id == id
}

/// The arena index carrying `id` (meaningful under `unique_node_ids`).
pub open spec fn idx_of_id(ns: Seq<Node>, id: u64) -> int {
    choose|i: int| 0 <= i < ns.len() && (#[trigger] ns[i]).id == id
}

/// Some entry of the id list equals `id`.
pub open spec fn has_id(ids: Seq<u64>, id: u64) -> bool {
    exists|i: int| 0 <= i < ids.len() && ids[i] == id
}

/// The position of `id` in the id list (meaningful under `unique_ids`).
pub open spec fn idx_of(ids: Seq<u64>, id: u64) -> int {
    choose|i: int| 0 <= i < ids.len() && ids[i] == id
}

/// No two nodes carry the same identity.
pub open spec fn unique_node_ids(ns: Seq<Node>) -> bool {
    forall|i: int, j: int|
        #![trigger ns[i].id, ns[j].id]
        0 <= i < j < ns.len() ==> ns[i].id != ns[j].id
}

/// No identity repeats in the list.
pub open spec fn unique_ids(ids: Seq<u64>) -> bool {
    forall|i: int, j: int| #![trigger ids[i], ids[j]] 0 <= i < j < ids.len() ==> ids[i] != ids[j]
}

/// The index groups of a layer table, in table order.
pub open spec fn groups_of(levels: Seq<(i64, Vec<usize>)>) -> Seq<Seq<usize>> {
    levels.map_values(|e: (i64, Vec<usize>)| e.1@)
}

/// The layer keys of a layer table, in table order.
pub open spec fn keys_of(levels: Seq<(i64, Vec<usize>)>) -> Seq<i64> {
    levels.map_values(|e: (i64, Vec<usize>)| e.0)
}

/// Every index in every group addresses an arena of `n` entries.
pub open spec fn groups_in_bounds(gs: Seq<Seq<usize>>, n: nat) -> bool {
    forall|i: int, j: int|
        #![trigger gs[i][j]]
        0 <= i < gs.len() && 0 <= j < gs[i].len() ==> (gs[i][j] as nat) < n
}

/// Position of the first table entry keyed `layer`, or `-1` if none.
pub open spec fn find_level(levels: Seq<(i64, Vec<usize>)>, layer: i64) -> int
    decreases levels.len(),
{
    if levels.len() == 0 {
        -1
    } else if levels[0].0 == layer {
        0
    } else {
        let r = find_level(levels.drop_first(), layer);
        if r == -1 {
            -1
        } else {
            r + 1
        }
    }
}

/// The find position is `-1` or a valid table position.
pub proof fn lemma_find_level_range(levels: Seq<(i64, Vec<usize>)>, layer: i64)
    ensures
        -1 <= find_level(levels, layer) < levels.len(),
    decreases levels.len(),
{
    if levels.len() > 0 && levels[0].0 != layer {
        lemma_find_level_range(levels.drop_first(), layer);
    }
}

/// Growing one group by one in-bounds index keeps a table in bounds,
/// also against a grown arena.
pub proof fn lemma_groups_grow(gs: Seq<Seq<usize>>, k: int, idx: usize, n: nat, m: nat)
    requires
        groups_in_bounds(gs, n),
        n <= m,
        (idx as nat) < m,
        0 <= k < gs.len(),
    ensures
        groups_in_bounds(gs.update(k, gs[k].push(idx)), m),
{
    let gs2 = gs.update(k, gs[k].push(idx));
    assert forall|i: int, j: int|
        #![trigger gs2[i][j]]
        0 <= i < gs2.len() && 0 <= j < gs2[i].len() implies ((gs2[i][j]) as nat) < m by {
        if i == k {
            if j < gs[k].len() {
                assert(gs2[i][j] == gs[k][j]);
            } else {
                assert(gs2[i][j] == idx);
            }
        } else {
            assert(gs2[i][j] == gs[i][j]);
        }
    }
}

/// Appending a fresh one-index group keeps a table in bounds, also
/// against a grown arena.
pub proof fn lemma_groups_push(gs: Seq<Seq<usize>>, idx: usize, n: nat, m: nat)
    requires
        groups_in_bounds(gs, n),
        n <= m,
        (idx as nat) < m,
    ensures
        groups_in_bounds(gs.push(seq![idx]), m),
{
    let gs2 = gs.push(seq![idx]);
    assert forall|i: int, j: int|
        #![trigger gs2[i][j]]
        0 <= i < gs2.len() && 0 <= j < gs2[i].len() implies ((gs2[i][j]) as nat) < m by {
        if i < gs.len() {
            assert(gs2[i][j] == gs[i][j]);
        } else {
            assert(gs2[i] == seq![idx]);
        }
    }
}

/// A table with no entry keyed `layer` has no find position.
pub proof fn lemma_find_level_none(levels: Seq<(i64, Vec<usize>)>, layer: i64)
    requires
        forall|j: int| 0 <= j < levels.len() ==> (#[trigger] levels[j]).0 != layer,
    ensures
        find_level(levels, layer) == -1,
    decreases levels.len(),
{
    if levels.len() > 0 {
        assert(forall|j: int|
            0 <= j < levels.drop_first().len() ==> (#[trigger] levels.drop_first()[j]).0
                != layer) by {
            assert(forall|j: int|
                0 <= j < levels.drop_first().len() ==> levels.drop_first()[j] == levels[j + 1]);
        }
        lemma_find_level_none(levels.drop_first(), layer);
    }
}

/// The first entry keyed `layer` is the find position.
pub proof fn lemma_find_level_hit(levels: Seq<(i64, Vec<usize>)>, layer: i64, k: int)
    requires
        0 <= k < levels.len(),
        levels[k].0 == layer,
        forall|j: int| 0 <= j < k ==> (#[trigger] levels[j]).0 != layer,
    ensures
        find_level(levels, layer) == k,
    decreases k,
{
    if k > 0 {
        assert(levels.drop_first()[k - 1] == levels[k]);
        assert(forall|j: int|
            0 <= j < k - 1 ==> (#[trigger] levels.drop_first()[j]).0 != layer) by {
            assert(forall|j: int| 0 <= j < k - 1 ==> levels.drop_first()[j] == levels[j + 1]);
        }
        lemma_find_level_hit(levels.drop_first(), layer, k - 1);
    }
}

/// `b` keeps `a`'s length and every node's identity and layer.
pub open spec fn same_frame(a: Seq<Node>, b: Seq<Node>) -> bool {
    &&& a.len() == b.len()
    &&& forall|i: int|
        0 <= i < a.len() ==> (#[trigger] b[i]).id == a[i].id && b[i].layer == a[i].layer
}

/// One node with its accumulator reset and seeded with viscous drag.
pub open spec fn dragged(n: Node, visc: int) -> Node {
    Node { acc: (-fmul(visc, n.vel as int)) as i64, ..n }
}

/// Stage 1 of a pass: every accumulator reset and seeded with drag.
pub open spec fn drag_all(ns: Seq<Node>, visc: int) -> Seq<Node> {
    ns.map_values(|n: Node| dragged(n, visc))
}

/// One node-node interaction applied to the arena: the pair force into
/// `i`, its opposite into `j`, both read from the unmodified state.
pub open spec fn pair_one(ns: Seq<Node>, i: int, j: int, s: Spring) -> Seq<Node> {
    let f = node_force(ns[i], ns[j], s);
    let a = Node { acc: clip(ns[i].acc + f, ACC_LIMIT as int) as i64, ..ns[i] };
    let b = Node { acc: clip(ns[j].acc - f, ACC_LIMIT as int) as i64, ..ns[j] };
    ns.update(i, a).update(j, b)
}

/// Node `i` interacted against each index of `rest`, in order.
pub open spec fn pair_from(ns: Seq<Node>, i: usize, rest: Seq<usize>, s: Spring) -> Seq<Node>
    decreases rest.len(),
{
    if rest.len() == 0 {
        ns
    } else {
        pair_from(pair_one(ns, i as int, rest[0] as int, s), i, rest.drop_first(), s)
    }
}

/// Every unordered pair of one layer group, first-against-rest.
pub open spec fn pair_sweep(ns: Seq<Node>, g: Seq<usize>, s: Spring) -> Seq<Node>
    decreases g.len(),
{
    if g.len() == 0 {
        ns
    } else {
        pair_sweep(pair_from(ns, g[0], g.drop_first(), s), g.drop_first(), s)
    }
}

/// Node-node repulsion within every layer group, in table order.
pub open spec fn pair_levels(ns: Seq<Node>, gs: Seq<Seq<usize>>, s: Spring) -> Seq<Node>
    decreases gs.len(),
{
    if gs.len() == 0 {
        ns
    } else {
        pair_levels(pair_sweep(ns, gs[0], s), gs.drop_first(), s)
    }
}

/// Every horizontal link's own spring, in arena order.
pub open spec fn h_act_all(ns: Seq<Node>, hs: Seq<HLink>, s: Spring) -> Seq<Node>
    decreases hs.len(),
{
    if hs.len() == 0 {
        ns
    } else {
        h_act_all(h_act(ns, hs[0], s), hs.drop_first(), s)
    }
}

/// Every vertical link's spring, in arena order.
pub open spec fn v_act_all(ns: Seq<Node>, hs: Seq<HLink>, vs: Seq<VLink>, s: Spring) -> Seq<Node>
    decreases vs.len(),
{
    if vs.len() == 0 {
        ns
    } else {
        v_act_all(v_act(ns, hs, vs[0], s), hs, vs.drop_first(), s)
    }
}

/// Horizontal link `i` tested against each of `rest`, in order.
pub open spec fn hh_from(ns: Seq<Node>, hs: Seq<HLink>, i: usize, rest: Seq<usize>, s: Spring) -> Seq<
    Node,
>
    decreases rest.len(),
{
    if rest.len() == 0 {
        ns
    } else {
        hh_from(h_intersect(ns, hs[i as int], hs[rest[0] as int], s), hs, i, rest.drop_first(), s)
    }
}

/// Every unordered pair of one layer's horizontal links.
pub open spec fn hh_sweep(ns: Seq<Node>, hs: Seq<HLink>, g: Seq<usize>, s: Spring) -> Seq<Node>
    decreases g.len(),
{
    if g.len() == 0 {
        ns
    } else {
        hh_sweep(hh_from(ns, hs, g[0], g.drop_first(), s), hs, g.drop_first(), s)
    }
}

/// Horizontal collision avoidance within every layer group.
pub open spec fn hh_levels(ns: Seq<Node>, hs: Seq<HLink>, gs: Seq<Seq<usize>>, s: Spring) -> Seq<
    Node,
>
    decreases gs.len(),
{
    if gs.len() == 0 {
        ns
    } else {
        hh_levels(hh_sweep(ns, hs, gs[0], s), hs, gs.drop_first(), s)
    }
}

/// Vertical link `i` tested against each of `rest`, in order.
pub open spec fn vv_from(
    ns: Seq<Node>,
    hs: Seq<HLink>,
    vs: Seq<VLink>,
    i: usize,
    rest: Seq<usize>,
    s: Spring,
) -> Seq<Node>
    decreases rest.len(),
{
    if rest.len() == 0 {
        ns
    } else {
        vv_from(
            v_intersect(ns, hs, vs[i as int], vs[rest[0] as int], s),
            hs,
            vs,
            i,
            rest.drop_first(),
            s,
        )
    }
}

/// Every unordered pair of one layer's vertical links.
pub open spec fn vv_sweep(
    ns: Seq<Node>,
    hs: Seq<HLink>,
    vs: Seq<VLink>,
    g: Seq<usize>,
    s: Spring,
) -> Seq<Node>
    decreases g.len(),
{
    if g.len() == 0 {
        ns
    } else {
        vv_sweep(vv_from(ns, hs, vs, g[0], g.drop_first(), s), hs, vs, g.drop_first(), s)
    }
}

/// Vertical collision avoidance within every layer group.
pub open spec fn vv_levels(
    ns: Seq<Node>,
    hs: Seq<HLink>,
    vs: Seq<VLink>,
    gs: Seq<Seq<usize>>,
    s: Spring,
) -> Seq<Node>
    decreases gs.len(),
{
    if gs.len() == 0 {
        ns
    } else {
        vv_levels(vv_sweep(ns, hs, vs, gs[0], s), hs, vs, gs.drop_first(), s)
    }
}

/// One full force-compute pass over a frozen kinematic snapshot:
/// drag, node-node repulsion per layer, both spring kinds, then both
/// collision-avoidance kinds per layer.
pub open spec fn pass(
    ns: Seq<Node>,
    gs_nodes: Seq<Seq<usize>>,
    hs: Seq<HLink>,
    vs: Seq<VLink>,
    gs_h: Seq<Seq<usize>>,
    gs_v: Seq<Seq<usize>>,
) -> Seq<Node> {
    let p = profile_spec();
    let a = drag_all(ns, p.visc as int);
    let b = pair_levels(a, gs_nodes, p.node);
    let c = h_act_all(b, hs, p.hor);
    let d = v_act_all(c, hs, vs, p.ver);
    let e = hh_levels(d, hs, gs_h, p.hor_inter);
    vv_levels(e, hs, vs, gs_v, p.ver_inter)
}

/// Skipping one more element: the head and tail of a suffix.
pub proof fn lemma_skip_step<T>(s: Seq<T>, k: int)
    requires
        0 <= k < s.len(),
    ensures
        s.skip(k).len() == s.len() - k,
        s.skip(k)[0] == s[k],
        s.skip(k).drop_first() == s.skip(k + 1),
{
    assert(s.skip(k).drop_first() =~= s.skip(k + 1));
}

/// The layered one-dimensional spring-mass-damper solver.
///
/// Nodes sit in one arena; links hold arena indices. Three layer tables
/// scope the pairwise interactions. `rk4` is per-node integration
/// scratch, kept parallel to the node arena.
pub struct Solver {
    pub nodes: Vec<Node>,
    pub rk4: Vec<Rk4>,
    pub hlinks: Vec<HLink>,
    pub hlink_ids: Vec<u64>,
    pub vlinks: Vec<VLink>,
    pub vlink_ids: Vec<u64>,
    pub node_levels: Vec<(i64, Vec<usize>)>,
    pub hlink_levels: Vec<(i64, Vec<usize>)>,
    pub vlink_levels: Vec<(i64, Vec<usize>)>,
}

impl Solver {
    /// Structural soundness: parallel arrays line up, every stored index
    /// is in bounds, identities are unique, horizontal links join
    /// same-layer nodes, and every node is within the working ranges.
    pub open spec fn wf(self) -> bool {
        &&& wf_nodes(self.nodes@)
        &&& self.rk4@.len() == self.nodes@.len()
        &&& self.hlink_ids@.len() == self.hlinks@.len()
        &&& self.vlink_ids@.len() == self.vlinks@.len()
        &&& unique_node_ids(self.nodes@)
        &&& unique_ids(self.hlink_ids@)
        &&& unique_ids(self.vlink_ids@)
        &&& forall|i: int|
            0 <= i < self.hlinks@.len() ==> h_in_bounds(
                #[trigger] self.hlinks@[i],
                self.nodes@.len(),
            )
        &&& forall|i: int|
            0 <= i < self.vlinks@.len() ==> v_in_bounds(
                #[trigger] self.vlinks@[i],
                self.hlinks@,
                self.nodes@.len(),
            )
        &&& forall|i: int|
            0 <= i < self.hlinks@.len() ==> self.nodes@[(#[trigger] self.hlinks@[i]).left as int].layer
                == self.nodes@[self.hlinks@[i].right as int].layer
        &&& groups_in_bounds(groups_of(self.node_levels@), self.nodes@.len())
        &&& groups_in_bounds(groups_of(self.hlink_levels@), self.hlinks@.len())
        &&& groups_in_bounds(groups_of(self.vlink_levels@), self.vlinks@.len())
    }

    /// An empty solver.
    pub fn new() -> (s: Solver)
        ensures
            s.wf(),
            s.nodes@.len() == 0,
            s.hlinks@.len() == 0,
            s.vlinks@.len() == 0,
            s.node_levels@.len() == 0,
            s.hlink_levels@.len() == 0,
            s.vlink_levels@.len() == 0,
    {
        Solver {
            nodes: Vec::new(),
            rk4: Vec::new(),
            hlinks: Vec::new(),
            hlink_ids: Vec::new(),
            vlinks: Vec::new(),
            vlink_ids: Vec::new(),
            node_levels: Vec::new(),
            hlink_levels: Vec::new(),
            vlink_levels: Vec::new(),
        }
    }

    /// Register `idx` under `layer` in a layer table: appended to the
    /// first entry keyed `layer`, or opening a fresh entry at the end.
    fn register_level(levels: &mut Vec<(i64, Vec<usize>)>, layer: i64, idx: usize)
        ensures
            ({
                let k = find_level(old(levels)@, layer);
                if k >= 0 {
                    keys_of(final(levels)@) == keys_of(old(levels)@) && groups_of(final(levels)@)
                        == groups_of(old(levels)@).update(
                        k,
                        groups_of(old(levels)@)[k].push(idx),
                    )
                } else {
                    keys_of(final(levels)@) == keys_of(old(levels)@).push(layer) && groups_of(
                        final(levels)@,
                    ) == groups_of(old(levels)@).push(seq![idx])
                }
            }),
    {
        let n = levels.len();
        let mut k: usize = 0;
        while k < n
            invariant
                k <= n,
                n == levels@.len(),
                levels@ == old(levels)@,
                forall|j: int| 0 <= j < k ==> (#[trigger] levels@[j]).0 != layer,
            decreases n - k,
        {
            if levels[k].0 == layer {
                proof {
                    lemma_find_level_hit(levels@, layer, k as int);
                }
                let mut entry = levels.remove(k);
                entry.1.push(idx);
                levels.insert(k, entry);
                proof {
                    assert(keys_of(levels@) =~= keys_of(old(levels)@));
                    assert(groups_of(levels@) =~~= groups_of(old(levels)@).update(
                        k as int,
                        groups_of(old(levels)@)[k as int].push(idx),
                    ));
                }
                return ;
            }
            k = k + 1;
        }
        proof {
            lemma_find_level_none(levels@, layer);
        }
        let mut fresh: Vec<usize> = Vec::new();
        fresh.push(idx);
        levels.push((layer, fresh));
        proof {
            assert(keys_of(levels@) =~= keys_of(old(levels)@).push(layer));
            assert(groups_of(levels@) =~~= groups_of(old(levels)@).push(seq![idx]));
        }
    }

    /// First arena index carrying `id`, if any.
    fn find_node(nodes: &Vec<Node>, id: u64) -> (r: Option<usize>)
        ensures
            match r {
                Some(i) => i < nodes@.len() && nodes@[i as int].id == id,
                None => !has_node_id(nodes@, id),
            },
    {
        let n = nodes.len();
        let mut k: usize = 0;
        while k < n
            invariant
                k <= n,
                n == nodes@.len(),
                forall|j: int| 0 <= j < k ==> (#[trigger] nodes@[j]).id != id,
            decreases n - k,
        {
            if nodes[k].id == id {
                return Some(k);
            }
            k = k + 1;
        }
        None
    }

    /// First position of `id` in an id list, if any.
    fn find_id(ids: &Vec<u64>, id: u64) -> (r: Option<usize>)
        ensures
            match r {
                Some(i) => i < ids@.len() && ids@[i as int] == id,
                None => !has_id(ids@, id),
            },
    {
        let n = ids.len();
        let mut k: usize = 0;
        while k < n
            invariant
                k <= n,
                n == ids@.len(),
                forall|j: int| 0 <= j < k ==> ids@[j] != id,
            decreases n - k,
        {
            if ids[k] == id {
                return Some(k);
            }
            k = k + 1;
        }
        None
    }

    /// Register a node. Rejects a duplicate identity; the node otherwise
    /// starts at rest at `pos` on `layer` and joins its layer's group.
    pub fn add_node(&mut self, id: u64, pos: i64, layer: i64) -> (r: Result<(), SolverError>)
        requires
            old(self).wf(),
            iabs(pos as int) <= POS_LIMIT,
        ensures
            final(self).wf(),
            ({
                if has_node_id(old(self).nodes@, id) {
                    r == Result::<(), SolverError>::Err(SolverError::DuplicateIdentity)
                        && *final(self) == *old(self)
                } else {
                    &&& r == Result::<(), SolverError>::Ok(())
                    &&& final(self).nodes@ == old(self).nodes@.push(
                        Node { id, pos, vel: 0i64, acc: 0i64, layer },
                    )
                    &&& final(self).rk4@ == old(self).rk4@.push(rk4_zero())
                    &&& ({
                        let k = find_level(old(self).node_levels@, layer);
                        let idx = old(self).nodes@.len() as usize;
                        if k >= 0 {
                            keys_of(final(self).node_levels@) == keys_of(old(self).node_levels@)
                                && groups_of(final(self).node_levels@) == groups_of(
                                old(self).node_levels@,
                            ).update(k, groups_of(old(self).node_levels@)[k].push(idx))
                        } else {
                            keys_of(final(self).node_levels@) == keys_of(
                                old(self).node_levels@,
                            ).push(layer) && groups_of(final(self).node_levels@) == groups_of(
                                old(self).node_levels@,
                            ).push(seq![idx])
                        }
                    })
                    &&& final(self).hlinks@ == old(self).hlinks@
                    &&& final(self).vlinks@ == old(self).vlinks@
                    &&& final(self).hlink_ids@ == old(self).hlink_ids@
                    &&& final(self).vlink_ids@ == old(self).vlink_ids@
                    &&& final(self).hlink_levels@ == old(self).hlink_levels@
                    &&& final(self).vlink_levels@ == old(self).vlink_levels@
                }
            }),
    {
        if Self::find_node(&self.nodes, id).is_some() {
            return Err(SolverError::DuplicateIdentity);
        }
        let idx = self.nodes.len();
        self.nodes.push(Node::new(id, pos, layer));
        self.rk4.push(Rk4::default());
        Self::register_level(&mut self.node_levels, layer, idx);
        proof {
            let oldns = old(self).nodes@;
            lemma_find_level_range(old(self).node_levels@, layer);
            let k = find_level(old(self).node_levels@, layer);
            if k >= 0 {
                lemma_groups_grow(
                    groups_of(old(self).node_levels@),
                    k,
                    idx,
                    oldns.len(),
                    self.nodes@.len(),
                );
            } else {
                lemma_groups_push(
                    groups_of(old(self).node_levels@),
                    idx,
                    oldns.len(),
                    self.nodes@.len(),
                );
            }
            assert forall|i: int, j: int|
                #![trigger self.nodes@[i].id, self.nodes@[j].id]
                0 <= i < j < self.nodes@.len() implies self.nodes@[i].id != self.nodes@[j].id by {
                if j < oldns.len() {
                    assert(oldns[i].id != oldns[j].id);
                } else {
                    assert(self.nodes@[i] == oldns[i]);
                }
            }
            assert forall|i: int|
                0 <= i < self.hlinks@.len() implies h_in_bounds(
                #[trigger] self.hlinks@[i],
                self.nodes@.len(),
            ) by {
                assert(h_in_bounds(self.hlinks@[i], oldns.len()));
            }
            assert forall|i: int|
                0 <= i < self.vlinks@.len() implies v_in_bounds(
                #[trigger] self.vlinks@[i],
                self.hlinks@,
                self.nodes@.len(),
            ) by {
                assert(v_in_bounds(self.vlinks@[i], self.hlinks@, oldns.len()));
            }
        }
        Ok(())
    }

    /// Register a horizontal link between two existing same-layer nodes.
    /// Rejects an unknown endpoint, a duplicate identity, and a layer
    /// mismatch, in that order of precedence.
    pub fn add_hlink(&mut self, id: u64, left_id: u64, right_id: u64) -> (r: Result<
        (),
        SolverError,
    >)
        requires
            old(self).wf(),
        ensures
            final(self).wf(),
            ({
                let ns = old(self).nodes@;
                let li = idx_of_id(ns, left_id);
                let ri = idx_of_id(ns, right_id);
                if !has_node_id(ns, left_id) || !has_node_id(ns, right_id) {
                    r == Result::<(), SolverError>::Err(SolverError::UnknownReference) && *final(self) == *old(self)
                } else if has_id(old(self).hlink_ids@, id) {
                    r == Result::<(), SolverError>::Err(SolverError::DuplicateIdentity) && *final(self) == *old(self)
                } else if ns[li].layer != ns[ri].layer {
                    r == Result::<(), SolverError>::Err(SolverError::LayerMismatch) && *final(self)
                        == *old(self)
                } else {
                    &&& r == Result::<(), SolverError>::Ok(())
                    &&& final(self).hlinks@ == old(self).hlinks@.push(
                        HLink { left: li as usize, right: ri as usize },
                    )
                    &&& final(self).hlink_ids@ == old(self).hlink_ids@.push(id)
                    &&& ({
                        let k = find_level(old(self).hlink_levels@, ns[li].layer);
                        let hidx = old(self).hlinks@.len() as usize;
                        if k >= 0 {
                            keys_of(final(self).hlink_levels@) == keys_of(old(self).hlink_levels@)
                                && groups_of(final(self).hlink_levels@) == groups_of(
                                old(self).hlink_levels@,
                            ).update(k, groups_of(old(self).hlink_levels@)[k].push(hidx))
                        } else {
                            keys_of(final(self).hlink_levels@) == keys_of(
                                old(self).hlink_levels@,
                            ).push(ns[li].layer) && groups_of(final(self).hlink_levels@)
                                == groups_of(old(self).hlink_levels@).push(seq![hidx])
                        }
                    })
                    &&& final(self).nodes@ == old(self).nodes@
                    &&& final(self).rk4@ == old(self).rk4@
                    &&& final(self).vlinks@ == old(self).vlinks@
                    &&& final(self).vlink_ids@ == old(self).vlink_ids@
                    &&& final(self).node_levels@ == old(self).node_levels@
                    &&& final(self).vlink_levels@ == old(self).vlink_levels@
                }
            }),
    {
        let left = Self::find_node(&self.nodes, left_id);
        let right = Self::find_node(&self.nodes, right_id);
        if left.is_none() || right.is_none() {
            return Err(SolverError::UnknownReference);
        }
        let li = left.unwrap();
        let ri = right.unwrap();
        if Self::find_id(&self.hlink_ids, id).is_some() {
            return Err(SolverError::DuplicateIdentity);
        }
        let layer = self.nodes[li].layer;
        if layer != self.nodes[ri].layer {
            return Err(SolverError::LayerMismatch);
        }
        proof {
            assert(li as int == idx_of_id(self.nodes@, left_id));
            assert(ri as int == idx_of_id(self.nodes@, right_id));
        }
        let hidx = self.hlinks.len();
        self.hlinks.push(HLink::new(li, ri));
        self.hlink_ids.push(id);
        Self::register_level(&mut self.hlink_levels, layer, hidx);
        proof {
            let oldhs = old(self).hlinks@;
            lemma_find_level_range(old(self).hlink_levels@, layer);
            let k = find_level(old(self).hlink_levels@, layer);
            if k >= 0 {
                lemma_groups_grow(
                    groups_of(old(self).hlink_levels@),
                    k,
                    hidx,
                    oldhs.len(),
                    self.hlinks@.len(),
                );
            } else {
                lemma_groups_push(
                    groups_of(old(self).hlink_levels@),
                    hidx,
                    oldhs.len(),
                    self.hlinks@.len(),
                );
            }
            assert forall|i: int, j: int|
                #![trigger self.hlink_ids@[i], self.hlink_ids@[j]]
                0 <= i < j < self.hlink_ids@.len() implies self.hlink_ids@[i]
                != self.hlink_ids@[j] by {
                if j < old(self).hlink_ids@.len() {
                    assert(old(self).hlink_ids@[i] != old(self).hlink_ids@[j]);
                } else {
                    assert(self.hlink_ids@[i] == old(self).hlink_ids@[i]);
                }
            }
            assert forall|i: int|
                0 <= i < self.vlinks@.len() implies v_in_bounds(
                #[trigger] self.vlinks@[i],
                self.hlinks@,
                self.nodes@.len(),
            ) by {
                assert(v_in_bounds(self.vlinks@[i], oldhs, self.nodes@.len()));
                assert(self.hlinks@[self.vlinks@[i].top as int] == oldhs[self.vlinks@[i].top as int]);
            }
        }
        Ok(())
    }

    /// Register a vertical link from an existing horizontal link down to
    /// an existing node. Rejects an unknown reference and a duplicate
    /// identity, in that order.
    pub fn add_vlink(&mut self, id: u64, top_id: u64, bottom_id: u64) -> (r: Result<
        (),
        SolverError,
    >)
        requires
            old(self).wf(),
        ensures
            final(self).wf(),
            ({
                let ti = idx_of(old(self).hlink_ids@, top_id);
                let bi = idx_of_id(old(self).nodes@, bottom_id);
                if !has_id(old(self).hlink_ids@, top_id) || !has_node_id(
                    old(self).nodes@,
                    bottom_id,
                ) {
                    r == Result::<(), SolverError>::Err(SolverError::UnknownReference) && *final(self) == *old(self)
                } else if has_id(old(self).vlink_ids@, id) {
                    r == Result::<(), SolverError>::Err(SolverError::DuplicateIdentity) && *final(self) == *old(self)
                } else {
                    &&& r == Result::<(), SolverError>::Ok(())
                    &&& final(self).vlinks@ == old(self).vlinks@.push(
                        VLink { top: ti as usize, bottom: bi as usize },
                    )
                    &&& final(self).vlink_ids@ == old(self).vlink_ids@.push(id)
                    &&& ({
                        let k = find_level(
                            old(self).vlink_levels@,
                            old(self).nodes@[bi].layer,
                        );
                        let vidx = old(self).vlinks@.len() as usize;
                        if k >= 0 {
                            keys_of(final(self).vlink_levels@) == keys_of(old(self).vlink_levels@)
                                && groups_of(final(self).vlink_levels@) == groups_of(
                                old(self).vlink_levels@,
                            ).update(k, groups_of(old(self).vlink_levels@)[k].push(vidx))
                        } else {
                            keys_of(final(self).vlink_levels@) == keys_of(
                                old(self).vlink_levels@,
                            ).push(old(self).nodes@[bi].layer) && groups_of(
                                final(self).vlink_levels@,
                            ) == groups_of(old(self).vlink_levels@).push(seq![vidx])
                        }
                    })
                    &&& final(self).nodes@ == old(self).nodes@
                    &&& final(self).rk4@ == old(self).rk4@
                    &&& final(self).hlinks@ == old(self).hlinks@
                    &&& final(self).hlink_ids@ == old(self).hlink_ids@
                    &&& final(self).node_levels@ == old(self).node_levels@
                    &&& final(self).hlink_levels@ == old(self).hlink_levels@
                }
            }),
    {
        let top = Self::find_id(&self.hlink_ids, top_id);
        let bottom = Self::find_node(&self.nodes, bottom_id);
        if top.is_none() || bottom.is_none() {
            return Err(SolverError::UnknownReference);
        }
        let ti = top.unwrap();
        let bi = bottom.unwrap();
        if Self::find_id(&self.vlink_ids, id).is_some() {
            return Err(SolverError::DuplicateIdentity);
        }
        proof {
            assert(ti as int == idx_of(self.hlink_ids@, top_id));
            assert(bi as int == idx_of_id(self.nodes@, bottom_id));
        }
        let layer = self.nodes[bi].layer;
        let vidx = self.vlinks.len();
        self.vlinks.push(VLink::new(ti, bi));
        self.vlink_ids.push(id);
        Self::register_level(&mut self.vlink_levels, layer, vidx);
        proof {
            let oldvs = old(self).vlinks@;
            lemma_find_level_range(old(self).vlink_levels@, layer);
            let k = find_level(old(self).vlink_levels@, layer);
            if k >= 0 {
                lemma_groups_grow(
                    groups_of(old(self).vlink_levels@),
                    k,
                    vidx,
                    oldvs.len(),
                    self.vlinks@.len(),
                );
            } else {
                lemma_groups_push(
                    groups_of(old(self).vlink_levels@),
                    vidx,
                    oldvs.len(),
                    self.vlinks@.len(),
                );
            }
            assert forall|i: int, j: int|
                #![trigger self.vlink_ids@[i], self.vlink_ids@[j]]
                0 <= i < j < self.vlink_ids@.len() implies self.vlink_ids@[i]
                != self.vlink_ids@[j] by {
                if j < old(self).vlink_ids@.len() {
                    assert(old(self).vlink_ids@[i] != old(self).vlink_ids@[j]);
                } else {
                    assert(self.vlink_ids@[i] == old(self).vlink_ids@[i]);
                }
            }
            assert forall|i: int|
                0 <= i < self.vlinks@.len() implies v_in_bounds(
                #[trigger] self.vlinks@[i],
                self.hlinks@,
                self.nodes@.len(),
            ) by {
                if i < oldvs.len() {
                    assert(v_in_bounds(oldvs[i], self.hlinks@, self.nodes@.len()));
                } else {
                    assert(self.vlinks@[i] == (VLink { top: ti, bottom: bi }));
                }
            }
        }
        Ok(())
    }

    /// External position override for interactive drag: writes the node's
    /// position directly, leaving velocity and acceleration alone.
    pub fn update_node(&mut self, id: u64, pos: i64) -> (r: Result<(), SolverError>)
        requires
            old(self).wf(),
            iabs(pos as int) <= POS_LIMIT,
        ensures
            final(self).wf(),
            ({
                let i = idx_of_id(old(self).nodes@, id);
                if has_node_id(old(self).nodes@, id) {
                    &&& r == Result::<(), SolverError>::Ok(())
                    &&& final(self).nodes@ == old(self).nodes@.update(
                        i,
                        Node { pos, ..old(self).nodes@[i] },
                    )
                    &&& final(self).rk4@ == old(self).rk4@
                    &&& final(self).hlinks@ == old(self).hlinks@
                    &&& final(self).vlinks@ == old(self).vlinks@
                    &&& final(self).hlink_ids@ == old(self).hlink_ids@
                    &&& final(self).vlink_ids@ == old(self).vlink_ids@
                    &&& final(self).node_levels@ == old(self).node_levels@
                    &&& final(self).hlink_levels@ == old(self).hlink_levels@
                    &&& final(self).vlink_levels@ == old(self).vlink_levels@
                } else {
                    r == Result::<(), SolverError>::Err(SolverError::UnknownReference) && *final(self) == *old(self)
                }
            }),
    {
        match Self::find_node(&self.nodes, id) {
            Some(i) => {
                proof {
                    assert(i as int == idx_of_id(self.nodes@, id));
                }
                let mut n = self.nodes[i];
                n.pos = pos;
                self.nodes.set(i, n);
                Ok(())
            },
            None => Err(SolverError::UnknownReference),
        }
    }

    /// The position report: every node's identity and current position,
    /// in arena (insertion) order.
    pub fn sync(&self) -> (r: Vec<(u64, i64)>)
        ensures
            r@.len() == self.nodes@.len(),
            forall|i: int|
                0 <= i < r@.len() ==> #[trigger] r@[i] == (self.nodes@[i].id, self.nodes@[i].pos),
    {
        let n = self.nodes.len();
        let mut out: Vec<(u64, i64)> = Vec::new();
        let mut k: usize = 0;
        while k < n
            invariant
                k <= n,
                n == self.nodes@.len(),
                out@.len() == k,
                forall|i: int|
                    0 <= i < k ==> #[trigger] out@[i] == (
                        self.nodes@[i].id,
                        self.nodes@[i].pos,
                    ),
            decreases n - k,
        {
            out.push(self.nodes[k].sync());
            k = k + 1;
        }
        out
    }
}

impl Default for Solver {
    fn default() -> (s: Solver)
        ensures
            s.wf(),
            s.nodes@.len() == 0,
            s.hlinks@.len() == 0,
            s.vlinks@.len() == 0,
    {
        Solver::new()
    }
}

/// Every node advanced by one sub-step of `dt`.
pub open spec fn stepped_all(ns: Seq<Node>, dt: int) -> Seq<Node> {
    ns.map_values(|n: Node| step_node(n, dt))
}

/// Stage-0 position and velocity restored, accumulators kept.
pub open spec fn restore_pv(ns: Seq<Node>, base: Seq<Node>) -> Seq<Node> {
    Seq::new(ns.len(), |i: int| Node { pos: base[i].pos, vel: base[i].vel, ..ns[i] })
}

/// The classic fourth-order combination of four derivative samples.
pub open spec fn combine6(k1: int, k2: int, k3: int, k4: int) -> int {
    tdiv(k1 + 2 * k2 + 2 * k3 + k4, 6)
}

/// Stage-0 positions joined with the combined velocity and acceleration
/// of the four samples.
pub open spec fn combined_all(
    base: Seq<Node>,
    s1: Seq<Node>,
    s2: Seq<Node>,
    s3: Seq<Node>,
    s4: Seq<Node>,
) -> Seq<Node> {
    Seq::new(
        base.len(),
        |i: int|
            Node {
                pos: base[i].pos,
                vel: combine6(
                    s1[i].vel as int,
                    s2[i].vel as int,
                    s3[i].vel as int,
                    s4[i].vel as int,
                ) as i64,
                acc: combine6(
                    s1[i].acc as int,
                    s2[i].acc as int,
                    s3[i].acc as int,
                    s4[i].acc as int,
                ) as i64,
                ..base[i]
            },
    )
}

/// One full fourth-order Runge-Kutta step: four force passes at the
/// stage states of the classic scheme, then one advance by `dt` with
/// the weighted combination `(k1 + 2 k2 + 2 k3 + k4) / 6`.
pub open spec fn rk4_step(
    ns: Seq<Node>,
    gs_nodes: Seq<Seq<usize>>,
    hs: Seq<HLink>,
    vs: Seq<VLink>,
    gs_h: Seq<Seq<usize>>,
    gs_v: Seq<Seq<usize>>,
    dt: int,
) -> Seq<Node> {
    let h = tdiv(dt, 2);
    let s1 = pass(ns, gs_nodes, hs, vs, gs_h, gs_v);
    let s2 = pass(stepped_all(s1, h), gs_nodes, hs, vs, gs_h, gs_v);
    let s3 = pass(stepped_all(restore_pv(s2, ns), h), gs_nodes, hs, vs, gs_h, gs_v);
    let s4 = pass(stepped_all(restore_pv(s3, ns), dt), gs_nodes, hs, vs, gs_h, gs_v);
    stepped_all(combined_all(ns, s1, s2, s3, s4), dt)
}

/// `b` keeps `a`'s topology: links, identities and layer tables.
pub open spec fn same_structure(a: Solver, b: Solver) -> bool {
    &&& b.hlinks@ == a.hlinks@
    &&& b.vlinks@ == a.vlinks@
    &&& b.hlink_ids@ == a.hlink_ids@
    &&& b.vlink_ids@ == a.vlink_ids@
    &&& b.node_levels@ == a.node_levels@
    &&& b.hlink_levels@ == a.hlink_levels@
    &&& b.vlink_levels@ == a.vlink_levels@
}

/// Apply one node-node interaction inside the arena.
fn interact_at(nodes: &mut Vec<Node>, i: usize, j: usize, s: &Spring)
    requires
        i < old(nodes)@.len(),
        j < old(nodes)@.len(),
        wf_nodes(old(nodes)@),
        s.wf(),
    ensures
        final(nodes)@ == pair_one(old(nodes)@, i as int, j as int, *s),
        wf_nodes(final(nodes)@),
        same_frame(old(nodes)@, final(nodes)@),
{
    let mut a = nodes[i];
    let mut b = nodes[j];
    a.interact(&mut b, s);
    nodes.set(i, a);
    nodes.set(j, b);
    proof {
        assert(nodes@ =~= pair_one(old(nodes)@, i as int, j as int, *s));
        assert forall|k: int| 0 <= k < nodes@.len() implies (#[trigger] nodes@[k]).wf() by {
            assert(old(nodes)@[k].wf());
        }
    }
}

/// Stage 1 of the pass, executable: reset and seed every accumulator.
#[verifier::loop_isolation(false)]
fn drag_phase(nodes: &mut Vec<Node>, visc: i64)
    requires
        0 <= visc <= COEFF_LIMIT,
        wf_nodes(old(nodes)@),
    ensures
        final(nodes)@ == drag_all(old(nodes)@, visc as int),
        wf_nodes(final(nodes)@),
        same_frame(old(nodes)@, final(nodes)@),
{
    let n = nodes.len();
    let mut k: usize = 0;
    while k < n
        invariant
            k <= n,
            nodes@.len() == n,
            forall|i: int|
                0 <= i < k ==> #[trigger] nodes@[i] == dragged(old(nodes)@[i], visc as int),
            forall|i: int| k <= i < n ==> #[trigger] nodes@[i] == old(nodes)@[i],
            forall|i: int| 0 <= i < k ==> (#[trigger] nodes@[i]).wf(),
        decreases n - k,
    {
        let mut nd = nodes[k];
        nd.clear();
        nd.frict(visc);
        nodes.set(k, nd);
        k = k + 1;
    }
    proof {
        assert(nodes@ =~= drag_all(old(nodes)@, visc as int));
    }
}

/// Node-node repulsion over every pair of one layer group.
#[verifier::loop_isolation(false)]
fn pair_group(nodes: &mut Vec<Node>, g: &Vec<usize>, s: &Spring)
    requires
        wf_nodes(old(nodes)@),
        s.wf(),
        forall|j: int| 0 <= j < g@.len() ==> (#[trigger] g@[j]) < old(nodes)@.len(),
    ensures
        final(nodes)@ == pair_sweep(old(nodes)@, g@, *s),
        wf_nodes(final(nodes)@),
        same_frame(old(nodes)@, final(nodes)@),
{
    let m = g.len();
    proof {
        assert(g@.skip(0) =~= g@);
    }
    let mut a: usize = 0;
    while a < m
        invariant
            a <= m,
            wf_nodes(nodes@),
            same_frame(old(nodes)@, nodes@),
            pair_sweep(nodes@, g@.skip(a as int), *s) == pair_sweep(old(nodes)@, g@, *s),
        decreases m - a,
    {
        let ga = g[a];
        proof {
            lemma_skip_step(g@, a as int);
        }
        let mut b: usize = a + 1;
        while b < m
            invariant
                a < m,
                a + 1 <= b <= m,
                ga == g@[a as int],
                wf_nodes(nodes@),
                same_frame(old(nodes)@, nodes@),
                pair_sweep(
                    pair_from(nodes@, ga, g@.skip(b as int), *s),
                    g@.skip(a as int + 1),
                    *s,
                ) == pair_sweep(old(nodes)@, g@, *s),
            decreases m - b,
        {
            let gb = g[b];
            proof {
                lemma_skip_step(g@, b as int);
            }
            interact_at(nodes, ga, gb, s);
            b = b + 1;
        }
        proof {
            assert(g@.skip(b as int).len() == 0);
        }
        a = a + 1;
    }
    proof {
        assert(g@.skip(a as int).len() == 0);
    }
}

/// Node-node repulsion within every layer group.
#[verifier::loop_isolation(false)]
fn pair_phase(nodes: &mut Vec<Node>, levels: &Vec<(i64, Vec<usize>)>, s: &Spring)
    requires
        wf_nodes(old(nodes)@),
        s.wf(),
        groups_in_bounds(groups_of(levels@), old(nodes)@.len()),
    ensures
        final(nodes)@ == pair_levels(old(nodes)@, groups_of(levels@), *s),
        wf_nodes(final(nodes)@),
        same_frame(old(nodes)@, final(nodes)@),
{
    let ln = levels.len();
    proof {
        assert(groups_of(levels@).skip(0) =~= groups_of(levels@));
    }
    let mut li: usize = 0;
    while li < ln
        invariant
            li <= ln,
            wf_nodes(nodes@),
            same_frame(old(nodes)@, nodes@),
            pair_levels(nodes@, groups_of(levels@).skip(li as int), *s) == pair_levels(
                old(nodes)@,
                groups_of(levels@),
                *s,
            ),
        decreases ln - li,
    {
        proof {
            lemma_skip_step(groups_of(levels@), li as int);
            assert(groups_of(levels@)[li as int] == levels@[li as int].1@);
        }
        pair_group(nodes, &levels[li].1, s);
        li = li + 1;
    }
    proof {
        assert(groups_of(levels@).skip(li as int).len() == 0);
    }
}

/// Every horizontal link's own spring.
#[verifier::loop_isolation(false)]
fn hlink_phase(nodes: &mut Vec<Node>, hlinks: &Vec<HLink>, s: &Spring)
    requires
        wf_nodes(old(nodes)@),
        s.wf(),
        forall|i: int|
            0 <= i < hlinks@.len() ==> h_in_bounds(#[trigger] hlinks@[i], old(nodes)@.len()),
    ensures
        final(nodes)@ == h_act_all(old(nodes)@, hlinks@, *s),
        wf_nodes(final(nodes)@),
        same_frame(old(nodes)@, final(nodes)@),
{
    let n = hlinks.len();
    proof {
        assert(hlinks@.skip(0) =~= hlinks@);
    }
    let mut k: usize = 0;
    while k < n
        invariant
            k <= n,
            wf_nodes(nodes@),
            same_frame(old(nodes)@, nodes@),
            h_act_all(nodes@, hlinks@.skip(k as int), *s) == h_act_all(old(nodes)@, hlinks@, *s),
        decreases n - k,
    {
        proof {
            lemma_skip_step(hlinks@, k as int);
        }
        let h = hlinks[k];
        h.act(nodes, s);
        k = k + 1;
    }
    proof {
        assert(hlinks@.skip(k as int).len() == 0);
    }
}

/// Every vertical link's spring.
#[verifier::loop_isolation(false)]
fn vlink_phase(nodes: &mut Vec<Node>, hlinks: &Vec<HLink>, vlinks: &Vec<VLink>, s: &Spring)
    requires
        wf_nodes(old(nodes)@),
        s.wf(),
        forall|i: int|
            0 <= i < vlinks@.len() ==> v_in_bounds(#[trigger] vlinks@[i], hlinks@, old(nodes)@.len()),
    ensures
        final(nodes)@ == v_act_all(old(nodes)@, hlinks@, vlinks@, *s),
        wf_nodes(final(nodes)@),
        same_frame(old(nodes)@, final(nodes)@),
{
    let n = vlinks.len();
    proof {
        assert(vlinks@.skip(0) =~= vlinks@);
    }
    let mut k: usize = 0;
    while k < n
        invariant
            k <= n,
            wf_nodes(nodes@),
            same_frame(old(nodes)@, nodes@),
            v_act_all(nodes@, hlinks@, vlinks@.skip(k as int), *s) == v_act_all(
                old(nodes)@,
                hlinks@,
                vlinks@,
                *s,
            ),
        decreases n - k,
    {
        proof {
            lemma_skip_step(vlinks@, k as int);
        }
        let v = vlinks[k];
        v.act(nodes, hlinks, s);
        k = k + 1;
    }
    proof {
        assert(vlinks@.skip(k as int).len() == 0);
    }
}

/// Horizontal collision avoidance over every pair of one layer group.
#[verifier::loop_isolation(false)]
fn hh_group(nodes: &mut Vec<Node>, hlinks: &Vec<HLink>, g: &Vec<usize>, s: &Spring)
    requires
        wf_nodes(old(nodes)@),
        s.wf(),
        forall|i: int|
            0 <= i < hlinks@.len() ==> h_in_bounds(#[trigger] hlinks@[i], old(nodes)@.len()),
        forall|j: int| 0 <= j < g@.len() ==> (#[trigger] g@[j]) < hlinks@.len(),
    ensures
        final(nodes)@ == hh_sweep(old(nodes)@, hlinks@, g@, *s),
        wf_nodes(final(nodes)@),
        same_frame(old(nodes)@, final(nodes)@),
{
    let m = g.len();
    proof {
        assert(g@.skip(0) =~= g@);
    }
    let mut a: usize = 0;
    while a < m
        invariant
            a <= m,
            wf_nodes(nodes@),
            same_frame(old(nodes)@, nodes@),
            hh_sweep(nodes@, hlinks@, g@.skip(a as int), *s) == hh_sweep(
                old(nodes)@,
                hlinks@,
                g@,
                *s,
            ),
        decreases m - a,
    {
        let ga = g[a];
        proof {
            lemma_skip_step(g@, a as int);
        }
        let mut b: usize = a + 1;
        while b < m
            invariant
                a < m,
                a + 1 <= b <= m,
                ga == g@[a as int],
                wf_nodes(nodes@),
                same_frame(old(nodes)@, nodes@),
                hh_sweep(
                    hh_from(nodes@, hlinks@, ga, g@.skip(b as int), *s),
                    hlinks@,
                    g@.skip(a as int + 1),
                    *s,
                ) == hh_sweep(old(nodes)@, hlinks@, g@, *s),
            decreases m - b,
        {
            let gb = g[b];
            proof {
                lemma_skip_step(g@, b as int);
            }
            let ha = hlinks[ga];
            let hb = hlinks[gb];
            ha.intersect(&hb, nodes, s);
            b = b + 1;
        }
        proof {
            assert(g@.skip(b as int).len() == 0);
        }
        a = a + 1;
    }
    proof {
        assert(g@.skip(a as int).len() == 0);
    }
}

/// Horizontal collision avoidance within every layer group.
#[verifier::loop_isolation(false)]
fn hh_phase(nodes: &mut Vec<Node>, hlinks: &Vec<HLink>, levels: &Vec<(i64, Vec<usize>)>, s: &Spring)
    requires
        wf_nodes(old(nodes)@),
        s.wf(),
        forall|i: int|
            0 <= i < hlinks@.len() ==> h_in_bounds(#[trigger] hlinks@[i], old(nodes)@.len()),
        groups_in_bounds(groups_of(levels@), hlinks@.len()),
    ensures
        final(nodes)@ == hh_levels(old(nodes)@, hlinks@, groups_of(levels@), *s),
        wf_nodes(final(nodes)@),
        same_frame(old(nodes)@, final(nodes)@),
{
    let ln = levels.len();
    proof {
        assert(groups_of(levels@).skip(0) =~= groups_of(levels@));
    }
    let mut li: usize = 0;
    while li < ln
        invariant
            li <= ln,
            wf_nodes(nodes@),
            same_frame(old(nodes)@, nodes@),
            hh_levels(nodes@, hlinks@, groups_of(levels@).skip(li as int), *s) == hh_levels(
                old(nodes)@,
                hlinks@,
                groups_of(levels@),
                *s,
            ),
        decreases ln - li,
    {
        proof {
            lemma_skip_step(groups_of(levels@), li as int);
            assert(groups_of(levels@)[li as int] == levels@[li as int].1@);
        }
        hh_group(nodes, hlinks, &levels[li].1, s);
        li = li + 1;
    }
    proof {
        assert(groups_of(levels@).skip(li as int).len() == 0);
    }
}

/// Vertical collision avoidance over every pair of one layer group.
#[verifier::loop_isolation(false)]
fn vv_group(
    nodes: &mut Vec<Node>,
    hlinks: &Vec<HLink>,
    vlinks: &Vec<VLink>,
    g: &Vec<usize>,
    s: &Spring,
)
    requires
        wf_nodes(old(nodes)@),
        s.wf(),
        forall|i: int|
            0 <= i < vlinks@.len() ==> v_in_bounds(#[trigger] vlinks@[i], hlinks@, old(nodes)@.len()),
        forall|j: int| 0 <= j < g@.len() ==> (#[trigger] g@[j]) < vlinks@.len(),
    ensures
        final(nodes)@ == vv_sweep(old(nodes)@, hlinks@, vlinks@, g@, *s),
        wf_nodes(final(nodes)@),
        same_frame(old(nodes)@, final(nodes)@),
{
    let m = g.len();
    proof {
        assert(g@.skip(0) =~= g@);
    }
    let mut a: usize = 0;
    while a < m
        invariant
            a <= m,
            wf_nodes(nodes@),
            same_frame(old(nodes)@, nodes@),
            vv_sweep(nodes@, hlinks@, vlinks@, g@.skip(a as int), *s) == vv_sweep(
                old(nodes)@,
                hlinks@,
                vlinks@,
                g@,
                *s,
            ),
        decreases m - a,
    {
        let ga = g[a];
        proof {
            lemma_skip_step(g@, a as int);
        }
        let mut b: usize = a + 1;
        while b < m
            invariant
                a < m,
                a + 1 <= b <= m,
                ga == g@[a as int],
                wf_nodes(nodes@),
                same_frame(old(nodes)@, nodes@),
                vv_sweep(
                    vv_from(nodes@, hlinks@, vlinks@, ga, g@.skip(b as int), *s),
                    hlinks@,
                    vlinks@,
                    g@.skip(a as int + 1),
                    *s,
                ) == vv_sweep(old(nodes)@, hlinks@, vlinks@, g@, *s),
            decreases m - b,
        {
            let gb = g[b];
            proof {
                lemma_skip_step(g@, b as int);
            }
            let va = vlinks[ga];
            let vb = vlinks[gb];
            va.intersect(&vb, nodes, hlinks, s);
            b = b + 1;
        }
        proof {
            assert(g@.skip(b as int).len() == 0);
        }
        a = a + 1;
    }
    proof {
        assert(g@.skip(a as int).len() == 0);
    }
}

/// Vertical collision avoidance within every layer group.
#[verifier::loop_isolation(false)]
fn vv_phase(
    nodes: &mut Vec<Node>,
    hlinks: &Vec<HLink>,
    vlinks: &Vec<VLink>,
    levels: &Vec<(i64, Vec<usize>)>,
    s: &Spring,
)
    requires
        wf_nodes(old(nodes)@),
        s.wf(),
        forall|i: int|
            0 <= i < vlinks@.len() ==> v_in_bounds(#[trigger] vlinks@[i], hlinks@, old(nodes)@.len()),
        groups_in_bounds(groups_of(levels@), vlinks@.len()),
    ensures
        final(nodes)@ == vv_levels(old(nodes)@, hlinks@, vlinks@, groups_of(levels@), *s),
        wf_nodes(final(nodes)@),
        same_frame(old(nodes)@, final(nodes)@),
{
    let ln = levels.len();
    proof {
        assert(groups_of(levels@).skip(0) =~= groups_of(levels@));
    }
    let mut li: usize = 0;
    while li < ln
        invariant
            li <= ln,
            wf_nodes(nodes@),
            same_frame(old(nodes)@, nodes@),
            vv_levels(nodes@, hlinks@, vlinks@, groups_of(levels@).skip(li as int), *s)
                == vv_levels(old(nodes)@, hlinks@, vlinks@, groups_of(levels@), *s),
        decreases ln - li,
    {
        proof {
            lemma_skip_step(groups_of(levels@), li as int);
            assert(groups_of(levels@)[li as int] == levels@[li as int].1@);
        }
        vv_group(nodes, hlinks, vlinks, &levels[li].1, s);
        li = li + 1;
    }
    proof {
        assert(groups_of(levels@).skip(li as int).len() == 0);
    }
}

impl Solver {
    /// One full force-compute pass: zero and seed every accumulator,
    /// then accumulate every interaction from the frozen snapshot.
    pub fn compute(&mut self)
        requires
            old(self).wf(),
        ensures
            final(self).wf(),
            final(self).nodes@ == pass(
                old(self).nodes@,
                groups_of(old(self).node_levels@),
                old(self).hlinks@,
                old(self).vlinks@,
                groups_of(old(self).hlink_levels@),
                groups_of(old(self).vlink_levels@),
            ),
            same_frame(old(self).nodes@, final(self).nodes@),
            final(self).rk4@ == old(self).rk4@,
            final(self).hlinks@ == old(self).hlinks@,
            final(self).vlinks@ == old(self).vlinks@,
            final(self).hlink_ids@ == old(self).hlink_ids@,
            final(self).vlink_ids@ == old(self).vlink_ids@,
            final(self).node_levels@ == old(self).node_levels@,
            final(self).hlink_levels@ == old(self).hlink_levels@,
            final(self).vlink_levels@ == old(self).vlink_levels@,
    {
        let p = profile();
        drag_phase(&mut self.nodes, p.visc);
        pair_phase(&mut self.nodes, &self.node_levels, &p.node);
        hlink_phase(&mut self.nodes, &self.hlinks, &p.hor);
        vlink_phase(&mut self.nodes, &self.hlinks, &self.vlinks, &p.ver);
        hh_phase(&mut self.nodes, &self.hlinks, &self.hlink_levels, &p.hor_inter);
        vv_phase(&mut self.nodes, &self.hlinks, &self.vlinks, &self.vlink_levels, &p.ver_inter);
        proof {
            let ons = old(self).nodes@;
            assert(same_frame(ons, self.nodes@));
            assert forall|i: int, j: int|
                #![trigger self.nodes@[i].id, self.nodes@[j].id]
                0 <= i < j < self.nodes@.len() implies self.nodes@[i].id != self.nodes@[j].id by {
                assert(ons[i].id != ons[j].id);
            }
            assert forall|i: int|
                0 <= i < self.hlinks@.len() implies self.nodes@[(
                #[trigger] self.hlinks@[i]).left as int].layer == self.nodes@[self.hlinks@[i].right as int].layer by {
                assert(ons[self.hlinks@[i].left as int].layer == ons[self.hlinks@[i].right as int].layer);
            }
        }
    }

    /// Advance every node by one sub-step of `dt`.
    #[verifier::loop_isolation(false)]
    pub fn step(&mut self, dt: i64)
        requires
            old(self).wf(),
            0 <= dt <= DT_LIMIT,
        ensures
            final(self).wf(),
            final(self).nodes@ == stepped_all(old(self).nodes@, dt as int),
            same_frame(old(self).nodes@, final(self).nodes@),
            same_structure(*old(self), *final(self)),
            final(self).rk4@ == old(self).rk4@,
    {
        let n = self.nodes.len();
        let mut k: usize = 0;
        while k < n
            invariant
                k <= n,
                self.nodes@.len() == n,
                self.rk4@ == old(self).rk4@,
                same_structure(*old(self), *self),
                forall|i: int|
                    0 <= i < k ==> #[trigger] self.nodes@[i] == step_node(
                        old(self).nodes@[i],
                        dt as int,
                    ),
                forall|i: int| 0 <= i < k ==> (#[trigger] self.nodes@[i]).wf(),
                forall|i: int| k <= i < n ==> #[trigger] self.nodes@[i] == old(self).nodes@[i],
            decreases n - k,
        {
            let mut nd = self.nodes[k];
            nd.step(dt);
            self.nodes.set(k, nd);
            k = k + 1;
        }
        proof {
            let ons = old(self).nodes@;
            assert(self.nodes@ =~= stepped_all(ons, dt as int));
            assert forall|i: int, j: int|
                #![trigger self.nodes@[i].id, self.nodes@[j].id]
                0 <= i < j < self.nodes@.len() implies self.nodes@[i].id != self.nodes@[j].id by {
                assert(ons[i].id != ons[j].id);
            }
            assert forall|i: int|
                0 <= i < self.hlinks@.len() implies self.nodes@[(
                #[trigger] self.hlinks@[i]).left as int].layer == self.nodes@[self.hlinks@[i].right as int].layer by {
                assert(ons[self.hlinks@[i].left as int].layer
                    == ons[self.hlinks@[i].right as int].layer);
            }
        }
    }

    /// One output timestep: the classic fourth-order Runge-Kutta scheme,
    /// running four force-compute passes and combining the four sampled
    /// derivatives into a single advance by `dt`.
    #[verifier::loop_isolation(false)]
    #[verifier::rlimit(100)]
    pub fn solve(&mut self, dt: i64)
        requires
            old(self).wf(),
            0 < dt <= DT_LIMIT,
        ensures
            final(self).wf(),
            final(self).nodes@ == rk4_step(
                old(self).nodes@,
                groups_of(old(self).node_levels@),
                old(self).hlinks@,
                old(self).vlinks@,
                groups_of(old(self).hlink_levels@),
                groups_of(old(self).vlink_levels@),
                dt as int,
            ),
            same_frame(old(self).nodes@, final(self).nodes@),
            same_structure(*old(self), *final(self)),
            final(self).rk4@.len() == old(self).rk4@.len(),
    {
        let ghost base = self.nodes@;
        let n = self.nodes.len();

        // Stage 0: snapshot every node's position and velocity.
        let mut k: usize = 0;
        while k < n
            invariant
                k <= n,
                self.nodes@ == base,
                base.len() == n,
                self.rk4@.len() == n,
                same_structure(*old(self), *self),
                forall|i: int|
                    0 <= i < k ==> #[trigger] self.rk4@[i] == (Rk4 {
                        pos: base[i].pos,
                        vel: base[i].vel,
                        v1: 0i64,
                        v2: 0i64,
                        v3: 0i64,
                        v4: 0i64,
                        a1: 0i64,
                        a2: 0i64,
                        a3: 0i64,
                        a4: 0i64,
                    }),
            decreases n - k,
        {
            let nd = self.nodes[k];
            self.rk4.set(
                k,
                Rk4 {
                    pos: nd.pos,
                    vel: nd.vel,
                    v1: 0,
                    v2: 0,
                    v3: 0,
                    v4: 0,
                    a1: 0,
                    a2: 0,
                    a3: 0,
                    a4: 0,
                },
            );
            k = k + 1;
        }
        proof {
            assert(self.wf());
        }

        // Stage 1: force pass at the snapshot, then sample.
        self.compute();
        let ghost s1 = self.nodes@;
        let ghost rk0 = self.rk4@;
        k = 0;
        while k < n
            invariant
                k <= n,
                self.nodes@ == s1,
                s1.len() == n,
                self.rk4@.len() == n,
                same_structure(*old(self), *self),
                forall|i: int|
                    0 <= i < k ==> #[trigger] self.rk4@[i] == (Rk4 {
                        v1: s1[i].vel,
                        a1: s1[i].acc,
                        ..rk0[i]
                    }),
                forall|i: int| k <= i < n ==> #[trigger] self.rk4@[i] == rk0[i],
            decreases n - k,
        {
            let mut r = self.rk4[k];
            r.v1 = self.nodes[k].vel;
            r.a1 = self.nodes[k].acc;
            self.rk4.set(k, r);
            k = k + 1;
        }
        let ghost rk1 = self.rk4@;
        proof {
            assert(self.wf());
            assert(same_frame(base, s1));
        }

        // Stage 2: advance half a step along sample 1, pass, sample.
        let half: i64 = dt / 2;
        self.step(half);
        self.compute();
        let ghost s2 = self.nodes@;
        k = 0;
        while k < n
            invariant
                k <= n,
                self.nodes@ == s2,
                s2.len() == n,
                self.rk4@.len() == n,
                same_structure(*old(self), *self),
                forall|i: int|
                    0 <= i < k ==> #[trigger] self.rk4@[i] == (Rk4 {
                        v2: s2[i].vel,
                        a2: s2[i].acc,
                        ..rk1[i]
                    }),
                forall|i: int| k <= i < n ==> #[trigger] self.rk4@[i] == rk1[i],
            decreases n - k,
        {
            let mut r = self.rk4[k];
            r.v2 = self.nodes[k].vel;
            r.a2 = self.nodes[k].acc;
            self.rk4.set(k, r);
            k = k + 1;
        }
        let ghost rk2 = self.rk4@;
        proof {
            assert(self.wf());
            assert(same_frame(base, s2));
        }

        // Stage 3: restore the snapshot state, advance half a step along
        // sample 2, pass, sample.
        k = 0;
        while k < n
            invariant
                k <= n,
                self.nodes@.len() == n,
                self.rk4@ == rk2,
                same_structure(*old(self), *self),
                forall|i: int|
                    0 <= i < k ==> #[trigger] self.nodes@[i] == (Node {
                        pos: base[i].pos,
                        vel: base[i].vel,
                        ..s2[i]
                    }),
                forall|i: int| 0 <= i < k ==> (#[trigger] self.nodes@[i]).wf(),
                forall|i: int| k <= i < n ==> #[trigger] self.nodes@[i] == s2[i],
            decreases n - k,
        {
            let mut nd = self.nodes[k];
            let r = self.rk4[k];
            nd.pos = r.pos;
            nd.vel = r.vel;
            self.nodes.set(k, nd);
            k = k + 1;
        }
        proof {
            assert(self.nodes@ =~= restore_pv(s2, base));
            assert forall|i: int, j: int|
                #![trigger self.nodes@[i].id, self.nodes@[j].id]
                0 <= i < j < self.nodes@.len() implies self.nodes@[i].id != self.nodes@[j].id by {
                assert(s2[i].id != s2[j].id);
            }
            assert forall|i: int|
                0 <= i < self.hlinks@.len() implies self.nodes@[(
                #[trigger] self.hlinks@[i]).left as int].layer == self.nodes@[self.hlinks@[i].right as int].layer by {
                assert(s2[self.hlinks@[i].left as int].layer
                    == s2[self.hlinks@[i].right as int].layer);
            }
            assert(self.wf());
        }
        self.step(half);
        self.compute();
        let ghost s3 = self.nodes@;
        k = 0;
        while k < n
            invariant
                k <= n,
                self.nodes@ == s3,
                s3.len() == n,
                self.rk4@.len() == n,
                same_structure(*old(self), *self),
                forall|i: int|
                    0 <= i < k ==> #[trigger] self.rk4@[i] == (Rk4 {
                        v3: s3[i].vel,
                        a3: s3[i].acc,
                        ..rk2[i]
                    }),
                forall|i: int| k <= i < n ==> #[trigger] self.rk4@[i] == rk2[i],
            decreases n - k,
        {
            let mut r = self.rk4[k];
            r.v3 = self.nodes[k].vel;
            r.a3 = self.nodes[k].acc;
            self.rk4.set(k, r);
            k = k + 1;
        }
        let ghost rk3 = self.rk4@;
        proof {
            assert(self.wf());
            assert(same_frame(base, s3));
        }

        // Stage 4: restore the snapshot state again, advance a full
        // step along sample 3, pass, sample.
        k = 0;
        while k < n
            invariant
                k <= n,
                self.nodes@.len() == n,
                self.rk4@ == rk3,
                same_structure(*old(self), *self),
                forall|i: int|
                    0 <= i < k ==> #[trigger] self.nodes@[i] == (Node {
                        pos: base[i].pos,
                        vel: base[i].vel,
                        ..s3[i]
                    }),
                forall|i: int| 0 <= i < k ==> (#[trigger] self.nodes@[i]).wf(),
                forall|i: int| k <= i < n ==> #[trigger] self.nodes@[i] == s3[i],
            decreases n - k,
        {
            let mut nd = self.nodes[k];
            let r = self.rk4[k];
            nd.pos = r.pos;
            nd.vel = r.vel;
            self.nodes.set(k, nd);
            k = k + 1;
        }
        proof {
            assert(self.nodes@ =~= restore_pv(s3, base));
            assert forall|i: int, j: int|
                #![trigger self.nodes@[i].id, self.nodes@[j].id]
                0 <= i < j < self.nodes@.len() implies self.nodes@[i].id != self.nodes@[j].id by {
                assert(s3[i].id != s3[j].id);
            }
            assert forall|i: int|
                0 <= i < self.hlinks@.len() implies self.nodes@[(
                #[trigger] self.hlinks@[i]).left as int].layer == self.nodes@[self.hlinks@[i].right as int].layer by {
                assert(s3[self.hlinks@[i].left as int].layer
                    == s3[self.hlinks@[i].right as int].layer);
            }
            assert(self.wf());
        }
        self.step(dt);
        self.compute();
        let ghost s4 = self.nodes@;
        k = 0;
        while k < n
            invariant
                k <= n,
                self.nodes@ == s4,
                s4.len() == n,
                self.rk4@.len() == n,
                same_structure(*old(self), *self),
                forall|i: int|
                    0 <= i < k ==> #[trigger] self.rk4@[i] == (Rk4 {
                        v4: s4[i].vel,
                        a4: s4[i].acc,
                        ..rk3[i]
                    }),
                forall|i: int| k <= i < n ==> #[trigger] self.rk4@[i] == rk3[i],
            decreases n - k,
        {
            let mut r = self.rk4[k];
            r.v4 = self.nodes[k].vel;
            r.a4 = self.nodes[k].acc;
            self.rk4.set(k, r);
            k = k + 1;
        }
        let ghost rk4s = self.rk4@;
        proof {
            assert(self.wf());
            assert(same_frame(base, s4));
            assert(wf_nodes(s1));
            assert(wf_nodes(s2));
            assert(wf_nodes(s3));
            assert(wf_nodes(s4));
        }

        // Combine: stage-0 positions with the weighted derivative mix,
        // then one final advance by `dt`.
        k = 0;
        while k < n
            invariant
                k <= n,
                self.nodes@.len() == n,
                self.rk4@ == rk4s,
                same_structure(*old(self), *self),
                forall|i: int|
                    0 <= i < k ==> #[trigger] self.nodes@[i] == combined_all(
                        base,
                        s1,
                        s2,
                        s3,
                        s4,
                    )[i],
                forall|i: int| 0 <= i < k ==> (#[trigger] self.nodes@[i]).wf(),
                forall|i: int| k <= i < n ==> #[trigger] self.nodes@[i] == s4[i],
            decreases n - k,
        {
            let r = self.rk4[k];
            proof {
                assert(r == (Rk4 {
                    pos: base[k as int].pos,
                    vel: base[k as int].vel,
                    v1: s1[k as int].vel,
                    v2: s2[k as int].vel,
                    v3: s3[k as int].vel,
                    v4: s4[k as int].vel,
                    a1: s1[k as int].acc,
                    a2: s2[k as int].acc,
                    a3: s3[k as int].acc,
                    a4: s4[k as int].acc,
                }));
                lemma_tdiv_bound(
                    r.v1 + 2 * r.v2 + 2 * r.v3 + r.v4,
                    6,
                    VEL_LIMIT as int,
                );
                lemma_tdiv_bound(
                    r.a1 + 2 * r.a2 + 2 * r.a3 + r.a4,
                    6,
                    ACC_LIMIT as int,
                );
            }
            let sv: i64 = sixth64(r.v1 + 2 * r.v2 + 2 * r.v3 + r.v4);
            let sa: i64 = sixth64(r.a1 + 2 * r.a2 + 2 * r.a3 + r.a4);
            let mut nd = self.nodes[k];
            nd.pos = r.pos;
            nd.vel = sv;
            nd.acc = sa;
            self.nodes.set(k, nd);
            k = k + 1;
        }
        proof {
            assert(self.nodes@ =~= combined_all(base, s1, s2, s3, s4));
            assert forall|i: int, j: int|
                #![trigger self.nodes@[i].id, self.nodes@[j].id]
                0 <= i < j < self.nodes@.len() implies self.nodes@[i].id != self.nodes@[j].id by {
                assert(base[i].id != base[j].id);
            }
            assert forall|i: int|
                0 <= i < self.hlinks@.len() implies self.nodes@[(
                #[trigger] self.hlinks@[i]).left as int].layer == self.nodes@[self.hlinks@[i].right as int].layer by {
                assert(base[self.hlinks@[i].left as int].layer
                    == base[self.hlinks@[i].right as int].layer);
            }
            assert(self.wf());
        }
        self.step(dt);
        proof {
            assert(self.nodes@ == rk4_step(
                base,
                groups_of(old(self).node_levels@),
                old(self).hlinks@,
                old(self).vlinks@,
                groups_of(old(self).hlink_levels@),
                groups_of(old(self).vlink_levels@),
                dt as int,
            ));
        }
    }
}

} // verus!
