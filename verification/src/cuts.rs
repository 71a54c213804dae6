//! K-feasible cut enumeration with subsumption filtering, and the per-cut
//! arrival-time and area-flow annotations.
//!
//! Area flow here is `1 + Σ area_flow(non-PI leaves)`, saturating at
//! `u64::MAX`: the divisor of the textbook formula is the node's fan-out
//! count, which is zero when this pass runs, so the guarded division is the
//! identity and the flow stays an integer.

use vstd::prelude::*;

use crate::aig::{AIG, AIGNode};
use crate::cut::{union_seq, AIGCut};
use crate::edge::AIGRef;

verus! {

broadcast use vstd::seq_lib::group_seq_properties;

/// The leaf sets of a node's stored cuts.
pub open spec fn cut_views(cuts: Seq<AIGCut>) -> Seq<Seq<AIGRef>> {
    cuts.map_values(|c: AIGCut| c.refs@)
}

/// The candidate cut list contributed by fan-in `f`: its stored cuts (none
/// for a PI) followed by its trivial cut, the non-inverted fan-in itself.
pub open spec fn cand_cuts(nodes: Seq<AIGNode>, f: AIGRef) -> Seq<Seq<AIGRef>> {
    (if f.spec_is_pi() {
        Seq::<Seq<AIGRef>>::empty()
    } else {
        cut_views(nodes[f.spec_index() as int].cuts@)
    }).push(seq![f.spec_noinv()])
}

/// The unions of one left candidate with every right candidate, keeping only
/// the K-feasible ones, in order.
pub open spec fn cross_row(ca: Seq<AIGRef>, cb: Seq<Seq<AIGRef>>, k: int) -> Seq<Seq<AIGRef>>
    decreases cb.len(),
{
    if cb.len() == 0 {
        Seq::<Seq<AIGRef>>::empty()
    } else {
        cross_row(ca, cb.drop_last(), k) + (if union_seq(ca, cb.last()).len() <= k {
            seq![union_seq(ca, cb.last())]
        } else {
            Seq::<Seq<AIGRef>>::empty()
        })
    }
}

/// All K-feasible unions of a left and a right candidate, in loop order.
pub open spec fn cross_all(ca: Seq<Seq<AIGRef>>, cb: Seq<Seq<AIGRef>>, k: int) -> Seq<
    Seq<AIGRef>,
>
    decreases ca.len(),
{
    if ca.len() == 0 {
        Seq::<Seq<AIGRef>>::empty()
    } else {
        cross_all(ca.drop_last(), cb, k) + cross_row(ca.last(), cb, k)
    }
}

/// `a`'s leaves are a strict subset of `b`'s.
pub open spec fn strict_sub(a: Seq<AIGRef>, b: Seq<AIGRef>) -> bool {
    a.to_set().subset_of(b.to_set()) && a.to_set() != b.to_set()
}

/// Cut `i` survives dominance filtering: no other cut's leaf set is a strict
/// subset of its own, and no earlier cut has the same leaf set (of equal
/// cuts exactly the first stays).
pub open spec fn kept(cuts: Seq<Seq<AIGRef>>, i: int) -> bool {
    &&& !(exists|j: int| 0 <= j < cuts.len() && strict_sub(#[trigger] cuts[j], cuts[i]))
    &&& !(exists|j: int| 0 <= j < i && (#[trigger] cuts[j]).to_set() == cuts[i].to_set())
}

/// The indices that survive filtering, in order, from position `i` on.
pub open spec fn kept_idxs(cuts: Seq<Seq<AIGRef>>, i: int) -> Seq<int>
    decreases cuts.len() - i,
{
    if !(0 <= i < cuts.len()) {
        Seq::<int>::empty()
    } else {
        (if kept(cuts, i) {
            seq![i]
        } else {
            Seq::<int>::empty()
        }) + kept_idxs(cuts, i + 1)
    }
}

/// The cuts selected by a list of indices, in that order.
pub open spec fn sel_map(cuts: Seq<Seq<AIGRef>>, idxs: Seq<int>) -> Seq<Seq<AIGRef>> {
    Seq::new(idxs.len(), |p: int| cuts[idxs[p]])
}

/// The filtered cut list: the kept cuts, in order.
pub open spec fn filtered(cuts: Seq<Seq<AIGRef>>) -> Seq<Seq<AIGRef>> {
    sel_map(cuts, kept_idxs(cuts, 0))
}

/// The arrival a leaf contributes: zero for a PI, the node's own arrival
/// otherwise.
pub open spec fn leaf_arrival(nodes: Seq<AIGNode>, r: AIGRef) -> int {
    if r.spec_is_pi() {
        0
    } else {
        nodes[r.spec_index() as int].arrival as int
    }
}

/// The largest leaf arrival of a cut (zero when it is empty).
pub open spec fn max_leaf_arrival(nodes: Seq<AIGNode>, refs: Seq<AIGRef>) -> int
    decreases refs.len(),
{
    if refs.len() == 0 {
        0
    } else {
        let m = max_leaf_arrival(nodes, refs.drop_last());
        let a = leaf_arrival(nodes, refs.last());
        if a > m {
            a
        } else {
            m
        }
    }
}

/// Saturating add on the annotation scalars; `u64::MAX` stands for infinity.
pub open spec fn sat_add(a: u64, b: u64) -> u64 {
    if a + b > u64::MAX {
        u64::MAX
    } else {
        (a + b) as u64
    }
}

/// The area flow a leaf contributes: zero for a PI, the node's flow
/// otherwise.
pub open spec fn leaf_flow(nodes: Seq<AIGNode>, r: AIGRef) -> u64 {
    if r.spec_is_pi() {
        0
    } else {
        nodes[r.spec_index() as int].area_flow
    }
}

/// The saturating sum of the leaf flows of a cut.
pub open spec fn sum_leaf_flow(nodes: Seq<AIGNode>, refs: Seq<AIGRef>) -> u64
    decreases refs.len(),
{
    if refs.len() == 0 {
        0
    } else {
        sat_add(sum_leaf_flow(nodes, refs.drop_last()), leaf_flow(nodes, refs.last()))
    }
}

/// The annotations of a node once its cuts are enumerated: leaf sets equal
/// to the filtered cross product of the fan-in candidates; every cut
/// K-feasible, duplicate-free, with leaves that are PIs or earlier nodes of
/// the order; per-cut arrival `1 + max(leaf arrivals)` and per-cut area flow
/// `1 + Σ leaf flows` (saturating); the node scalars the minima over its
/// cuts, of which there is at least one.
pub open spec fn node_cuts_ok(
    nodes: Seq<AIGNode>,
    i: int,
    k: int,
    npis: int,
    ord: Seq<usize>,
) -> bool {
    let n = nodes[i];
    &&& cut_views(n.cuts@) == filtered(
        cross_all(cand_cuts(nodes, n.inp0), cand_cuts(nodes, n.inp1), k),
    )
    &&& n.cuts@.len() >= 1
    &&& forall|p: int|
        0 <= p < n.cuts@.len() ==> {
            let c = #[trigger] n.cuts@[p];
            &&& c.refs@.no_duplicates()
            &&& c.refs@.len() <= k
            &&& forall|q: int|
                0 <= q < c.refs@.len() ==> {
                    let r = #[trigger] c.refs@[q];
                    &&& r.wf()
                    &&& !r.spec_is_invert()
                    &&& (r.spec_is_pi() ==> r.spec_index() < npis)
                    &&& (!r.spec_is_pi() ==> r.spec_index() < i && ord.contains(
                        (r.spec_index() as usize),
                    ))
                }
            &&& c.arrival as int == 1 + max_leaf_arrival(nodes, c.refs@)
            &&& c.area_flow == sat_add(sum_leaf_flow(nodes, c.refs@), 1)
            &&& c.arrival as int <= i + 1
        }
    &&& (exists|p: int| 0 <= p < n.cuts@.len() && (#[trigger] n.cuts@[p]).arrival == n.arrival)
    &&& forall|p: int| 0 <= p < n.cuts@.len() ==> n.arrival <= (#[trigger] n.cuts@[p]).arrival
    &&& (exists|p: int|
        0 <= p < n.cuts@.len() && (#[trigger] n.cuts@[p]).area_flow == n.area_flow)
    &&& forall|p: int| 0 <= p < n.cuts@.len() ==> n.area_flow <= (#[trigger] n.cuts@[p]).area_flow
    &&& n.arrival as int <= i + 1
}

/// The two nodes agree on everything except cuts and the two scalars.
pub open spec fn node_ann_eq(a: AIGNode, b: AIGNode) -> bool {
    &&& a.name == b.name
    &&& a.inp0 == b.inp0
    &&& a.inp1 == b.inp1
    &&& a.num_fanouts == b.num_fanouts
}

/// Properties of the surviving indices: in range, kept, strictly increasing,
/// and complete for every kept index.
pub proof fn lemma_kept_idxs(cuts: Seq<Seq<AIGRef>>, i: int)
    requires
        0 <= i,
    ensures
        forall|p: int|
            0 <= p < kept_idxs(cuts, i).len() ==> i <= #[trigger] kept_idxs(cuts, i)[p]
                < cuts.len() && kept(cuts, kept_idxs(cuts, i)[p]),
        forall|p: int, q: int|
            0 <= p < q < kept_idxs(cuts, i).len() ==> #[trigger] kept_idxs(cuts, i)[p]
                < #[trigger] kept_idxs(cuts, i)[q],
        forall|j: int| i <= j < cuts.len() && kept(cuts, j) ==> kept_idxs(cuts, i).contains(j),
    decreases cuts.len() - i,
{
    if 0 <= i < cuts.len() {
        lemma_kept_idxs(cuts, i + 1);
        assert forall|j: int| i <= j < cuts.len() && kept(cuts, j) implies kept_idxs(
            cuts,
            i,
        ).contains(j) by {
            if j == i {
                assert(kept_idxs(cuts, i)[0] == i);
            } else {
                assert(kept_idxs(cuts, i + 1).contains(j));
                let p = choose|p: int|
                    0 <= p < kept_idxs(cuts, i + 1).len() && #[trigger] kept_idxs(cuts, i + 1)[p]
                        == j;
                let off: int = if kept(cuts, i) {
                    1
                } else {
                    0
                };
                assert(kept_idxs(cuts, i)[p + off] == j);
            }
        }
    }
}

/// Some cut always survives filtering: the first of the smallest.
pub proof fn lemma_filter_nonempty(cuts: Seq<Seq<AIGRef>>)
    requires
        cuts.len() > 0,
    ensures
        exists|i: int| 0 <= i < cuts.len() && kept(cuts, i),
        filtered(cuts).len() > 0,
{
    broadcast use vstd::set_lib::group_set_lib_default;

    let best = lemma_first_min_card(cuts, 0);
    assert(kept(cuts, best)) by {
        if exists|j: int| 0 <= j < cuts.len() && strict_sub(#[trigger] cuts[j], cuts[best]) {
            let j = choose|j: int| 0 <= j < cuts.len() && strict_sub(#[trigger] cuts[j], cuts[best]);
            vstd::set_lib::lemma_len_subset(cuts[j].to_set(), cuts[best].to_set());
            if cuts[j].to_set().len() == cuts[best].to_set().len() {
                vstd::set_lib::lemma_subset_equality(cuts[j].to_set(), cuts[best].to_set());
            }
        }
    }
    lemma_kept_idxs(cuts, 0);
    assert(kept_idxs(cuts, 0).contains(best));
    assert(kept_idxs(cuts, 0).len() > 0);
}

/// The first index of minimal leaf-set cardinality among the cuts at or
/// after `i`.
proof fn lemma_first_min_card(cuts: Seq<Seq<AIGRef>>, i: int) -> (b: int)
    requires
        0 <= i < cuts.len(),
    ensures
        i <= b < cuts.len(),
        forall|j: int|
            i <= j < cuts.len() ==> (#[trigger] cuts[j]).to_set().len() >= cuts[b].to_set().len(),
        forall|j: int| i <= j < b ==> (#[trigger] cuts[j]).to_set().len() > cuts[b].to_set().len(),
    decreases cuts.len() - i,
{
    if i == cuts.len() - 1 {
        i
    } else {
        let b2 = lemma_first_min_card(cuts, i + 1);
        if cuts[i].to_set().len() <= cuts[b2].to_set().len() {
            i
        } else {
            b2
        }
    }
}

} // verus!

verus! {

/// The leaf sets of a list of candidate leaf vectors.
pub open spec fn vv(s: Seq<Vec<AIGRef>>) -> Seq<Seq<AIGRef>> {
    s.map_values(|v: Vec<AIGRef>| v@)
}

/// An element-for-element copy of a leaf vector.
fn copy_refs(v: &Vec<AIGRef>) -> (r: Vec<AIGRef>)
    ensures
        r@ == v@,
{
    let mut r: Vec<AIGRef> = Vec::new();
    let mut i: usize = 0;
    while i < v.len()
        invariant
            i <= v@.len(),
            r@ == v@.take(i as int),
        decreases v@.len() - i,
    {
        r.push(v[i]);
        proof {
            assert(v@.take(i + 1 as int) =~= v@.take(i as int).push(v@[i as int]));
        }
        i = i + 1;
    }
    proof {
        assert(v@.take(v@.len() as int) =~= v@);
    }
    r
}

/// `max_leaf_arrival` and `sum_leaf_flow` read only the leaves themselves,
/// so stores that agree on every leaf agree on them.
proof fn lemma_leaf_frame(a: Seq<AIGNode>, b: Seq<AIGNode>, refs: Seq<AIGRef>)
    requires
        forall|q: int|
            0 <= q < refs.len() && !(#[trigger] refs[q]).spec_is_pi() ==> 0 <= refs[
                q].spec_index() < a.len() && a.len() == b.len() && a[refs[q].spec_index() as int]
                == b[refs[q].spec_index() as int],
    ensures
        max_leaf_arrival(a, refs) == max_leaf_arrival(b, refs),
        sum_leaf_flow(a, refs) == sum_leaf_flow(b, refs),
    decreases refs.len(),
{
    if refs.len() > 0 {
        lemma_leaf_frame(a, b, refs.drop_last());
        assert(refs[refs.len() - 1] == refs.last());
    }
}

/// `cand_cuts` reads only the fan-in node, so stores that agree there agree
/// on the candidate list.
proof fn lemma_cand_frame(a: Seq<AIGNode>, b: Seq<AIGNode>, f: AIGRef)
    requires
        !f.spec_is_pi() ==> 0 <= f.spec_index() < a.len() && a.len() == b.len() && a[f.spec_index()
            as int] == b[f.spec_index() as int],
    ensures
        cand_cuts(a, f) == cand_cuts(b, f),
{
    assert(cand_cuts(a, f) =~~= cand_cuts(b, f));
}

/// A processed node's facts survive changes to slots outside its fan-in
/// cone: the node itself, its fan-ins and the order prefix must stand still.
pub proof fn lemma_node_cuts_ok_frame(
    a: Seq<AIGNode>,
    b: Seq<AIGNode>,
    i: int,
    k: int,
    npis: int,
    prefix: Seq<usize>,
)
    requires
        node_cuts_ok(a, i, k, npis, prefix),
        a.len() == b.len(),
        a.len() <= usize::MAX,
        0 <= i < a.len(),
        a[i] == b[i],
        forall|x: usize| prefix.contains(x) ==> 0 <= x < a.len() && a[x as int] == b[x as int],
        !a[i].inp0.spec_is_pi() ==> a[i].inp0.spec_index() < a.len() && prefix.contains(
            (a[i].inp0.spec_index() as usize),
        ),
        !a[i].inp1.spec_is_pi() ==> a[i].inp1.spec_index() < a.len() && prefix.contains(
            (a[i].inp1.spec_index() as usize),
        ),
    ensures
        node_cuts_ok(b, i, k, npis, prefix),
{
    let n = a[i];
    if !n.inp0.spec_is_pi() {
        let x = n.inp0.spec_index() as usize;
        assert(x as int == n.inp0.spec_index() as int);
        assert(a[x as int] == b[x as int]);
    }
    if !n.inp1.spec_is_pi() {
        let x = n.inp1.spec_index() as usize;
        assert(x as int == n.inp1.spec_index() as int);
        assert(a[x as int] == b[x as int]);
    }
    lemma_cand_frame(a, b, n.inp0);
    lemma_cand_frame(a, b, n.inp1);
    assert forall|p: int| 0 <= p < n.cuts@.len() implies {
        let c = #[trigger] n.cuts@[p];
        &&& c.arrival as int == 1 + max_leaf_arrival(b, c.refs@)
        &&& c.area_flow == sat_add(sum_leaf_flow(b, c.refs@), 1)
    } by {
        let c = n.cuts@[p];
        assert forall|q: int|
            0 <= q < c.refs@.len() && !(#[trigger] c.refs@[q]).spec_is_pi() implies 0 <= c.refs@[
            q].spec_index() < a.len() && a.len() == b.len() && a[c.refs@[q].spec_index() as int]
            == b[c.refs@[q].spec_index() as int] by {
            let r = c.refs@[q];
            let x = r.spec_index() as usize;
            assert(r.spec_index() < i);
            assert(x as int == r.spec_index() as int);
            assert(prefix.contains(x));
            assert(a[x as int] == b[x as int]);
        }
        lemma_leaf_frame(a, b, c.refs@);
    }
}

} // verus!

verus! {

/// What the walk established for the already processed entries of the order:
/// all in range, none twice, and each annotated as [`node_cuts_ok`] with
/// respect to the entries before it.
pub open spec fn prefix_ok(nodes: Seq<AIGNode>, prefix: Seq<usize>, k: int, npis: int) -> bool {
    &&& prefix.no_duplicates()
    &&& forall|p: int| 0 <= p < prefix.len() ==> (#[trigger] prefix[p]) < nodes.len()
    &&& forall|p: int|
        0 <= p < prefix.len() ==> node_cuts_ok(
            nodes,
            #[trigger] prefix[p] as int,
            k,
            npis,
            prefix.take(p),
        )
}

/// What a candidate leaf vector may hold at node `i`: no duplicates, and
/// each leaf a well-formed non-inverted handle that is either a primary
/// input or an already processed node below `i` with a settled arrival.
pub open spec fn cand_props(
    cands: Seq<Seq<AIGRef>>,
    nodes: Seq<AIGNode>,
    i: int,
    npis: int,
    prefix: Seq<usize>,
) -> bool {
    forall|p: int|
        0 <= p < cands.len() ==> ((#[trigger] cands[p]).no_duplicates() && leaf_props(
            cands[p],
            nodes,
            i,
            npis,
            prefix,
        ))
}

/// The leaf conditions of a single candidate vector.
pub open spec fn leaf_props(
    c: Seq<AIGRef>,
    nodes: Seq<AIGNode>,
    i: int,
    npis: int,
    prefix: Seq<usize>,
) -> bool {
    forall|q: int|
        0 <= q < c.len() ==> {
            let r = #[trigger] c[q];
            &&& r.wf()
            &&& !r.spec_is_invert()
            &&& (r.spec_is_pi() ==> r.spec_index() < npis)
            &&& (!r.spec_is_pi() ==> r.spec_index() < i && prefix.contains(
                (r.spec_index() as usize),
            ) && nodes[r.spec_index() as int].arrival as int <= r.spec_index() + 1)
        }
}

/// A union of two candidate vectors keeps the leaf conditions.
proof fn lemma_union_leaf_props(
    a: Seq<AIGRef>,
    b: Seq<AIGRef>,
    nodes: Seq<AIGNode>,
    i: int,
    npis: int,
    prefix: Seq<usize>,
)
    requires
        a.no_duplicates(),
        leaf_props(a, nodes, i, npis, prefix),
        leaf_props(b, nodes, i, npis, prefix),
    ensures
        leaf_props(union_seq(a, b), nodes, i, npis, prefix),
{
    crate::cut::lemma_union_seq(a, b);
    let u = union_seq(a, b);
    assert forall|q: int| 0 <= q < u.len() implies {
        let r = #[trigger] u[q];
        &&& r.wf()
        &&& !r.spec_is_invert()
        &&& (r.spec_is_pi() ==> r.spec_index() < npis)
        &&& (!r.spec_is_pi() ==> r.spec_index() < i && prefix.contains((r.spec_index() as usize))
            && nodes[r.spec_index() as int].arrival as int <= r.spec_index() + 1)
    } by {
        let r = u[q];
        assert(u.to_set().contains(r));
        if a.to_set().contains(r) {
            let t = choose|t: int| 0 <= t < a.len() && a[t] == r;
            assert(a[t] == r);
        } else {
            assert(b.to_set().contains(r));
            let t = choose|t: int| 0 <= t < b.len() && b[t] == r;
            assert(b[t] == r);
        }
    }
}

impl AIG {
    /// The candidate cut list of fan-in `f` of the node at `i`: the fan-in's
    /// stored leaf sets plus its trivial cut.
    fn cand_list(&self, f: AIGRef, i: usize, Ghost(prefix): Ghost<Seq<usize>>, Ghost(k): Ghost<int>)
        -> (r: Vec<Vec<AIGRef>>)
        requires
            self.wf(),
            i < self.nodes@.len(),
            crate::aig::fanin_ok(f, i as int, self.pi@.len() as int),
            1 <= k,
            prefix_ok(self.nodes@, prefix, k, self.pi@.len() as int),
            !f.spec_is_pi() ==> prefix.contains((f.spec_index() as usize)),
        ensures
            vv(r@) == cand_cuts(self.nodes@, f),
            cand_props(vv(r@), self.nodes@, i as int, self.pi@.len() as int, prefix),
            forall|p: int| 0 <= p < vv(r@).len() ==> (#[trigger] vv(r@)[p]).len() <= k || p
                < vv(r@).len() - 1,
    {
        let ghost nodes0 = self.nodes@;
        let ghost npis = self.pi@.len() as int;
        let n_len = self.nodes.len();
        let mut out: Vec<Vec<AIGRef>> = Vec::new();
        let ghost fpos: int = 0int;
        if !f.is_pi() {
            proof {
                let p0 = choose|p0: int|
                    0 <= p0 < prefix.len() && prefix[p0] == (f.spec_index() as usize);
                assert(node_cuts_ok(nodes0, prefix[p0] as int, k, npis, prefix.take(p0)));
                assert(prefix[p0] as int == f.spec_index() as int);
            }
            let fi = f.idx();
            let m = self.nodes[fi].cuts.len();
            let mut p: usize = 0;
            while p < m
                invariant
                    p <= m,
                    self.wf(),
                    fi < self.nodes@.len(),
                    fi as int == f.spec_index() as int,
                    m == self.nodes@[fi as int].cuts@.len(),
                    vv(out@) == cut_views(self.nodes@[fi as int].cuts@).take(p as int),
                decreases m - p,
            {
                let c = copy_refs(&self.nodes[fi].cuts[p].refs);
                out.push(c);
                proof {
                    let cv = cut_views(self.nodes@[fi as int].cuts@);
                    assert(cv.take(p + 1 as int) =~= cv.take(p as int).push(cv[p as int]));
                    assert(vv(out@) =~= cv.take(p + 1 as int));
                }
                p = p + 1;
            }
            proof {
                let cv = cut_views(self.nodes@[fi as int].cuts@);
                assert(cv.take(cv.len() as int) =~= cv);
            }
        }
        let triv = vec![f.noinv()];
        out.push(triv);
        proof {
            assert(vv(out@) =~~= cand_cuts(nodes0, f));
            // leaf conditions: stored cuts of the fan-in carry them by
            // `node_cuts_ok`; the trivial cut is the fan-in itself
            if !f.spec_is_pi() {
                let p0 = choose|p0: int|
                    0 <= p0 < prefix.len() && prefix[p0] == (f.spec_index() as usize);
                assert(node_cuts_ok(nodes0, prefix[p0] as int, k, npis, prefix.take(p0)));
                let fnode = nodes0[f.spec_index() as int];
                assert forall|p: int| 0 <= p < vv(out@).len() implies ((#[trigger] vv(
                    out@,
                )[p]).no_duplicates() && leaf_props(vv(out@)[p], nodes0, i as int, npis, prefix)
                    && (vv(out@)[p].len() <= k || p < vv(out@).len() - 1)) by {
                    if p < vv(out@).len() - 1 {
                        assert(vv(out@)[p] == fnode.cuts@[p].refs@);
                        assert forall|q: int| 0 <= q < vv(out@)[p].len() implies {
                            let r = #[trigger] vv(out@)[p][q];
                            &&& r.wf()
                            &&& !r.spec_is_invert()
                            &&& (r.spec_is_pi() ==> r.spec_index() < npis)
                            &&& (!r.spec_is_pi() ==> r.spec_index() < i && prefix.contains(
                                (r.spec_index() as usize),
                            ) && nodes0[r.spec_index() as int].arrival as int <= r.spec_index()
                                + 1)
                        } by {
                            let r = vv(out@)[p][q];
                            if !r.spec_is_pi() {
                                assert(r.spec_index() < f.spec_index());
                                assert(prefix.take(p0).contains((r.spec_index() as usize)));
                                let t = choose|t: int|
                                    0 <= t < p0 && prefix.take(p0)[t] == (r.spec_index() as usize);
                                assert(prefix[t] == (r.spec_index() as usize));
                                assert(node_cuts_ok(
                                    nodes0,
                                    prefix[t] as int,
                                    k,
                                    npis,
                                    prefix.take(t),
                                ));
                            }
                        }
                    } else {
                        assert(vv(out@)[p] == seq![f.spec_noinv()]);
                        assert(node_cuts_ok(nodes0, f.spec_index() as int, k, npis, prefix.take(
                            p0,
                        )));
                        assert(nodes0[f.spec_index() as int].arrival as int <= f.spec_index() + 1);
                    }
                }
            } else {
                assert forall|p: int| 0 <= p < vv(out@).len() implies ((#[trigger] vv(
                    out@,
                )[p]).no_duplicates() && leaf_props(vv(out@)[p], nodes0, i as int, npis, prefix)
                    && (vv(out@)[p].len() <= k || p < vv(out@).len() - 1)) by {
                    assert(vv(out@)[p] == seq![f.spec_noinv()]);
                }
            }
        }
        out
    }
}

} // verus!

verus! {

/// The cross product of the two candidate lists: every union of a left and
/// a right candidate whose leaf count stays K-feasible, in loop order.
fn cross_lists(
    ca: &Vec<Vec<AIGRef>>,
    cb: &Vec<Vec<AIGRef>>,
    lut_k: usize,
    Ghost(nodes0): Ghost<Seq<AIGNode>>,
    Ghost(i): Ghost<int>,
    Ghost(npis): Ghost<int>,
    Ghost(prefix): Ghost<Seq<usize>>,
) -> (r: Vec<Vec<AIGRef>>)
    requires
        cand_props(vv(ca@), nodes0, i, npis, prefix),
        cand_props(vv(cb@), nodes0, i, npis, prefix),
    ensures
        vv(r@) == cross_all(vv(ca@), vv(cb@), lut_k as int),
        cand_props(vv(r@), nodes0, i, npis, prefix),
        forall|p: int| 0 <= p < vv(r@).len() ==> (#[trigger] vv(r@)[p]).len() <= lut_k,
{
    let ghost cav = vv(ca@);
    let ghost cbv = vv(cb@);
    let ghost kk = lut_k as int;
    let mut cc: Vec<Vec<AIGRef>> = Vec::new();
    let mut x: usize = 0;
    while x < ca.len()
        invariant
            x <= ca@.len(),
            cav == vv(ca@),
            cbv == vv(cb@),
            kk == lut_k as int,
            cand_props(cav, nodes0, i, npis, prefix),
            cand_props(cbv, nodes0, i, npis, prefix),
            vv(cc@) == cross_all(cav.take(x as int), cbv, kk),
            cand_props(vv(cc@), nodes0, i, npis, prefix),
            forall|p: int| 0 <= p < vv(cc@).len() ==> (#[trigger] vv(cc@)[p]).len() <= kk,
        decreases ca@.len() - x,
    {
        let mut y: usize = 0;
        while y < cb.len()
            invariant
                x < ca@.len(),
                y <= cb@.len(),
                cav == vv(ca@),
                cbv == vv(cb@),
                kk == lut_k as int,
                cand_props(cav, nodes0, i, npis, prefix),
                cand_props(cbv, nodes0, i, npis, prefix),
                vv(cc@) == cross_all(cav.take(x as int), cbv, kk) + cross_row(
                    cav[x as int],
                    cbv.take(y as int),
                    kk,
                ),
                cand_props(vv(cc@), nodes0, i, npis, prefix),
                forall|p: int| 0 <= p < vv(cc@).len() ==> (#[trigger] vv(cc@)[p]).len() <= kk,
            decreases cb@.len() - y,
        {
            let u = crate::cut::union_refs(&ca[x], &cb[y]);
            let ghost ccv_before = vv(cc@);
            proof {
                let t = cbv.take(y + 1 as int);
                assert(t.drop_last() =~= cbv.take(y as int));
                assert(t.last() == cbv[y as int]);
                lemma_union_leaf_props(cav[x as int], cbv[y as int], nodes0, i, npis, prefix);
                crate::cut::lemma_union_seq(cav[x as int], cbv[y as int]);
            }
            if u.len() <= lut_k {
                cc.push(u);
                proof {
                    assert(vv(cc@) =~= ccv_before.push(union_seq(cav[x as int], cbv[y as int])));
                    assert(cross_row(cav[x as int], cbv.take(y + 1 as int), kk) =~= cross_row(
                        cav[x as int],
                        cbv.take(y as int),
                        kk,
                    ) + seq![union_seq(cav[x as int], cbv[y as int])]);
                    assert(vv(cc@) =~= cross_all(cav.take(x as int), cbv, kk) + cross_row(
                        cav[x as int],
                        cbv.take(y + 1 as int),
                        kk,
                    ));
                }
            } else {
                proof {
                    assert(cross_row(cav[x as int], cbv.take(y + 1 as int), kk) =~= cross_row(
                        cav[x as int],
                        cbv.take(y as int),
                        kk,
                    ));
                    assert(vv(cc@) =~= cross_all(cav.take(x as int), cbv, kk) + cross_row(
                        cav[x as int],
                        cbv.take(y + 1 as int),
                        kk,
                    ));
                }
            }
            y = y + 1;
        }
        proof {
            assert(cbv.take(cbv.len() as int) =~= cbv);
            let t = cav.take(x + 1 as int);
            assert(t.drop_last() =~= cav.take(x as int));
            assert(t.last() == cav[x as int]);
            assert(vv(cc@) =~= cross_all(cav.take(x + 1 as int), cbv, kk));
        }
        x = x + 1;
    }
    proof {
        assert(cav.take(cav.len() as int) =~= cav);
    }
    cc
}

/// Dominance filtering: keeps a cut when no other cut's leaf set is a
/// strict subset of its own and no earlier cut has the same leaf set.
fn filter_cuts(cc: &Vec<Vec<AIGRef>>) -> (r: Vec<Vec<AIGRef>>)
    ensures
        vv(r@) == filtered(vv(cc@)),
{
    let ghost ccv = vv(cc@);
    let mut keptv: Vec<Vec<AIGRef>> = Vec::new();
    let ghost done: Seq<int> = Seq::<int>::empty();
    let mut idx: usize = 0;
    while idx < cc.len()
        invariant
            idx <= cc@.len(),
            ccv == vv(cc@),
            kept_idxs(ccv, 0) == done + kept_idxs(ccv, idx as int),
            vv(keptv@) == sel_map(ccv, done),
            forall|p: int| 0 <= p < done.len() ==> 0 <= #[trigger] done[p] < idx,
        decreases cc@.len() - idx,
    {
        let mut dominated = false;
        let mut j: usize = 0;
        while j < cc.len()
            invariant
                idx < cc@.len(),
                j <= cc@.len(),
                ccv == vv(cc@),
                dominated == (exists|t: int|
                    0 <= t < j && strict_sub(#[trigger] ccv[t], ccv[idx as int])),
            decreases cc@.len() - j,
        {
            let sub_ji = crate::cut::refs_subset(&cc[j], &cc[idx]);
            let sub_ij = crate::cut::refs_subset(&cc[idx], &cc[j]);
            proof {
                if sub_ji && sub_ij {
                    assert(ccv[j as int].to_set() =~= ccv[idx as int].to_set());
                }
            }
            if sub_ji && !sub_ij {
                proof {
                    assert(strict_sub(ccv[j as int], ccv[idx as int]));
                }
                dominated = true;
            }
            j = j + 1;
        }
        let mut dup = false;
        let mut j2: usize = 0;
        while j2 < idx
            invariant
                idx < cc@.len(),
                j2 <= idx,
                ccv == vv(cc@),
                dup == (exists|t: int|
                    0 <= t < j2 && (#[trigger] ccv[t]).to_set() == ccv[idx as int].to_set()),
            decreases idx - j2,
        {
            let eq = crate::cut::refs_set_eq(&cc[j2], &cc[idx]);
            proof {
                if eq {
                    assert(ccv[j2 as int].to_set() =~= ccv[idx as int].to_set());
                } else {
                    assert(ccv[j2 as int].to_set() != ccv[idx as int].to_set());
                }
            }
            if eq {
                dup = true;
            }
            j2 = j2 + 1;
        }
        proof {
            assert((!dominated && !dup) == kept(ccv, idx as int));
            assert(kept_idxs(ccv, idx as int) == (if kept(ccv, idx as int) {
                seq![idx as int]
            } else {
                Seq::<int>::empty()
            }) + kept_idxs(ccv, idx as int + 1));
        }
        if !dominated && !dup {
            let ghost kv0 = keptv@;
            proof {
                assert(vv(kv0) == sel_map(ccv, done));
                assert(vv(kv0).len() == kv0.len());
                assert(sel_map(ccv, done).len() == done.len());
                assert(kv0.len() == done.len());
            }
            let c = copy_refs(&cc[idx]);
            keptv.push(c);
            proof {
                assert(keptv@.len() == kv0.len() + 1);
                let done2 = done.push(idx as int);
                assert(done + (seq![idx as int] + kept_idxs(ccv, idx as int + 1)) =~= done2
                    + kept_idxs(ccv, idx as int + 1));
                assert(keptv@ == kv0.push(c));
                assert forall|p: int| 0 <= p < vv(keptv@).len() implies vv(keptv@)[p]
                    == sel_map(ccv, done2)[p] by {
                    assert(vv(keptv@)[p] == keptv@[p]@);
                    if p < done.len() {
                        assert(keptv@[p] == kv0[p]);
                        assert(vv(kv0)[p] == sel_map(ccv, done)[p]);
                        assert(done2[p] == done[p]);
                    } else {
                        assert(keptv@[p] == c);
                        assert(c@ == ccv[idx as int]);
                        assert(done2[p] == idx as int);
                    }
                }
                assert(vv(keptv@) =~= sel_map(ccv, done2));
                done = done2;
            }
        } else {
            proof {
                assert(done + (Seq::<int>::empty() + kept_idxs(ccv, idx as int + 1)) =~= done
                    + kept_idxs(ccv, idx as int + 1));
            }
        }
        idx = idx + 1;
    }
    proof {
        assert(kept_idxs(ccv, ccv.len() as int) =~= Seq::<int>::empty());
        assert(done + Seq::<int>::empty() =~= done);
        assert(done =~= kept_idxs(ccv, 0));
        assert(vv(keptv@) =~= filtered(ccv));
        assert(vv(keptv@) == filtered(ccv));
    }
    keptv
}

} // verus!


verus! {

/// Removing and reinserting a node at one slot is an update of that slot.
proof fn lemma_remove_insert_is_update_cuts(s: Seq<AIGNode>, i: int, x: AIGNode)
    requires
        0 <= i < s.len(),
    ensures
        s.remove(i).insert(i, x) =~= s.update(i, x),
{
}

} // verus!

verus! {

impl AIG {
    /// Annotates each cut with its arrival and area flow and returns the
    /// cut list together with the per-node minima (`u64::MAX` when there is
    /// no cut).
    fn annotate_cuts(
        &self,
        keptv: &Vec<Vec<AIGRef>>,
        i: usize,
        Ghost(npis): Ghost<int>,
        Ghost(prefix): Ghost<Seq<usize>>,
    ) -> (r: (Vec<AIGCut>, u64, u64))
        requires
            i < self.nodes@.len(),
            forall|p: int|
                0 <= p < vv(keptv@).len() ==> leaf_props(
                    #[trigger] vv(keptv@)[p],
                    self.nodes@,
                    i as int,
                    npis,
                    prefix,
                ),
        ensures
            r.0@.len() == keptv@.len(),
            forall|p: int|
                0 <= p < r.0@.len() ==> {
                    let c = #[trigger] r.0@[p];
                    &&& c.refs@ == vv(keptv@)[p]
                    &&& c.arrival as int == 1 + max_leaf_arrival(self.nodes@, c.refs@)
                    &&& c.area_flow == sat_add(sum_leaf_flow(self.nodes@, c.refs@), 1)
                    &&& c.arrival as int <= i + 1
                },
            r.0@.len() == 0 ==> r.1 == u64::MAX && r.2 == u64::MAX,
            r.0@.len() > 0 ==> (exists|p: int|
                0 <= p < r.0@.len() && (#[trigger] r.0@[p]).arrival == r.1),
            forall|p: int| 0 <= p < r.0@.len() ==> r.1 <= (#[trigger] r.0@[p]).arrival,
            r.0@.len() > 0 ==> (exists|p: int|
                0 <= p < r.0@.len() && (#[trigger] r.0@[p]).area_flow == r.2),
            forall|p: int| 0 <= p < r.0@.len() ==> r.2 <= (#[trigger] r.0@[p]).area_flow,
    {
        let ghost nodes0 = self.nodes@;
        let ghost keptw = vv(keptv@);
        let n_len = self.nodes.len();
        let mut cuts_new: Vec<AIGCut> = Vec::new();
        let mut best_arr: u64 = u64::MAX;
        let mut best_fl: u64 = u64::MAX;
        let mut a_idx: usize = 0;
        while a_idx < keptv.len()
            invariant
                a_idx <= keptv@.len(),
                keptw == vv(keptv@),
                nodes0 == self.nodes@,
                i < nodes0.len(),
                nodes0.len() <= usize::MAX,
                forall|p: int|
                    0 <= p < keptw.len() ==> leaf_props(
                        #[trigger] keptw[p],
                        nodes0,
                        i as int,
                        npis,
                        prefix,
                    ),
                cuts_new@.len() == a_idx,
                forall|p: int|
                    0 <= p < a_idx ==> {
                        let c = #[trigger] cuts_new@[p];
                        &&& c.refs@ == keptw[p]
                        &&& c.arrival as int == 1 + max_leaf_arrival(nodes0, c.refs@)
                        &&& c.area_flow == sat_add(sum_leaf_flow(nodes0, c.refs@), 1)
                        &&& c.arrival as int <= i + 1
                    },
                a_idx == 0 ==> best_arr == u64::MAX && best_fl == u64::MAX,
                a_idx > 0 ==> (exists|p: int|
                    0 <= p < a_idx && (#[trigger] cuts_new@[p]).arrival == best_arr),
                forall|p: int| 0 <= p < a_idx ==> best_arr <= (#[trigger] cuts_new@[p]).arrival,
                a_idx > 0 ==> (exists|p: int|
                    0 <= p < a_idx && (#[trigger] cuts_new@[p]).area_flow == best_fl),
                forall|p: int| 0 <= p < a_idx ==> best_fl <= (#[trigger] cuts_new@[p]).area_flow,
            decreases keptv@.len() - a_idx,
        {
            let refs = copy_refs(&keptv[a_idx]);
            proof {
                assert(vv(keptv@)[a_idx as int] == keptv@[a_idx as int]@);
                assert(refs@ == keptw[a_idx as int]);
                assert(leaf_props(keptw[a_idx as int], nodes0, i as int, npis, prefix));
            }
            let mut m: u64 = 0;
            let mut q: usize = 0;
            while q < refs.len()
                invariant
                    q <= refs@.len(),
                    refs@ == keptw[a_idx as int],
                    0 <= a_idx < keptw.len(),
                    keptw == vv(keptv@),
                    nodes0 == self.nodes@,
                    i < nodes0.len(),
                    nodes0.len() <= usize::MAX,
                    leaf_props(refs@, nodes0, i as int, npis, prefix),
                    m as int == max_leaf_arrival(nodes0, refs@.take(q as int)),
                    m as int <= i,
                decreases refs@.len() - q,
            {
                let r = refs[q];
                let this_arr: u64 = if r.is_pi() {
                    0
                } else {
                    proof {
                        assert(r.spec_index() < i);
                    }
                    self.nodes[r.idx()].arrival
                };
                proof {
                    let t = refs@.take(q + 1 as int);
                    assert(t.drop_last() =~= refs@.take(q as int));
                    assert(t.last() == refs@[q as int]);
                    assert(this_arr as int == leaf_arrival(nodes0, refs@[q as int]));
                    assert(this_arr as int <= i);
                }
                if this_arr > m {
                    m = this_arr;
                }
                q = q + 1;
            }
            proof {
                assert(refs@.take(refs@.len() as int) =~= refs@);
            }
            let c_arr: u64 = 1 + m;
            let mut acc: u64 = 0;
            let mut q2: usize = 0;
            while q2 < refs.len()
                invariant
                    q2 <= refs@.len(),
                    refs@ == keptw[a_idx as int],
                    0 <= a_idx < keptw.len(),
                    keptw == vv(keptv@),
                    nodes0 == self.nodes@,
                    i < nodes0.len(),
                    nodes0.len() <= usize::MAX,
                    leaf_props(refs@, nodes0, i as int, npis, prefix),
                    acc == sum_leaf_flow(nodes0, refs@.take(q2 as int)),
                decreases refs@.len() - q2,
            {
                let r = refs[q2];
                let this_fl: u64 = if r.is_pi() {
                    0
                } else {
                    proof {
                        assert(r.spec_index() < i);
                    }
                    self.nodes[r.idx()].area_flow
                };
                proof {
                    let t = refs@.take(q2 + 1 as int);
                    assert(t.drop_last() =~= refs@.take(q2 as int));
                    assert(t.last() == refs@[q2 as int]);
                    assert(this_fl == leaf_flow(nodes0, refs@[q2 as int]));
                }
                if acc > u64::MAX - this_fl {
                    acc = u64::MAX;
                } else {
                    acc = acc + this_fl;
                }
                q2 = q2 + 1;
            }
            proof {
                assert(refs@.take(refs@.len() as int) =~= refs@);
            }
            let c_fl: u64 = if acc > u64::MAX - 1 {
                u64::MAX
            } else {
                acc + 1
            };
            let ghost cn0 = cuts_new@;
            let ghost old_best_arr = best_arr;
            let ghost old_best_fl = best_fl;
            let c = AIGCut { refs, arrival: c_arr, area_flow: c_fl };
            cuts_new.push(c);
            if c_arr < best_arr {
                best_arr = c_arr;
            }
            if c_fl < best_fl {
                best_fl = c_fl;
            }
            proof {
                assert(cuts_new@ == cn0.push(c));
                assert forall|p: int| 0 <= p < a_idx implies #[trigger] cuts_new@[p] == cn0[p] by {}
                assert(cuts_new@[a_idx as int] == c);
                if c_arr < old_best_arr {
                    assert(cuts_new@[a_idx as int].arrival == best_arr);
                } else if a_idx == 0 {
                    assert(old_best_arr == u64::MAX);
                    assert(c_arr == u64::MAX);
                    assert(cuts_new@[a_idx as int].arrival == best_arr);
                } else {
                    let w = choose|p: int| 0 <= p < a_idx && (#[trigger] cn0[p]).arrival == old_best_arr;
                    assert(cuts_new@[w].arrival == best_arr);
                }
                if c_fl < old_best_fl {
                    assert(cuts_new@[a_idx as int].area_flow == best_fl);
                } else if a_idx == 0 {
                    assert(cuts_new@[a_idx as int].area_flow == best_fl);
                } else {
                    let w = choose|p: int| 0 <= p < a_idx && (#[trigger] cn0[p]).area_flow == old_best_fl;
                    assert(cuts_new@[w].area_flow == best_fl);
                }
            }
            a_idx = a_idx + 1;
        }
        (cuts_new, best_arr, best_fl)
    }
}

} // verus!

verus! {

impl AIG {
    /// Enumerates and annotates the cuts of the node at index `i`, whose
    /// fan-ins must already be processed (they stand in `prefix`).
    #[verifier::rlimit(40)]
    fn enum_node(&mut self, i: usize, lut_k: usize, Ghost(prefix): Ghost<Seq<usize>>)
        requires
            old(self).wf(),
            i < old(self).nodes@.len(),
            2 <= lut_k,
            prefix_ok(old(self).nodes@, prefix, lut_k as int, old(self).pi@.len() as int),
            !old(self).nodes@[i as int].inp0.spec_is_pi() ==> prefix.contains(
                (old(self).nodes@[i as int].inp0.spec_index() as usize),
            ),
            !old(self).nodes@[i as int].inp1.spec_is_pi() ==> prefix.contains(
                (old(self).nodes@[i as int].inp1.spec_index() as usize),
            ),
        ensures
            final(self).nodes@.len() == old(self).nodes@.len(),
            forall|j: int|
                0 <= j < old(self).nodes@.len() && j != i ==> final(self).nodes@[j] == old(
                    self,
                ).nodes@[j],
            node_ann_eq(old(self).nodes@[i as int], final(self).nodes@[i as int]),
            node_cuts_ok(
                final(self).nodes@,
                i as int,
                lut_k as int,
                old(self).pi@.len() as int,
                prefix,
            ),
            final(self).pi == old(self).pi,
            final(self).po == old(self).po,
            final(self).topo_order == old(self).topo_order,
            final(self).wf(),
    {
        let ghost nodes0 = self.nodes@;
        let ghost npis = self.pi@.len() as int;
        let ghost kk = lut_k as int;
        let n_len = self.nodes.len();
        let f0 = self.nodes[i].inp0;
        let f1 = self.nodes[i].inp1;
        let ca = self.cand_list(f0, i, Ghost(prefix), Ghost(kk));
        let cb = self.cand_list(f1, i, Ghost(prefix), Ghost(kk));
        let ghost cav = vv(ca@);
        let ghost cbv = vv(cb@);
        let cc = cross_lists(&ca, &cb, lut_k, Ghost(nodes0), Ghost(i as int), Ghost(npis), Ghost(prefix));
        let ghost ccv = vv(cc@);
        let keptv = filter_cuts(&cc);
        let ghost keptw = vv(keptv@);
        proof {
            // every kept cut keeps the candidate properties and feasibility
            lemma_kept_idxs(ccv, 0);
            assert forall|p: int| 0 <= p < keptw.len() implies ((#[trigger] keptw[p]).no_duplicates()
                && keptw[p].len() <= kk && leaf_props(keptw[p], nodes0, i as int, npis, prefix)) by {
                assert(keptw[p] == ccv[kept_idxs(ccv, 0)[p]]);
            }
        }
        let ann = self.annotate_cuts(&keptv, i, Ghost(npis), Ghost(prefix));
        let cuts_new = ann.0;
        let best_arr = ann.1;
        let best_fl = ann.2;
        // write the node back with its cuts and best annotations
        let mut nd = self.nodes.remove(i);
        nd.cuts = cuts_new;
        nd.arrival = best_arr;
        nd.area_flow = best_fl;
        self.nodes.insert(i, nd);
        proof {
            lemma_remove_insert_is_update_cuts(nodes0, i as int, nd);
            assert(self.nodes@ =~= nodes0.update(i as int, nd));
            assert(cut_views(nd.cuts@) =~~= keptw);
            assert(keptw =~~= filtered(ccv));
            // nothing the node references moved: every leaf and fan-in is
            // below `i`
            lemma_cand_frame(nodes0, self.nodes@, nd.inp0);
            lemma_cand_frame(nodes0, self.nodes@, nd.inp1);
            assert(cross_all(cand_cuts(self.nodes@, nd.inp0), cand_cuts(self.nodes@, nd.inp1), kk)
                == ccv);
            assert(keptw.len() >= 1) by {
                assert(ccv.len() >= 1) by {
                    assert(cav.len() >= 1 && cbv.len() >= 1);
                    assert(cav.take(cav.len() - 1) =~= cav.drop_last());
                    assert(cross_all(cav, cbv, kk).len() >= cross_row(cav.last(), cbv, kk).len());
                    lemma_cross_row_trivial(cav.last(), cbv, kk);
                }
                lemma_filter_nonempty(ccv);
                assert(filtered(ccv).len() > 0);
            }
            assert forall|p: int| 0 <= p < nd.cuts@.len() implies {
                let c = #[trigger] nd.cuts@[p];
                &&& c.arrival as int == 1 + max_leaf_arrival(self.nodes@, c.refs@)
                &&& c.area_flow == sat_add(sum_leaf_flow(self.nodes@, c.refs@), 1)
            } by {
                let c = nd.cuts@[p];
                assert(c.arrival as int == 1 + max_leaf_arrival(nodes0, c.refs@));
                assert(leaf_props(c.refs@, nodes0, i as int, npis, prefix));
                assert forall|q3: int|
                    0 <= q3 < c.refs@.len() && !(#[trigger] c.refs@[q3]).spec_is_pi() implies 0
                    <= c.refs@[q3].spec_index() < nodes0.len() && nodes0.len() == self.nodes@.len()
                    && nodes0[c.refs@[q3].spec_index() as int] == self.nodes@[c.refs@[
                q3].spec_index() as int] by {
                    assert(c.refs@[q3].spec_index() < i);
                }
                lemma_leaf_frame(nodes0, self.nodes@, c.refs@);
            }
            assert(node_cuts_ok(self.nodes@, i as int, kk, npis, prefix));
            assert(self.wf()) by {
                assert forall|j3: int|
                    0 <= j3 < self.nodes@.len() implies crate::aig::fanin_ok(
                    #[trigger] self.nodes@[j3].inp0,
                    j3,
                    self.pi@.len() as int,
                ) && crate::aig::fanin_ok(self.nodes@[j3].inp1, j3, self.pi@.len() as int) by {
                    assert(self.nodes@[j3].inp0 == nodes0[j3].inp0);
                    assert(self.nodes@[j3].inp1 == nodes0[j3].inp1);
                }
            }
        }
    }
}

/// The cross product's last row holds at least the union of the two trivial
/// cuts, which has at most two leaves and is always feasible for K of two
/// or more.
proof fn lemma_cross_row_trivial(ca: Seq<AIGRef>, cb: Seq<Seq<AIGRef>>, k: int)
    requires
        2 <= k,
        ca.len() == 1,
        cb.len() >= 1,
        cb.last().len() == 1,
    ensures
        cross_row(ca, cb, k).len() >= 1,
{
    assert(ca.no_duplicates());
    crate::cut::lemma_union_seq(ca, cb.last());
    let u = union_seq(ca, cb.last());
    assert(u.len() <= 2) by {
        assert(cb.last().drop_last().len() == 0);
        assert(union_seq(ca, cb.last().drop_last()) == ca);
    }
}

} // verus!

verus! {

impl AIG {
    /// Enumerates the K-feasible cuts of every node of the stored
    /// topological order, in that order, and annotates nodes and cuts with
    /// arrival times and area flows. Nodes outside the order are untouched.
    /// Each processed node ends up as [`node_cuts_ok`] states, against the
    /// entries of the order before it; the graph structure, the tables and
    /// the order itself do not move.
    #[verifier::rlimit(100)]
    pub fn enumerate_cuts(&mut self, lut_k: usize)
        requires
            old(self).wf(),
            old(self).topo_ok(),
            2 <= lut_k,
        ensures
            final(self).pi == old(self).pi,
            final(self).po == old(self).po,
            final(self).topo_order == old(self).topo_order,
            final(self).nodes@.len() == old(self).nodes@.len(),
            forall|j: int|
                0 <= j < old(self).nodes@.len() ==> node_ann_eq(
                    old(self).nodes@[j],
                    #[trigger] final(self).nodes@[j],
                ),
            forall|j: int|
                0 <= j < old(self).nodes@.len() && !old(self).topo_order@.contains((j as usize))
                    ==> final(self).nodes@[j] == old(self).nodes@[j],
            forall|p: int|
                0 <= p < final(self).topo_order@.len() ==> node_cuts_ok(
                    final(self).nodes@,
                    #[trigger] final(self).topo_order@[p] as int,
                    lut_k as int,
                    final(self).pi@.len() as int,
                    final(self).topo_order@.take(p),
                ),
            final(self).wf(),
            final(self).topo_ok(),
    {
        let n_len = self.nodes.len();
        let ghost ord = old(self).topo_order@;
        let m = self.topo_order.len();
        let mut p: usize = 0;
        while p < m
            invariant
                p <= m,
                m == ord.len(),
                ord == old(self).topo_order@,
                self.pi == old(self).pi,
                self.po == old(self).po,
                self.topo_order == old(self).topo_order,
                self.nodes@.len() == old(self).nodes@.len(),
                self.nodes@.len() <= usize::MAX,
                self.wf(),
                self.topo_ok(),
                forall|j: int|
                    0 <= j < old(self).nodes@.len() ==> node_ann_eq(
                        old(self).nodes@[j],
                        #[trigger] self.nodes@[j],
                    ),
                forall|j: int|
                    0 <= j < old(self).nodes@.len() && !ord.take(p as int).contains((j as usize))
                        ==> self.nodes@[j] == old(self).nodes@[j],
                prefix_ok(self.nodes@, ord.take(p as int), lut_k as int, self.pi@.len() as int),
                2 <= lut_k,
            decreases m - p,
        {
            let i = self.topo_order[p];
            let ghost before = self.nodes@;
            proof {
                assert(ord[p as int] == i);
                assert(i < self.nodes@.len());
                assert(ord.take(p as int + 1).drop_last() =~= ord.take(p as int));
                // the fan-ins of this entry stand in the prefix
                assert(!self.nodes@[i as int].inp0.spec_is_pi() ==> ord.take(p as int).contains(
                    (self.nodes@[i as int].inp0.spec_index() as usize),
                ));
                assert(!self.nodes@[i as int].inp1.spec_is_pi() ==> ord.take(p as int).contains(
                    (self.nodes@[i as int].inp1.spec_index() as usize),
                ));
            }
            self.enum_node(i, lut_k, Ghost(ord.take(p as int)));
            proof {
                let prefix1 = ord.take(p as int + 1);
                assert(prefix1.drop_last() =~= ord.take(p as int));
                // the processed entries before this one keep their facts:
                // everything they reference is in their own prefix, which
                // this step did not touch
                assert forall|q: int|
                    0 <= q < prefix1.len() implies node_cuts_ok(
                    self.nodes@,
                    #[trigger] prefix1[q] as int,
                    lut_k as int,
                    self.pi@.len() as int,
                    prefix1.take(q),
                ) by {
                    assert(prefix1.take(q) =~= ord.take(q));
                    if q < p {
                        assert(prefix1[q] == ord[q]);
                        assert(node_cuts_ok(
                            before,
                            ord[q] as int,
                            lut_k as int,
                            self.pi@.len() as int,
                            ord.take(q),
                        ));
                        assert forall|x: usize| ord.take(q).contains(x) implies 0 <= x
                            < before.len() && before[x as int] == self.nodes@[x as int] by {
                            let t = choose|t: int| 0 <= t < q && ord.take(q)[t] == x;
                            assert(ord[t] == x);
                            assert(ord[t] != ord[p as int]);
                            assert(!ord.take(q).contains((i as usize)) || true);
                            assert(x != i);
                        }
                        assert(before[ord[q] as int] == self.nodes@[ord[q] as int]) by {
                            assert(ord[q] != ord[p as int]);
                        }
                        assert(!before[ord[q] as int].inp0.spec_is_pi() ==> before[ord[
                            q] as int].inp0.spec_index() < before.len());
                        assert(!before[ord[q] as int].inp1.spec_is_pi() ==> before[ord[
                            q] as int].inp1.spec_index() < before.len());
                        lemma_node_cuts_ok_frame(
                            before,
                            self.nodes@,
                            ord[q] as int,
                            lut_k as int,
                            self.pi@.len() as int,
                            ord.take(q),
                        );
                    } else {
                        assert(q == p as int);
                        assert(prefix1[q] == ord[p as int]);
                    }
                }
                assert(prefix_ok(
                    self.nodes@,
                    prefix1,
                    lut_k as int,
                    self.pi@.len() as int,
                ));
                assert forall|j: int|
                    0 <= j < old(self).nodes@.len() && !prefix1.contains((j as usize)) implies self
                    .nodes@[j] == old(self).nodes@[j] by {
                    assert(j != i);
                    assert(!ord.take(p as int).contains((j as usize)));
                }
            }
            p = p + 1;
        }
        proof {
            assert(ord.take(m as int) =~= ord);
        }
    }
}

} // verus!

verus! {

/// Law of the dominance filter: among the surviving cuts no leaf set is a
/// strict subset of another, and no two are equal as sets.
pub proof fn lemma_filtered_undominated(cuts: Seq<Seq<AIGRef>>, p: int, q: int)
    requires
        0 <= p < filtered(cuts).len(),
        0 <= q < filtered(cuts).len(),
        p != q,
    ensures
        !strict_sub(filtered(cuts)[p], filtered(cuts)[q]),
        filtered(cuts)[p].to_set() != filtered(cuts)[q].to_set(),
{
    lemma_kept_idxs(cuts, 0);
    let ks = kept_idxs(cuts, 0);
    assert(filtered(cuts)[p] == cuts[ks[p]]);
    assert(filtered(cuts)[q] == cuts[ks[q]]);
    assert(kept(cuts, ks[p]));
    assert(kept(cuts, ks[q]));
    if strict_sub(cuts[ks[p]], cuts[ks[q]]) {
        assert(exists|j: int| 0 <= j < cuts.len() && strict_sub(#[trigger] cuts[j], cuts[ks[q]]));
    }
    if cuts[ks[p]].to_set() == cuts[ks[q]].to_set() {
        if p < q {
            assert(ks[p] < ks[q]);
            assert(exists|j: int|
                0 <= j < ks[q] && (#[trigger] cuts[j]).to_set() == cuts[ks[q]].to_set());
        } else {
            assert(ks[q] < ks[p]);
            assert(exists|j: int|
                0 <= j < ks[p] && (#[trigger] cuts[j]).to_set() == cuts[ks[p]].to_set());
        }
    }
}

} // verus!
