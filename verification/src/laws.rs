//! Cross-pass laws of the pipeline.
//!
//! Lowering and topological ordering are functions of the input by their
//! own contracts (`sp_parse`, `visit_all`). The lemma here closes the loop
//! for cut enumeration: annotation is a function of the graph's structure
//! and order, so running the pipeline twice on the same input yields
//! structurally identical annotated graphs.

use vstd::prelude::*;

use crate::aig::AIG;
use crate::cuts::{
    cand_cuts, cut_views, leaf_arrival, leaf_flow, max_leaf_arrival, node_cuts_ok, sum_leaf_flow,
};
use crate::edge::AIGRef;
use crate::topo::fanins_of;

verus! {

broadcast use vstd::seq_lib::group_seq_properties;

/// The two stores agree, node by node, on everything cut enumeration
/// writes: the cut leaf sets, the per-cut annotations and the per-node
/// scalars.
pub open spec fn ann_eq_at(a: Seq<crate::aig::AIGNode>, b: Seq<crate::aig::AIGNode>, j: int) -> bool {
    &&& cut_views(a[j].cuts@) == cut_views(b[j].cuts@)
    &&& a[j].cuts@.len() == b[j].cuts@.len()
    &&& forall|p: int|
        0 <= p < a[j].cuts@.len() ==> (#[trigger] a[j].cuts@[p]).arrival == b[j].cuts@[p].arrival
            && a[j].cuts@[p].area_flow == b[j].cuts@[p].area_flow
    &&& a[j].arrival == b[j].arrival
    &&& a[j].area_flow == b[j].area_flow
}

/// Equal leaf vectors over stores that agree below `i` give equal maxima
/// and sums.
proof fn lemma_leaf_funs_eq(
    a: Seq<crate::aig::AIGNode>,
    b: Seq<crate::aig::AIGNode>,
    refs: Seq<AIGRef>,
    i: int,
)
    requires
        forall|q: int|
            0 <= q < refs.len() && !(#[trigger] refs[q]).spec_is_pi() ==> 0 <= refs[
                q].spec_index() < i && i <= a.len() && i <= b.len() && a[refs[q].spec_index()
                as int].arrival == b[refs[q].spec_index() as int].arrival && a[refs[q].spec_index()
                as int].area_flow == b[refs[q].spec_index() as int].area_flow,
    ensures
        max_leaf_arrival(a, refs) == max_leaf_arrival(b, refs),
        sum_leaf_flow(a, refs) == sum_leaf_flow(b, refs),
    decreases refs.len(),
{
    if refs.len() > 0 {
        lemma_leaf_funs_eq(a, b, refs.drop_last(), i);
        assert(refs[refs.len() - 1] == refs.last());
        assert(leaf_arrival(a, refs.last()) == leaf_arrival(b, refs.last()));
        assert(leaf_flow(a, refs.last()) == leaf_flow(b, refs.last()));
    }
}

/// Law: cut enumeration is deterministic. Two graphs with the same fan-in
/// structure and the same valid order, both annotated as `enumerate_cuts`
/// guarantees, agree on every cut and every annotation of every ordered
/// node. Together with the functional contracts of `parse_netlist` (its
/// result is `sp_parse` of the input) and `calc_topo_order` (its order is
/// `visit_all` of the structure), running the whole pipeline twice on one
/// netlist yields structurally identical annotated graphs; only the
/// diagnostic display names are outside this statement.
pub proof fn lemma_enumeration_deterministic(a: AIG, b: AIG, k: int, p: int)
    requires
        fanins_of(a.nodes@) == fanins_of(b.nodes@),
        a.nodes@.len() == b.nodes@.len(),
        a.pi@.len() == b.pi@.len(),
        a.topo_order@ == b.topo_order@,
        a.wf(),
        a.topo_ok(),
        a.nodes@.len() <= usize::MAX,
        forall|q: int|
            0 <= q < a.topo_order@.len() ==> node_cuts_ok(
                a.nodes@,
                #[trigger] a.topo_order@[q] as int,
                k,
                a.pi@.len() as int,
                a.topo_order@.take(q),
            ) && node_cuts_ok(
                b.nodes@,
                b.topo_order@[q] as int,
                k,
                b.pi@.len() as int,
                b.topo_order@.take(q),
            ),
        0 <= p < a.topo_order@.len(),
    ensures
        ann_eq_at(a.nodes@, b.nodes@, a.topo_order@[p] as int),
    decreases p,
{
    let ord = a.topo_order@;
    let i = ord[p] as int;
    assert(node_cuts_ok(a.nodes@, i, k, a.pi@.len() as int, ord.take(p)));
    assert(node_cuts_ok(b.nodes@, i, k, b.pi@.len() as int, ord.take(p)));
    assert(ord[p] < a.nodes@.len());
    let na = a.nodes@[i];
    let nb = b.nodes@[i];
    assert(crate::aig::fanin_ok(na.inp0, i, a.pi@.len() as int));
    assert(crate::aig::fanin_ok(na.inp1, i, a.pi@.len() as int));
    assert(fanins_of(a.nodes@)[i] == (na.inp0, na.inp1));
    assert(fanins_of(b.nodes@)[i] == (nb.inp0, nb.inp1));
    assert(na.inp0 == nb.inp0 && na.inp1 == nb.inp1);
    // every earlier entry of the order agrees by induction
    assert forall|q: int| 0 <= q < p implies ann_eq_at(
        a.nodes@,
        b.nodes@,
        ord[q] as int,
    ) by {
        lemma_enumeration_deterministic(a, b, k, q);
    }
    // members of the prefix are earlier entries
    assert forall|x: usize| ord.take(p).contains(x) implies ann_eq_at(
        a.nodes@,
        b.nodes@,
        x as int,
    ) by {
        let q = choose|q: int| 0 <= q < p && ord.take(p)[q] == x;
        assert(ord[q] == x);
    }
    // the candidate lists agree, so the filtered cross products agree
    assert(cand_cuts(a.nodes@, na.inp0) == cand_cuts(b.nodes@, nb.inp0)) by {
        if !na.inp0.spec_is_pi() {
            let fx = na.inp0.spec_index() as usize;
            assert(ord.take(p).contains(fx));
            assert(ann_eq_at(a.nodes@, b.nodes@, fx as int));
            assert(cut_views(a.nodes@[fx as int].cuts@) == cut_views(b.nodes@[fx as int].cuts@));
            assert(fx as int == na.inp0.spec_index() as int);
        }
        assert(cand_cuts(a.nodes@, na.inp0) =~~= cand_cuts(b.nodes@, nb.inp0));
    }
    assert(cand_cuts(a.nodes@, na.inp1) == cand_cuts(b.nodes@, nb.inp1)) by {
        if !na.inp1.spec_is_pi() {
            let fx = na.inp1.spec_index() as usize;
            assert(ord.take(p).contains(fx));
            assert(ann_eq_at(a.nodes@, b.nodes@, fx as int));
            assert(cut_views(a.nodes@[fx as int].cuts@) == cut_views(b.nodes@[fx as int].cuts@));
            assert(fx as int == na.inp1.spec_index() as int);
        }
        assert(cand_cuts(a.nodes@, na.inp1) =~~= cand_cuts(b.nodes@, nb.inp1));
    }
    assert(cut_views(na.cuts@) == cut_views(nb.cuts@));
    assert(na.cuts@.len() == nb.cuts@.len()) by {
        assert(cut_views(na.cuts@).len() == na.cuts@.len());
        assert(cut_views(nb.cuts@).len() == nb.cuts@.len());
    }
    // per-cut annotations follow from the agreeing leaf sets and the
    // already-agreeing earlier nodes
    assert forall|q: int| 0 <= q < na.cuts@.len() implies ((#[trigger] na.cuts@[q]).arrival
        == nb.cuts@[q].arrival && na.cuts@[q].area_flow == nb.cuts@[q].area_flow) by {
        assert(cut_views(na.cuts@)[q] == na.cuts@[q].refs@);
        assert(cut_views(nb.cuts@)[q] == nb.cuts@[q].refs@);
        let refs = na.cuts@[q].refs@;
        assert forall|t: int|
            0 <= t < refs.len() && !(#[trigger] refs[t]).spec_is_pi() implies 0 <= refs[
            t].spec_index() < i && i <= a.nodes@.len() && i <= b.nodes@.len() && a.nodes@[refs[
        t].spec_index() as int].arrival == b.nodes@[refs[t].spec_index() as int].arrival
            && a.nodes@[refs[t].spec_index() as int].area_flow == b.nodes@[refs[t].spec_index()
            as int].area_flow by {
            assert(ord.take(p).contains((refs[t].spec_index() as usize)));
            assert(ann_eq_at(a.nodes@, b.nodes@, refs[t].spec_index() as int));
        }
        lemma_leaf_funs_eq(a.nodes@, b.nodes@, refs, i);
    }
    // the minima agree because the sets they are minima of agree
    assert(na.arrival == nb.arrival) by {
        let qa = choose|q: int| 0 <= q < na.cuts@.len() && (#[trigger] na.cuts@[q]).arrival == na.arrival;
        let qb = choose|q: int| 0 <= q < nb.cuts@.len() && (#[trigger] nb.cuts@[q]).arrival == nb.arrival;
        assert(na.arrival == nb.cuts@[qa].arrival);
        assert(nb.arrival <= nb.cuts@[qa].arrival);
        assert(nb.arrival == na.cuts@[qb].arrival);
        assert(na.arrival <= na.cuts@[qb].arrival);
    }
    assert(na.area_flow == nb.area_flow) by {
        let qa = choose|q: int|
            0 <= q < na.cuts@.len() && (#[trigger] na.cuts@[q]).area_flow == na.area_flow;
        let qb = choose|q: int|
            0 <= q < nb.cuts@.len() && (#[trigger] nb.cuts@[q]).area_flow == nb.area_flow;
        assert(na.area_flow == nb.cuts@[qa].area_flow);
        assert(nb.area_flow <= nb.cuts@[qa].area_flow);
        assert(nb.area_flow == na.cuts@[qb].area_flow);
        assert(na.area_flow <= na.cuts@[qb].area_flow);
    }
}

} // verus!
