//! Topological ordering: a depth-first walk from every primary output that
//! pushes each AND node after both of its fan-ins (post-order). The
//! `num_fanouts` field serves as the mark bit and is reset to zero before and
//! after the pass.

use vstd::prelude::*;

use crate::aig::{AIG, AIGNode};
use crate::edge::AIGRef;

verus! {

broadcast use vstd::seq_lib::group_seq_properties;

/// The fan-in structure of the node store: what the walk depends on.
pub open spec fn fanins_of(nodes: Seq<AIGNode>) -> Seq<(AIGRef, AIGRef)> {
    nodes.map_values(|n: AIGNode| (n.inp0, n.inp1))
}

/// Every non-PI fan-in of slot `j` has an index strictly below `j`.
pub open spec fn g_wf(g: Seq<(AIGRef, AIGRef)>) -> bool {
    forall|j: int|
        0 <= j < g.len() ==> ((!(#[trigger] g[j]).0.spec_is_pi() ==> g[j].0.spec_index() < j) && (
        !g[j].1.spec_is_pi() ==> g[j].1.spec_index() < j))
}

/// Each entry of the order is in range and both of its non-PI fan-ins stand
/// strictly earlier in the order.
pub open spec fn closed_order(g: Seq<(AIGRef, AIGRef)>, ord: Seq<usize>) -> bool {
    forall|p: int|
        0 <= p < ord.len() ==> ((#[trigger] ord[p]) < g.len() && (!g[ord[p] as int].0.spec_is_pi()
            ==> ord.take(p).contains((g[ord[p] as int].0.spec_index() as usize))) && (
        !g[ord[p] as int].1.spec_is_pi() ==> ord.take(p).contains(
            (g[ord[p] as int].1.spec_index() as usize),
        )))
}

/// The order produced by the depth-first visit of edge `r`, starting from the
/// partial order `ord`: a visited or PI target adds nothing; otherwise both
/// fan-ins are visited first and the target is appended.
pub open spec fn visit(g: Seq<(AIGRef, AIGRef)>, ord: Seq<usize>, r: AIGRef) -> Seq<usize>
    decreases (if r.spec_is_pi() {
        0int
    } else {
        r.spec_index() as int + 1
    }),
{
    if r.spec_is_pi() {
        ord
    } else {
        let i = r.spec_index() as int;
        if i >= g.len() {
            ord
        } else if ord.contains((r.spec_index() as usize)) {
            ord
        } else {
            let f0 = g[i].0;
            let f1 = g[i].1;
            if (!f0.spec_is_pi() && f0.spec_index() as int >= i) || (!f1.spec_is_pi()
                && f1.spec_index() as int >= i) {
                ord
            } else {
                let o1 = visit(g, ord, f0);
                let o2 = visit(g, o1, f1);
                o2.push((r.spec_index() as usize))
            }
        }
    }
}

/// The order produced by visiting each edge of `refs` in turn, from index `k`.
pub open spec fn visit_all(
    g: Seq<(AIGRef, AIGRef)>,
    ord: Seq<usize>,
    refs: Seq<AIGRef>,
    k: int,
) -> Seq<usize>
    decreases refs.len() - k,
{
    if !(0 <= k < refs.len()) {
        ord
    } else {
        visit_all(g, visit(g, ord, refs[k]), refs, k + 1)
    }
}

/// A prefix keeps its members.
pub proof fn lemma_prefix_contains(a: Seq<usize>, b: Seq<usize>, x: usize)
    requires
        a.is_prefix_of(b),
        a.contains(x),
    ensures
        b.contains(x),
{
    let i = choose|i: int| 0 <= i < a.len() && a[i] == x;
    assert(b[i] == x);
}

/// Prefixes compose.
pub proof fn lemma_prefix_trans(a: Seq<usize>, b: Seq<usize>, c: Seq<usize>)
    requires
        a.is_prefix_of(b),
        b.is_prefix_of(c),
    ensures
        a.is_prefix_of(c),
{
    assert forall|i: int| 0 <= i < a.len() implies a[i] == c[i] by {
        assert(a[i] == b[i]);
    }
    assert(a =~= c.subrange(0, a.len() as int));
}

/// Taking a prefix of a pushed sequence ignores the pushed element.
pub proof fn lemma_push_take(s: Seq<usize>, x: usize, p: int)
    requires
        0 <= p <= s.len(),
    ensures
        s.push(x).take(p) =~= s.take(p),
{
}

/// What the visit guarantees: it extends the order, keeps it closed and
/// duplicate-free, adds only fresh indices no larger than the target's, and
/// lands the target itself in the order.
pub proof fn lemma_visit(g: Seq<(AIGRef, AIGRef)>, ord: Seq<usize>, r: AIGRef)
    requires
        g_wf(g),
        g.len() <= usize::MAX,
        closed_order(g, ord),
        ord.no_duplicates(),
    ensures
        ord.is_prefix_of(visit(g, ord, r)),
        closed_order(g, visit(g, ord, r)),
        visit(g, ord, r).no_duplicates(),
        forall|p: int|
            ord.len() <= p < visit(g, ord, r).len() ==> (!ord.contains(
                #[trigger] visit(g, ord, r)[p],
            ) && (!r.spec_is_pi() ==> visit(g, ord, r)[p] as int <= r.spec_index() as int)),
        (!r.spec_is_pi() && r.spec_index() < g.len()) ==> visit(g, ord, r).contains(
            (r.spec_index() as usize),
        ),
    decreases (if r.spec_is_pi() {
        0int
    } else {
        r.spec_index() as int + 1
    }),
{
    if r.spec_is_pi() {
        assert(ord.is_prefix_of(ord));
    } else {
        let i = r.spec_index() as int;
        let iu = r.spec_index() as usize;
        if i >= g.len() || ord.contains(iu) {
            assert(ord.is_prefix_of(ord));
        } else {
            assert(iu as int == i);
            let f0 = g[i].0;
            let f1 = g[i].1;
            assert(!f0.spec_is_pi() ==> f0.spec_index() < i);
            assert(!f1.spec_is_pi() ==> f1.spec_index() < i);
            let o1 = visit(g, ord, f0);
            let o2 = visit(g, o1, f1);
            let out = o2.push(iu);
            lemma_visit(g, ord, f0);
            lemma_visit(g, o1, f1);
            // new entries of o2 relative to ord are all strictly below i
            assert forall|p: int| ord.len() <= p < o2.len() implies (!ord.contains(#[trigger] o2[p])
                && (o2[p] as int) < i) by {
                if p < o1.len() {
                    assert(o1[p] == o2[p]);
                    assert(!ord.contains(o1[p]));
                    assert(!f0.spec_is_pi());
                    assert(o1[p] as int <= f0.spec_index());
                } else {
                    assert(!o1.contains(o2[p]));
                    assert(!f1.spec_is_pi());
                    assert(o2[p] as int <= f1.spec_index());
                    if ord.contains(o2[p]) {
                        let q = choose|q: int| 0 <= q < ord.len() && ord[q] == o2[p];
                        assert(o1[q] == o2[p]);
                        assert(o1.contains(o2[p]));
                    }
                }
            }
            // the target is fresh in o2, so pushing it keeps no_duplicates
            assert(!o2.contains(iu)) by {
                if o2.contains(iu) {
                    let p = choose|p: int| 0 <= p < o2.len() && o2[p] == iu;
                    if p < ord.len() {
                        assert(ord[p] == iu);
                        assert(ord.contains(iu));
                    } else {
                        assert((o2[p] as int) < i);
                    }
                }
            }
            assert(out.no_duplicates()) by {
                assert forall|p: int, q: int| 0 <= p < q < out.len() implies out[p] != out[q] by {
                    if q < o2.len() {
                        assert(o2[p] == out[p] && o2[q] == out[q]);
                    } else {
                        assert(out[q] == iu);
                        assert(out[p] == o2[p]);
                        assert(o2.contains(o2[p]));
                    }
                }
            }
            // prefixes chain through both recursive calls and the push
            assert(o2.is_prefix_of(out)) by {
                assert(o2 =~= out.subrange(0, o2.len() as int));
            }
            lemma_prefix_trans(ord, o1, o2);
            lemma_prefix_trans(ord, o2, out);
            // the new order stays closed: old positions keep their prefix,
            // and the pushed target has both fan-ins in o2
            assert(closed_order(g, out)) by {
                assert forall|p: int| 0 <= p < out.len() implies ((#[trigger] out[p]) < g.len() && (
                !g[out[p] as int].0.spec_is_pi() ==> out.take(p).contains(
                    (g[out[p] as int].0.spec_index() as usize),
                )) && (!g[out[p] as int].1.spec_is_pi() ==> out.take(p).contains(
                    (g[out[p] as int].1.spec_index() as usize),
                ))) by {
                    if p < o2.len() {
                        assert(out[p] == o2[p]);
                        lemma_push_take(o2, iu, p);
                        assert(out.take(p) =~= o2.take(p));
                    } else {
                        assert(out[p] == iu);
                        lemma_push_take(o2, iu, p);
                        assert(o2.take(o2.len() as int) =~= o2);
                        assert(out.take(p) =~= o2);
                        if !f0.spec_is_pi() {
                            assert(o1.contains((f0.spec_index() as usize)));
                            lemma_prefix_contains(o1, o2, (f0.spec_index() as usize));
                        }
                        if !f1.spec_is_pi() {
                            assert(o2.contains((f1.spec_index() as usize)));
                        }
                    }
                }
            }
            assert(out[out.len() - 1] == iu);
            assert(out.contains(iu));
        }
    }
}

/// `lemma_visit`, folded over a whole list of root edges.
pub proof fn lemma_visit_all(g: Seq<(AIGRef, AIGRef)>, ord: Seq<usize>, refs: Seq<AIGRef>, k: int)
    requires
        g_wf(g),
        g.len() <= usize::MAX,
        closed_order(g, ord),
        ord.no_duplicates(),
        0 <= k,
    ensures
        ord.is_prefix_of(visit_all(g, ord, refs, k)),
        closed_order(g, visit_all(g, ord, refs, k)),
        visit_all(g, ord, refs, k).no_duplicates(),
        forall|j: int|
            k <= j < refs.len() && !(#[trigger] refs[j]).spec_is_pi() && refs[j].spec_index()
                < g.len() ==> visit_all(g, ord, refs, k).contains(
                (refs[j].spec_index() as usize),
            ),
    decreases refs.len() - k,
{
    if !(0 <= k < refs.len()) {
        assert(ord.is_prefix_of(ord));
    } else {
        let o1 = visit(g, ord, refs[k]);
        lemma_visit(g, ord, refs[k]);
        lemma_visit_all(g, o1, refs, k + 1);
        assert(visit_all(g, ord, refs, k) == visit_all(g, o1, refs, k + 1));
        lemma_prefix_trans(ord, o1, visit_all(g, o1, refs, k + 1));
        if !refs[k].spec_is_pi() && refs[k].spec_index() < g.len() {
            lemma_prefix_contains(
                o1,
                visit_all(g, o1, refs, k + 1),
                (refs[k].spec_index() as usize),
            );
        }
        assert forall|j: int|
            k <= j < refs.len() && !(#[trigger] refs[j]).spec_is_pi() && refs[j].spec_index()
                < g.len() implies visit_all(g, ord, refs, k).contains(
            (refs[j].spec_index() as usize),
        ) by {
            if j > k {
                assert(visit_all(g, o1, refs, k + 1).contains((refs[j].spec_index() as usize)));
            }
        }
    }
}

} // verus!

verus! {

/// The two node sequences agree on everything except the `num_fanouts` field.
pub open spec fn node_core_eq(a: AIGNode, b: AIGNode) -> bool {
    &&& a.name == b.name
    &&& a.inp0 == b.inp0
    &&& a.inp1 == b.inp1
    &&& a.cuts == b.cuts
    &&& a.arrival == b.arrival
    &&& a.area_flow == b.area_flow
}

/// Elementwise [`node_core_eq`] over two node stores.
pub open spec fn same_mod_fanouts(a: Seq<AIGNode>, b: Seq<AIGNode>) -> bool {
    a.len() == b.len() && forall|i: int| 0 <= i < a.len() ==> node_core_eq(#[trigger] a[i], b[i])
}

/// The mark bit (a nonzero `num_fanouts`) coincides with membership in the
/// order being built.
pub open spec fn marks_match(nodes: Seq<AIGNode>, ord: Seq<usize>) -> bool {
    forall|j: int|
        0 <= j < nodes.len() ==> ((#[trigger] nodes[j].num_fanouts > 0) == ord.contains(
            (j as usize),
        ))
}

/// Removing an element and inserting another at the same place is an update.
pub proof fn lemma_remove_insert_is_update<A>(s: Seq<A>, i: int, x: A)
    requires
        0 <= i < s.len(),
    ensures
        s.remove(i).insert(i, x) =~= s.update(i, x),
{
}

/// Stores that agree up to fan-out counts have the same fan-in structure.
pub proof fn lemma_same_mod_fanins(a: Seq<AIGNode>, b: Seq<AIGNode>)
    requires
        same_mod_fanouts(a, b),
    ensures
        fanins_of(a) == fanins_of(b),
{
    assert(fanins_of(a) =~= fanins_of(b));
}

impl AIG {
    /// A structurally well-formed store has a well-formed fan-in structure.
    pub proof fn lemma_wf_g_wf(self)
        requires
            self.nodes_wf(),
        ensures
            g_wf(fanins_of(self.nodes@)),
    {
    }

    /// One step of the depth-first walk; see [`visit`] for what it appends.
    fn topo_visit(&mut self, nref: AIGRef)
        requires
            old(self).wf(),
            !nref.spec_is_pi() ==> nref.spec_index() < old(self).nodes@.len(),
            marks_match(old(self).nodes@, old(self).topo_order@),
            closed_order(fanins_of(old(self).nodes@), old(self).topo_order@),
            old(self).topo_order@.no_duplicates(),
        ensures
            same_mod_fanouts(old(self).nodes@, final(self).nodes@),
            final(self).pi == old(self).pi,
            final(self).po == old(self).po,
            final(self).topo_order@ == visit(
                fanins_of(old(self).nodes@),
                old(self).topo_order@,
                nref,
            ),
            marks_match(final(self).nodes@, final(self).topo_order@),
            closed_order(fanins_of(old(self).nodes@), final(self).topo_order@),
            final(self).topo_order@.no_duplicates(),
            final(self).wf(),
        decreases (if nref.spec_is_pi() {
            0int
        } else {
            nref.spec_index() as int + 1
        }),
    {
        let ghost g = fanins_of(old(self).nodes@);
        let ghost ord0 = old(self).topo_order@;
        let n_len = self.nodes.len();
        proof {
            assert(g.len() == old(self).nodes@.len());
            self.lemma_wf_g_wf();
            lemma_visit(g, ord0, nref);
        }
        if nref.is_pi() {
            return ;
        }
        let i = nref.idx();
        proof {
            assert(i as int == nref.spec_index() as int);
        }
        if self.nodes[i].num_fanouts > 0 {
            proof {
                assert(ord0.contains((i as usize)));
                assert(visit(g, ord0, nref) == ord0);
            }
            return ;
        }
        let f0 = self.nodes[i].inp0;
        let f1 = self.nodes[i].inp1;
        proof {
            assert(g[i as int] == (f0, f1));
            assert(!ord0.contains((nref.spec_index() as usize)));
        }
        self.topo_visit(f0);
        let ghost mid = *self;
        proof {
            lemma_same_mod_fanins(old(self).nodes@, mid.nodes@);
            assert(fanins_of(mid.nodes@) == g);
        }
        self.topo_visit(f1);
        let ghost s2 = self.nodes@;
        let ghost o2 = self.topo_order@;
        proof {
            lemma_same_mod_fanins(mid.nodes@, s2);
            assert(fanins_of(s2) == g);
            assert(o2 == visit(g, ord0, nref).drop_last()) by {
                assert(visit(g, ord0, nref) == o2.push((nref.spec_index() as usize)));
                assert(o2.push((nref.spec_index() as usize)).drop_last() =~= o2);
            }
        }
        self.topo_order.push(i);
        let mut nd = self.nodes.remove(i);
        nd.num_fanouts = 1;
        self.nodes.insert(i, nd);
        proof {
            let iu = nref.spec_index() as usize;
            let out = o2.push(iu);
            assert(i == iu);
            assert(self.topo_order@ == out);
            assert(visit(g, ord0, nref) == out);
            lemma_remove_insert_is_update(s2, i as int, nd);
            assert(self.nodes@ =~= s2.update(i as int, nd));
            assert(node_core_eq(s2[i as int], nd));
            // fan-out counts aside, the store is what it was
            assert(same_mod_fanouts(old(self).nodes@, self.nodes@));
            // the mark of the pushed node is now set; no other mark moved
            assert forall|j: int|
                0 <= j < self.nodes@.len() implies ((#[trigger] self.nodes@[j].num_fanouts > 0)
                == out.contains((j as usize))) by {
                if j == i as int {
                    assert(out[out.len() - 1] == iu);
                    assert(out.contains(iu));
                } else {
                    assert(self.nodes@[j] == s2[j]);
                    assert((s2[j].num_fanouts > 0) == o2.contains((j as usize)));
                }
            }
            // structure facts carry over to well-formedness of the result
            assert(self.wf()) by {
                assert forall|j: int|
                    0 <= j < self.nodes@.len() implies crate::aig::fanin_ok(
                    #[trigger] self.nodes@[j].inp0,
                    j,
                    self.pi@.len() as int,
                ) && crate::aig::fanin_ok(self.nodes@[j].inp1, j, self.pi@.len() as int) by {
                    assert(node_core_eq(old(self).nodes@[j], self.nodes@[j]));
                }
            }
        }
    }
}

} // verus!

verus! {

/// The primary-output edges, in table order.
pub open spec fn po_refs(po: Seq<(String, AIGRef)>) -> Seq<AIGRef> {
    po.map_values(|p: (String, AIGRef)| p.1)
}

impl AIG {
    /// Computes the reverse-post-order schedule of every AND node reachable
    /// from a primary output. `num_fanouts` is zero on exit for every node,
    /// so it stays available as a genuine fan-out counter; nothing else of
    /// the graph moves. The result is exactly the depth-first order
    /// [`visit_all`] of the fan-in structure, so equal graphs get equal
    /// orders; it is duplicate-free and lists every entry after both of its
    /// fan-ins ([`AIG::topo_ok`]), and it holds the target node of every
    /// non-PI primary-output edge.
    pub fn calc_topo_order(&mut self)
        requires
            old(self).wf(),
        ensures
            final(self).pi == old(self).pi,
            final(self).po == old(self).po,
            same_mod_fanouts(old(self).nodes@, final(self).nodes@),
            forall|j: int|
                0 <= j < final(self).nodes@.len() ==> (#[trigger] final(self).nodes@[j]).num_fanouts
                    == 0,
            final(self).topo_order@ == visit_all(
                fanins_of(old(self).nodes@),
                Seq::<usize>::empty(),
                po_refs(old(self).po@),
                0,
            ),
            final(self).topo_ok(),
            final(self).wf(),
            forall|k: int|
                0 <= k < final(self).po@.len() && !(#[trigger] final(self).po@[k].1).spec_is_pi()
                    ==> final(self).topo_order@.contains(
                    (final(self).po@[k].1.spec_index() as usize),
                ),
    {
        let ghost g = fanins_of(old(self).nodes@);
        let n_len = self.nodes.len();
        proof {
            assert(g.len() == old(self).nodes@.len());
            self.lemma_wf_g_wf();
        }
        self.topo_order = Vec::new();
        // first reset: clear the mark bits
        let mut j: usize = 0;
        while j < self.nodes.len()
            invariant
                j <= self.nodes@.len(),
                self.nodes@.len() == old(self).nodes@.len(),
                self.pi == old(self).pi,
                self.po == old(self).po,
                self.topo_order@ == Seq::<usize>::empty(),
                same_mod_fanouts(old(self).nodes@, self.nodes@),
                forall|t: int| 0 <= t < j ==> (#[trigger] self.nodes@[t]).num_fanouts == 0,
            decreases self.nodes@.len() - j,
        {
            let ghost before = self.nodes@;
            let mut nd = self.nodes.remove(j);
            nd.num_fanouts = 0;
            self.nodes.insert(j, nd);
            proof {
                lemma_remove_insert_is_update(before, j as int, nd);
                assert(self.nodes@ =~= before.update(j as int, nd));
            }
            j = j + 1;
        }
        proof {
            lemma_same_mod_fanins(old(self).nodes@, self.nodes@);
            assert(self.wf()) by {
                assert forall|t: int|
                    0 <= t < self.nodes@.len() implies crate::aig::fanin_ok(
                    #[trigger] self.nodes@[t].inp0,
                    t,
                    self.pi@.len() as int,
                ) && crate::aig::fanin_ok(self.nodes@[t].inp1, t, self.pi@.len() as int) by {
                    assert(node_core_eq(old(self).nodes@[t], self.nodes@[t]));
                }
            }
        }
        // depth-first walk from every primary output
        let ghost refs = po_refs(old(self).po@);
        let mut k: usize = 0;
        while k < self.po.len()
            invariant
                k <= self.po@.len(),
                self.pi == old(self).pi,
                self.po == old(self).po,
                same_mod_fanouts(old(self).nodes@, self.nodes@),
                g == fanins_of(old(self).nodes@),
                refs == po_refs(old(self).po@),
                fanins_of(self.nodes@) == g,
                g.len() == self.nodes@.len(),
                g_wf(g),
                self.wf(),
                marks_match(self.nodes@, self.topo_order@),
                closed_order(g, self.topo_order@),
                self.topo_order@.no_duplicates(),
                visit_all(g, Seq::<usize>::empty(), refs, 0) == visit_all(
                    g,
                    self.topo_order@,
                    refs,
                    k as int,
                ),
            decreases self.po@.len() - k,
        {
            let ghost ord_in = self.topo_order@;
            let r = self.po[k].1;
            proof {
                assert(r == self.po@[k as int].1);
                assert(self.po@ == old(self).po@);
                assert(refs[k as int] == old(self).po@[k as int].1);
                assert(crate::aig::ref_ok(
                    self.po@[k as int].1,
                    self.nodes@.len() as int,
                    self.pi@.len() as int,
                ));
            }
            self.topo_visit(r);
            proof {
                lemma_same_mod_fanins(old(self).nodes@, self.nodes@);
                assert(visit_all(g, ord_in, refs, k as int) == visit_all(
                    g,
                    self.topo_order@,
                    refs,
                    k as int + 1,
                ));
            }
            k = k + 1;
        }
        let ghost ord_final = self.topo_order@;
        proof {
            assert(visit_all(g, ord_final, refs, refs.len() as int) == ord_final);
            lemma_visit_all(g, Seq::<usize>::empty(), refs, 0);
            assert(ord_final == visit_all(g, Seq::<usize>::empty(), refs, 0));
        }
        // second reset: release the mark bits for later passes
        let mut j2: usize = 0;
        while j2 < self.nodes.len()
            invariant
                j2 <= self.nodes@.len(),
                self.nodes@.len() == old(self).nodes@.len(),
                self.pi == old(self).pi,
                self.po == old(self).po,
                self.topo_order@ == ord_final,
                same_mod_fanouts(old(self).nodes@, self.nodes@),
                forall|t: int| 0 <= t < j2 ==> (#[trigger] self.nodes@[t]).num_fanouts == 0,
            decreases self.nodes@.len() - j2,
        {
            let ghost before = self.nodes@;
            let mut nd = self.nodes.remove(j2);
            nd.num_fanouts = 0;
            self.nodes.insert(j2, nd);
            proof {
                lemma_remove_insert_is_update(before, j2 as int, nd);
                assert(self.nodes@ =~= before.update(j2 as int, nd));
            }
            j2 = j2 + 1;
        }
        proof {
            lemma_same_mod_fanins(old(self).nodes@, self.nodes@);
            lemma_visit_all(g, Seq::<usize>::empty(), refs, 0);
            assert(self.wf()) by {
                assert forall|t: int|
                    0 <= t < self.nodes@.len() implies crate::aig::fanin_ok(
                    #[trigger] self.nodes@[t].inp0,
                    t,
                    self.pi@.len() as int,
                ) && crate::aig::fanin_ok(self.nodes@[t].inp1, t, self.pi@.len() as int) by {
                    assert(node_core_eq(old(self).nodes@[t], self.nodes@[t]));
                }
            }
            // the closedness of the order over the fan-in structure is the
            // stored-order validity of the graph itself
            assert(self.topo_ok()) by {
                assert forall|p: int| 0 <= p < self.topo_order@.len() implies {
                    let n = self.nodes@[#[trigger] self.topo_order@[p] as int];
                    &&& self.topo_order@[p] < self.nodes@.len()
                    &&& (!n.inp0.spec_is_pi() ==> self.topo_order@.take(p).contains(
                        (n.inp0.spec_index() as usize),
                    ))
                    &&& (!n.inp1.spec_is_pi() ==> self.topo_order@.take(p).contains(
                        (n.inp1.spec_index() as usize),
                    ))
                } by {
                    assert(closed_order(g, self.topo_order@));
                    assert(self.topo_order@[p] < g.len());
                    assert(g[self.topo_order@[p] as int]
                        == (self.nodes@[self.topo_order@[p] as int].inp0,
                    self.nodes@[self.topo_order@[p] as int].inp1));
                }
            }
            assert forall|k2: int|
                0 <= k2 < self.po@.len() && !(#[trigger] self.po@[k2].1).spec_is_pi() implies self
                .topo_order@.contains((self.po@[k2].1.spec_index() as usize)) by {
                assert(refs[k2] == self.po@[k2].1);
                assert(crate::aig::ref_ok(
                    self.po@[k2].1,
                    old(self).nodes@.len() as int,
                    old(self).pi@.len() as int,
                ));
            }
        }
    }
}

} // verus!

verus! {

/// Whether node `t` is a transitive fan-in of node `i` in the fan-in
/// structure `g` (through one or more edges, PIs excluded).
pub open spec fn in_tfi(g: Seq<(AIGRef, AIGRef)>, i: int, t: int) -> bool
    decreases i,
{
    if !(0 <= i < g.len()) {
        false
    } else {
        let f0 = g[i].0;
        let f1 = g[i].1;
        ||| (!f0.spec_is_pi() && f0.spec_index() < i && (f0.spec_index() == t || in_tfi(
            g,
            f0.spec_index() as int,
            t,
        )))
        ||| (!f1.spec_is_pi() && f1.spec_index() < i && (f1.spec_index() == t || in_tfi(
            g,
            f1.spec_index() as int,
            t,
        )))
    }
}

/// Every transitive fan-in of an entry of a closed order stands strictly
/// before that entry.
pub proof fn lemma_order_tfi(g: Seq<(AIGRef, AIGRef)>, ord: Seq<usize>, p: int, t: int)
    requires
        g_wf(g),
        g.len() <= usize::MAX,
        closed_order(g, ord),
        0 <= p < ord.len(),
        in_tfi(g, ord[p] as int, t),
    ensures
        0 <= t < g.len(),
        ord.take(p).contains((t as usize)),
    decreases p,
{
    let i = ord[p] as int;
    let f0 = g[i].0;
    let f1 = g[i].1;
    if !f0.spec_is_pi() && f0.spec_index() < i && (f0.spec_index() == t || in_tfi(
        g,
        f0.spec_index() as int,
        t,
    )) {
        assert(ord.take(p).contains((f0.spec_index() as usize)));
        if f0.spec_index() == t {
        } else {
            let q = choose|q: int|
                0 <= q < p && ord.take(p)[q] == (f0.spec_index() as usize);
            assert(ord[q] == (f0.spec_index() as usize));
            assert(ord[q] as int == f0.spec_index() as int);
            lemma_order_tfi(g, ord, q, t);
            let q2 = choose|q2: int| 0 <= q2 < q && ord.take(q)[q2] == (t as usize);
            assert(ord.take(p)[q2] == (t as usize));
        }
    } else {
        assert(ord.take(p).contains((f1.spec_index() as usize)));
        if f1.spec_index() == t {
        } else {
            let q = choose|q: int|
                0 <= q < p && ord.take(p)[q] == (f1.spec_index() as usize);
            assert(ord[q] == (f1.spec_index() as usize));
            lemma_order_tfi(g, ord, q, t);
            let q2 = choose|q2: int| 0 <= q2 < q && ord.take(q)[q2] == (t as usize);
            assert(ord.take(p)[q2] == (t as usize));
        }
    }
}

impl AIG {
    /// The stored-order validity of the graph, read as closedness of the
    /// order over the fan-in structure.
    pub proof fn lemma_topo_ok_closed(self)
        requires
            self.topo_ok(),
        ensures
            closed_order(fanins_of(self.nodes@), self.topo_order@),
    {
        let g = fanins_of(self.nodes@);
        let ord = self.topo_order@;
        assert forall|p: int|
            0 <= p < ord.len() implies ((#[trigger] ord[p]) < g.len() && (!g[ord[p] as int].0.spec_is_pi()
            ==> ord.take(p).contains((g[ord[p] as int].0.spec_index() as usize))) && (
        !g[ord[p] as int].1.spec_is_pi() ==> ord.take(p).contains(
            (g[ord[p] as int].1.spec_index() as usize),
        ))) by {
            assert(self.topo_order@[p] < self.nodes@.len());
            assert(g[ord[p] as int] == (self.nodes@[ord[p] as int].inp0,
            self.nodes@[ord[p] as int].inp1));
        }
    }

    /// Law: in a valid stored order, a later entry is never a transitive
    /// fan-in of an earlier one (so, in particular, of no consecutive
    /// predecessor).
    pub proof fn lemma_topo_no_forward_tfi(self, p: int, q: int)
        requires
            self.wf(),
            self.nodes@.len() <= usize::MAX,
            self.topo_ok(),
            0 <= p < q < self.topo_order@.len(),
        ensures
            !in_tfi(fanins_of(self.nodes@), self.topo_order@[p] as int, self.topo_order@[q] as int),
    {
        let g = fanins_of(self.nodes@);
        let ord = self.topo_order@;
        self.lemma_topo_ok_closed();
        let n_ok = self.nodes@.len();
        if in_tfi(g, ord[p] as int, ord[q] as int) {
            lemma_order_tfi(g, ord, p, ord[q] as int);
            let p2 = choose|p2: int| 0 <= p2 < p && ord.take(p)[p2] == ((ord[q] as int) as usize);
            assert(ord[p2] == ord[q]);
            assert(p2 < q);
        }
    }

    /// Law: a valid stored order is transitively closed — with every entry it
    /// holds that entry's whole transitive fan-in cone.
    pub proof fn lemma_topo_complete(self, x: usize, t: int)
        requires
            self.wf(),
            self.nodes@.len() <= usize::MAX,
            self.topo_ok(),
            self.topo_order@.contains(x),
            in_tfi(fanins_of(self.nodes@), x as int, t),
        ensures
            self.topo_order@.contains((t as usize)),
    {
        let g = fanins_of(self.nodes@);
        let ord = self.topo_order@;
        self.lemma_topo_ok_closed();
        let p = choose|p: int| 0 <= p < ord.len() && ord[p] == x;
        lemma_order_tfi(g, ord, p, t);
        let q = choose|q: int| 0 <= q < p && ord.take(p)[q] == (t as usize);
        assert(ord[q] == (t as usize));
    }
}

} // verus!
