//! Cuts: unordered sets of non-inverted edge handles, represented as
//! duplicate-free vectors, with the set operations cut enumeration needs.

use vstd::prelude::*;

use crate::edge::AIGRef;

verus! {

/// A cut of an AND node: the set of leaves from which the node's function can
/// be computed, plus its arrival-time and area-flow annotations. Leaves carry
/// a cleared inversion bit (cuts identify nodes, not polarised signals); the
/// vector holds no duplicate handle, so its length is the cut's cardinality.
/// `u64::MAX` stands for "not yet annotated" in both scalar fields.
#[derive(Clone, Debug)]
pub struct AIGCut {
    pub refs: Vec<AIGRef>,
    pub arrival: u64,
    pub area_flow: u64,
}

impl AIGCut {
    /// The degenerate cut holding a single leaf, not yet annotated.
    pub fn trivial(nref: AIGRef) -> (r: AIGCut)
        ensures
            r.refs@ =~= seq![nref],
            r.arrival == u64::MAX,
            r.area_flow == u64::MAX,
    {
        AIGCut { refs: vec![nref], arrival: u64::MAX, area_flow: u64::MAX }
    }
}

/// The union of leaf set `a` with the elements of `b`, keeping `a`'s order and
/// then `b`'s, skipping what is already present.
pub open spec fn union_seq(a: Seq<AIGRef>, b: Seq<AIGRef>) -> Seq<AIGRef>
    decreases b.len(),
{
    if b.len() == 0 {
        a
    } else {
        let pre = union_seq(a, b.drop_last());
        if pre.contains(b.last()) {
            pre
        } else {
            pre.push(b.last())
        }
    }
}

/// Appending one element inserts it into the element set.
pub proof fn lemma_push_to_set(s: Seq<AIGRef>, x: AIGRef)
    ensures
        s.push(x).to_set() =~= s.to_set().insert(x),
{
    assert forall|y: AIGRef|
        s.push(x).to_set().contains(y) == s.to_set().insert(x).contains(y) by {
        if s.push(x).contains(y) {
            let i = choose|i: int| 0 <= i < s.push(x).len() && s.push(x)[i] == y;
            if i < s.len() {
                assert(s[i] == y);
                assert(s.contains(y));
            }
        }
        if y == x {
            assert(s.push(x)[s.len() as int] == y);
            assert(s.push(x).contains(y));
        }
        if s.contains(y) {
            let i = choose|i: int| 0 <= i < s.len() && s[i] == y;
            assert(s.push(x)[i] == y);
            assert(s.push(x).contains(y));
        }
    }
}

/// The union keeps freedom from duplicates and holds exactly the elements of
/// both operands.
pub proof fn lemma_union_seq(a: Seq<AIGRef>, b: Seq<AIGRef>)
    requires
        a.no_duplicates(),
    ensures
        union_seq(a, b).no_duplicates(),
        union_seq(a, b).to_set() =~= a.to_set().union(b.to_set()),
        union_seq(a, b).len() >= a.len(),
    decreases b.len(),
{
    if b.len() == 0 {
        assert(b.to_set() =~= Set::<AIGRef>::empty());
    } else {
        lemma_union_seq(a, b.drop_last());
        let pre = union_seq(a, b.drop_last());
        assert(b.drop_last().push(b.last()) =~= b);
        assert(b.to_set() =~= b.drop_last().to_set().insert(b.last()));
        if !pre.contains(b.last()) {
            lemma_push_to_set(pre, b.last());
        }
    }
}

/// Whether `v` holds `x`.
pub fn refs_contain(v: &Vec<AIGRef>, x: AIGRef) -> (r: bool)
    ensures
        r == v@.contains(x),
{
    let mut i: usize = 0;
    while i < v.len()
        invariant
            i <= v@.len(),
            forall|k: int| 0 <= k < i ==> v@[k] != x,
        decreases v@.len() - i,
    {
        if v[i] == x {
            return true;
        }
        i = i + 1;
    }
    false
}

/// The union of two leaf sets, `a` first, then whatever of `b` is new.
pub fn union_refs(a: &Vec<AIGRef>, b: &Vec<AIGRef>) -> (r: Vec<AIGRef>)
    requires
        a@.no_duplicates(),
    ensures
        r@ == union_seq(a@, b@),
        r@.no_duplicates(),
        r@.to_set() =~= a@.to_set().union(b@.to_set()),
{
    let mut r: Vec<AIGRef> = Vec::new();
    let mut i: usize = 0;
    while i < a.len()
        invariant
            i <= a@.len(),
            r@ == a@.take(i as int),
        decreases a@.len() - i,
    {
        r.push(a[i]);
        proof {
            assert(a@.take(i + 1 as int) =~= a@.take(i as int).push(a@[i as int]));
        }
        i = i + 1;
    }
    proof {
        assert(a@.take(a@.len() as int) =~= a@);
    }
    let mut j: usize = 0;
    while j < b.len()
        invariant
            j <= b@.len(),
            r@ == union_seq(a@, b@.take(j as int)),
        decreases b@.len() - j,
    {
        proof {
            let t = b@.take(j + 1 as int);
            assert(t.drop_last() =~= b@.take(j as int));
            assert(t.last() == b@[j as int]);
        }
        if !refs_contain(&r, b[j]) {
            r.push(b[j]);
        }
        j = j + 1;
    }
    proof {
        assert(b@.take(b@.len() as int) =~= b@);
        lemma_union_seq(a@, b@);
    }
    r
}

/// Whether the set of leaves of `a` is contained in that of `b`.
pub fn refs_subset(a: &Vec<AIGRef>, b: &Vec<AIGRef>) -> (r: bool)
    ensures
        r == a@.to_set().subset_of(b@.to_set()),
{
    let mut i: usize = 0;
    while i < a.len()
        invariant
            i <= a@.len(),
            forall|k: int| 0 <= k < i ==> b@.contains(#[trigger] a@[k]),
        decreases a@.len() - i,
    {
        if !refs_contain(b, a[i]) {
            proof {
                assert(a@.to_set().contains(a@[i as int]));
            }
            return false;
        }
        i = i + 1;
    }
    proof {
        assert forall|x: AIGRef| a@.to_set().contains(x) implies b@.to_set().contains(x) by {
            let k = choose|k: int| 0 <= k < a@.len() && a@[k] == x;
            assert(b@.contains(a@[k]));
        }
    }
    true
}

/// Whether the two leaf sets are equal as sets.
pub fn refs_set_eq(a: &Vec<AIGRef>, b: &Vec<AIGRef>) -> (r: bool)
    ensures
        r == (a@.to_set() =~= b@.to_set()),
{
    let fwd = refs_subset(a, b);
    let bwd = refs_subset(b, a);
    fwd && bwd
}

} // verus!
