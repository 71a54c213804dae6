//! Compact edge handles: a target slot index, an inversion bit and a
//! primary-input flag packed into a single `u64`.

use vstd::prelude::*;

verus! {

/// Flag bit marking a reference into the primary-input table.
pub const FLG_PI: u64 = 0x8000_0000_0000_0000u64;
/// Flag bit carrying the polarity (inversion) of the edge.
pub const FLG_INVERT: u64 = 0x4000_0000_0000_0000u64;
/// Mask of the low bits that hold the slot index.
pub const MASK_IDX: u64 = 0xffff_ffff_ffffu64;
/// Mask of the bits between the index field and the two flag bits; a
/// well-formed handle keeps them clear.
pub const MASK_UNUSED: u64 = 0x3fff_0000_0000_0000u64;

/// Reference to a slot in an AIG. The slot index interprets against the
/// primary-input table when the PI flag is set, otherwise against the node
/// store. Equality distinguishes polarity: two handles are equal exactly when
/// index, inversion bit and PI flag all match (see [`lemma_ref_eq_fields`]).
#[derive(Copy, Clone, PartialEq, Eq, Structural, Debug, Hash)]
pub struct AIGRef(pub u64);

impl AIGRef {
    /// Whether the handle points into the primary-input table.
    pub open spec fn spec_is_pi(self) -> bool {
        self.0 & FLG_PI != 0
    }

    /// Whether the edge carries an inversion.
    pub open spec fn spec_is_invert(self) -> bool {
        self.0 & FLG_INVERT != 0
    }

    /// The raw slot index, regardless of which table it selects.
    pub open spec fn spec_index(self) -> u64 {
        self.0 & MASK_IDX
    }

    /// The bits between the index field and the flags are clear.
    pub open spec fn wf(self) -> bool {
        self.0 & MASK_UNUSED == 0
    }

    /// The handle built from a slot index and the two flags.
    pub open spec fn spec_new(idx: u64, invert: bool, pi: bool) -> AIGRef {
        AIGRef(idx | (if pi { FLG_PI } else { 0u64 }) | (if invert { FLG_INVERT } else { 0u64 }))
    }

    /// The same handle with the inversion bit toggled.
    pub open spec fn spec_inv(self) -> AIGRef {
        AIGRef(self.0 ^ FLG_INVERT)
    }

    /// The same handle with the inversion bit cleared.
    pub open spec fn spec_noinv(self) -> AIGRef {
        AIGRef(self.0 & !FLG_INVERT)
    }

    /// Builds a handle. The index must fit in the 48-bit index field.
    pub fn new(idx: usize, invert: bool, pi: bool) -> (r: AIGRef)
        requires
            (idx as u64) < 0x1_0000_0000_0000u64,
        ensures
            r == AIGRef::spec_new(idx as u64, invert, pi),
            r.wf(),
            r.spec_is_pi() == pi,
            r.spec_is_invert() == invert,
            r.spec_index() == idx as u64,
    {
        let mut i: u64 = idx as u64;
        if pi {
            i = i | FLG_PI;
        }
        if invert {
            i = i | FLG_INVERT;
        }
        proof {
            let x = idx as u64;
            lemma_new_fields(x, invert, pi);
            let a = x | 0x8000_0000_0000_0000u64;
            assert(x | 0u64 == x) by (bit_vector);
            assert(a | 0u64 == a) by (bit_vector);
            assert(i == AIGRef::spec_new(x, invert, pi).0);
        }
        AIGRef(i)
    }

    pub fn is_pi(&self) -> (r: bool)
        ensures
            r == self.spec_is_pi(),
    {
        self.0 & FLG_PI != 0
    }

    pub fn is_invert(&self) -> (r: bool)
        ensures
            r == self.spec_is_invert(),
    {
        self.0 & FLG_INVERT != 0
    }

    /// Sets or clears the inversion bit in place.
    pub fn set_invert(&mut self, invert: bool)
        ensures
            *final(self) == (if invert { AIGRef(old(self).0 | FLG_INVERT) } else {
                old(self).spec_noinv()
            }),
            final(self).spec_is_pi() == old(self).spec_is_pi(),
            final(self).spec_is_invert() == invert,
            final(self).spec_index() == old(self).spec_index(),
            old(self).wf() ==> final(self).wf(),
    {
        proof {
            lemma_flip_fields(self.0);
        }
        if invert {
            self.0 = self.0 | FLG_INVERT;
        } else {
            self.0 = self.0 & !FLG_INVERT;
        }
    }

    /// A non-inverted alias of the same slot.
    pub fn noinv(self) -> (r: AIGRef)
        ensures
            r == self.spec_noinv(),
            r.spec_is_pi() == self.spec_is_pi(),
            r.spec_is_invert() == false,
            r.spec_index() == self.spec_index(),
            self.wf() ==> r.wf(),
    {
        proof {
            lemma_flip_fields(self.0);
        }
        AIGRef(self.0 & !FLG_INVERT)
    }

    /// The same slot with the polarity flipped.
    pub fn inv(self) -> (r: AIGRef)
        ensures
            r == self.spec_inv(),
            r.spec_is_pi() == self.spec_is_pi(),
            r.spec_is_invert() == !self.spec_is_invert(),
            r.spec_index() == self.spec_index(),
            self.wf() ==> r.wf(),
    {
        proof {
            lemma_flip_fields(self.0);
        }
        AIGRef(self.0 ^ FLG_INVERT)
    }

    /// The node-store index. Valid only for non-PI handles.
    pub fn idx(&self) -> (r: usize)
        requires
            !self.spec_is_pi(),
            self.spec_index() <= usize::MAX as u64,
        ensures
            r as u64 == self.spec_index(),
    {
        proof {
            let x = self.0;
            assert(x & MASK_IDX <= MASK_IDX) by (bit_vector);
        }
        (self.0 & MASK_IDX) as usize
    }

    /// The primary-input index. Valid only for PI handles.
    pub fn pi_idx(&self) -> (r: usize)
        requires
            self.spec_is_pi(),
            self.spec_index() <= usize::MAX as u64,
        ensures
            r as u64 == self.spec_index(),
    {
        proof {
            let x = self.0;
            assert(x & MASK_IDX <= MASK_IDX) by (bit_vector);
        }
        (self.0 & MASK_IDX) as usize
    }
}

/// Field decomposition of a freshly built handle.
pub proof fn lemma_new_fields(x: u64, invert: bool, pi: bool)
    requires
        x < 0x1_0000_0000_0000u64,
    ensures
        AIGRef::spec_new(x, invert, pi).wf(),
        AIGRef::spec_new(x, invert, pi).spec_is_pi() == pi,
        AIGRef::spec_new(x, invert, pi).spec_is_invert() == invert,
        AIGRef::spec_new(x, invert, pi).spec_index() == x,
{
    let w = x | (if pi { 0x8000_0000_0000_0000u64 } else { 0u64 }) | (if invert {
        0x4000_0000_0000_0000u64
    } else {
        0u64
    });
    assert((w & 0x3fff_0000_0000_0000u64 == 0) && ((w & 0x8000_0000_0000_0000u64 != 0) == pi) && ((
    w & 0x4000_0000_0000_0000u64 != 0) == invert) && (w & 0xffff_ffff_ffffu64 == x))
        by (bit_vector)
        requires
            x < 0x1_0000_0000_0000u64,
            w == x | (if pi { 0x8000_0000_0000_0000u64 } else { 0u64 }) | (if invert {
                0x4000_0000_0000_0000u64
            } else {
                0u64
            }),
    ;
    assert(AIGRef::spec_new(x, invert, pi).0 == w);
}

/// Setting, clearing or toggling the inversion bit leaves the other fields
/// alone.
proof fn lemma_flip_fields(x: u64)
    ensures
        ((x | FLG_INVERT) & FLG_PI != 0) == (x & FLG_PI != 0),
        (x | FLG_INVERT) & FLG_INVERT != 0,
        (x | FLG_INVERT) & MASK_IDX == x & MASK_IDX,
        x & MASK_UNUSED == 0 ==> (x | FLG_INVERT) & MASK_UNUSED == 0,
        ((x & !FLG_INVERT) & FLG_PI != 0) == (x & FLG_PI != 0),
        (x & !FLG_INVERT) & FLG_INVERT == 0,
        (x & !FLG_INVERT) & MASK_IDX == x & MASK_IDX,
        x & MASK_UNUSED == 0 ==> (x & !FLG_INVERT) & MASK_UNUSED == 0,
        ((x ^ FLG_INVERT) & FLG_PI != 0) == (x & FLG_PI != 0),
        ((x ^ FLG_INVERT) & FLG_INVERT != 0) == !(x & FLG_INVERT != 0),
        (x ^ FLG_INVERT) & MASK_IDX == x & MASK_IDX,
        x & MASK_UNUSED == 0 ==> (x ^ FLG_INVERT) & MASK_UNUSED == 0,
{
    assert((((x | 0x4000_0000_0000_0000u64) & 0x8000_0000_0000_0000u64 != 0) == (x
        & 0x8000_0000_0000_0000u64 != 0)) && ((x | 0x4000_0000_0000_0000u64)
        & 0x4000_0000_0000_0000u64 != 0) && ((x | 0x4000_0000_0000_0000u64) & 0xffff_ffff_ffffu64
        == x & 0xffff_ffff_ffffu64) && (x & 0x3fff_0000_0000_0000u64 == 0 ==> (x
        | 0x4000_0000_0000_0000u64) & 0x3fff_0000_0000_0000u64 == 0) && (((x
        & !0x4000_0000_0000_0000u64) & 0x8000_0000_0000_0000u64 != 0) == (x
        & 0x8000_0000_0000_0000u64 != 0)) && ((x & !0x4000_0000_0000_0000u64)
        & 0x4000_0000_0000_0000u64 == 0) && ((x & !0x4000_0000_0000_0000u64) & 0xffff_ffff_ffffu64
        == x & 0xffff_ffff_ffffu64) && (x & 0x3fff_0000_0000_0000u64 == 0 ==> (x
        & !0x4000_0000_0000_0000u64) & 0x3fff_0000_0000_0000u64 == 0) && (((x
        ^ 0x4000_0000_0000_0000u64) & 0x8000_0000_0000_0000u64 != 0) == (x
        & 0x8000_0000_0000_0000u64 != 0)) && (((x ^ 0x4000_0000_0000_0000u64)
        & 0x4000_0000_0000_0000u64 != 0) == !(x & 0x4000_0000_0000_0000u64 != 0)) && ((x
        ^ 0x4000_0000_0000_0000u64) & 0xffff_ffff_ffffu64 == x & 0xffff_ffff_ffffu64) && (x
        & 0x3fff_0000_0000_0000u64 == 0 ==> (x ^ 0x4000_0000_0000_0000u64)
        & 0x3fff_0000_0000_0000u64 == 0)) by (bit_vector);
}

/// Two well-formed handles are equal exactly when all three fields agree.
pub proof fn lemma_ref_eq_fields(a: AIGRef, b: AIGRef)
    requires
        a.wf(),
        b.wf(),
    ensures
        (a == b) <==> (a.spec_is_pi() == b.spec_is_pi() && a.spec_is_invert() == b.spec_is_invert()
            && a.spec_index() == b.spec_index()),
{
    let x = a.0;
    let y = b.0;
    assert((x == y) <==> ((x & 0x8000_0000_0000_0000u64 != 0) == (y & 0x8000_0000_0000_0000u64 != 0)
        && (x & 0x4000_0000_0000_0000u64 != 0) == (y & 0x4000_0000_0000_0000u64 != 0) && x
        & 0xffff_ffff_ffffu64 == y & 0xffff_ffff_ffffu64))
        by (bit_vector)
        requires
            x & 0x3fff_0000_0000_0000u64 == 0,
            y & 0x3fff_0000_0000_0000u64 == 0,
    ;
}

} // verus!
