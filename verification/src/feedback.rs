//! Per-letter and per-word feedback values, and the five-slot position
//! set used to record where a required letter is known not to belong.

use vstd::prelude::*;

verus! {

/// Classification of one guessed letter against the secret: absent,
/// present but misplaced, or confirmed in place.
#[derive(Clone, Copy, PartialEq, Eq, Structural, Debug)]
pub enum LetterFeedback {
    Excluded,
    Required,
    Confirmed,
}

/// The stable ordinal of a feedback value, giving the total order
/// `Excluded < Required < Confirmed`.
pub open spec fn fb_ord(f: LetterFeedback) -> int {
    match f {
        LetterFeedback::Excluded => 0,
        LetterFeedback::Required => 1,
        LetterFeedback::Confirmed => 2,
    }
}

impl LetterFeedback {
    /// The ordinal used by the compact base-3 encoding.
    pub fn rank(self) -> (r: u64)
        ensures
            r == fb_ord(self),
    {
        match self {
            LetterFeedback::Excluded => 0,
            LetterFeedback::Required => 1,
            LetterFeedback::Confirmed => 2,
        }
    }
}

/// The compact integer form of a five-slot feedback signature: base 3,
/// least-significant digit first, so there are 243 distinct values.
pub open spec fn fb_encode(s: Seq<LetterFeedback>) -> int
    recommends
        s.len() == 5,
{
    fb_ord(s[0]) + 3 * fb_ord(s[1]) + 9 * fb_ord(s[2]) + 27 * fb_ord(s[3]) + 81 * fb_ord(s[4])
}

/// The full feedback signature for one guess: five tri-state values.
#[derive(Clone, Copy, Eq, Debug)]
pub struct WordFeedback(pub [LetterFeedback; 5]);

/// The number of distinct `WordFeedback` values.
pub const COMBINATIONS: usize = 243;

impl View for WordFeedback {
    type V = Seq<LetterFeedback>;

    open spec fn view(&self) -> Seq<LetterFeedback> {
        self.0@
    }
}

impl PartialEq for WordFeedback {
    fn eq(&self, other: &WordFeedback) -> (r: bool) {
        let r = self.0[0] == other.0[0] && self.0[1] == other.0[1] && self.0[2] == other.0[2]
            && self.0[3] == other.0[3] && self.0[4] == other.0[4];
        proof {
            broadcast use vstd::array::group_array_axioms;

            if r {
                assert(self.0 =~= other.0);
            }
        }
        r
    }
}

impl vstd::std_specs::cmp::PartialEqSpecImpl for WordFeedback {
    open spec fn obeys_eq_spec() -> bool {
        true
    }

    open spec fn eq_spec(&self, other: &WordFeedback) -> bool {
        *self == *other
    }
}

impl WordFeedback {
    pub fn new(values: [LetterFeedback; 5]) -> (r: WordFeedback)
        ensures
            r@ == values@,
    {
        WordFeedback(values)
    }

    /// The base-3 integer encoding, usable as a map key and for fast
    /// equality and ordering.
    pub fn to_u64(self) -> (r: u64)
        ensures
            r == fb_encode(self@),
            r < 243,
    {
        self.0[0].rank() + 3 * self.0[1].rank() + 9 * self.0[2].rank() + 27 * self.0[3].rank()
            + 81 * self.0[4].rank()
    }

    /// Whether every slot is `Confirmed`: a winning signature.
    pub fn is_all_confirmed(self) -> (r: bool)
        ensures
            r <==> (forall|i: int| 0 <= i < 5 ==> self@[i] == LetterFeedback::Confirmed),
    {
        let r = matches!(self.0[0], LetterFeedback::Confirmed) && matches!(
            self.0[1],
            LetterFeedback::Confirmed,
        ) && matches!(self.0[2], LetterFeedback::Confirmed) && matches!(
            self.0[3],
            LetterFeedback::Confirmed,
        ) && matches!(self.0[4], LetterFeedback::Confirmed);
        assert(r ==> forall|i: int| 0 <= i < 5 ==> self@[i] == LetterFeedback::Confirmed) by {
            if r {
                assert forall|i: int| 0 <= i < 5 implies self@[i] == LetterFeedback::Confirmed by {
                    if i == 0 {
                    } else if i == 1 {
                    } else if i == 2 {
                    } else if i == 3 {
                    } else {
                    }
                }
            }
        }
        r
    }
}

/// Distinct signatures have distinct encodings: the encoding determines
/// every digit.
pub proof fn lemma_fb_encode_injective(a: Seq<LetterFeedback>, b: Seq<LetterFeedback>)
    requires
        a.len() == 5,
        b.len() == 5,
        fb_encode(a) == fb_encode(b),
    ensures
        a =~= b,
{
    assert(fb_ord(a[0]) == fb_ord(b[0]) && fb_ord(a[1]) == fb_ord(b[1]) && fb_ord(a[2]) == fb_ord(
        b[2],
    ) && fb_ord(a[3]) == fb_ord(b[3]) && fb_ord(a[4]) == fb_ord(b[4])) by (nonlinear_arith)
        requires
            fb_encode(a) == fb_encode(b),
            0 <= fb_ord(a[0]) < 3,
            0 <= fb_ord(a[1]) < 3,
            0 <= fb_ord(a[2]) < 3,
            0 <= fb_ord(a[3]) < 3,
            0 <= fb_ord(a[4]) < 3,
            0 <= fb_ord(b[0]) < 3,
            0 <= fb_ord(b[1]) < 3,
            0 <= fb_ord(b[2]) < 3,
            0 <= fb_ord(b[3]) < 3,
            0 <= fb_ord(b[4]) < 3,
    ;
    assert forall|i: int| 0 <= i < 5 implies a[i] == b[i] by {
        assert(fb_ord(a[i]) == fb_ord(b[i]));
    }
}

/// The bit standing for slot `i` in a position set.
pub open spec fn pos_bit(i: int) -> u8 {
    if i == 0 {
        1
    } else if i == 1 {
        2
    } else if i == 2 {
        4
    } else if i == 3 {
        8
    } else {
        16
    }
}

/// A set of slot indices 0..5, stored as the low five bits of a byte.
/// Used to record the positions where a required letter is known *not*
/// to belong.
#[derive(Clone, Copy, PartialEq, Eq, Structural, Debug)]
pub struct Positions {
    pub bits: u8,
}

/// Only the low five bits may be set.
pub open spec fn pos_wf(p: Positions) -> bool {
    p.bits < 32
}

/// Whether slot `i` is in the set.
pub open spec fn pos_contains(p: Positions, i: int) -> bool {
    0 <= i < 5 && p.bits & pos_bit(i) != 0
}

/// The number of slots in the set.
pub open spec fn pos_count(p: Positions) -> int {
    ((p.bits & 1) as int) + (((p.bits >> 1) & 1) as int) + (((p.bits >> 2) & 1) as int) + (((p.bits
        >> 3) & 1) as int) + (((p.bits >> 4) & 1) as int)
}

impl Positions {
    /// The empty set.
    pub fn empty() -> (r: Positions)
        ensures
            pos_wf(r),
            r.bits == 0,
            forall|i: int| !pos_contains(r, i),
            pos_count(r) == 0,
    {
        let r = Positions { bits: 0 };
        assert((0u8 & 1) == 0 && ((0u8 >> 1) & 1) == 0 && ((0u8 >> 2) & 1) == 0 && ((0u8 >> 3) & 1)
            == 0 && ((0u8 >> 4) & 1) == 0) by (bit_vector);
        assert(forall|i: int| !pos_contains(r, i)) by {
            assert((0u8 & 1) == 0 && (0u8 & 2) == 0 && (0u8 & 4) == 0 && (0u8 & 8) == 0 && (0u8
                & 16) == 0) by (bit_vector);
        }
        r
    }

    /// The singleton set holding slot `index`; `None` when `index` is not
    /// a slot.
    pub fn from_index(index: usize) -> (r: Option<Positions>)
        ensures
            r is Some <==> index < 5,
            r is Some ==> pos_wf(r->0),
            r is Some ==> r->0.bits == pos_bit(index as int),
            r is Some ==> forall|j: int| pos_contains(r->0, j) <==> j == index,
            r is Some ==> pos_count(r->0) == 1,
    {
        if index < 5 {
            let bits: u8 = match index {
                0 => 1,
                1 => 2,
                2 => 4,
                3 => 8,
                _ => 16,
            };
            let r = Positions { bits };
            proof {
                lemma_pos_bits(bits);
                assert(bits == pos_bit(index as int));
                assert forall|j: int| pos_contains(r, j) <==> j == index by {
                    lemma_pos_single(bits, index as int, j);
                }
                let b = bits;
                assert((b == 1 || b == 2 || b == 4 || b == 8 || b == 16) ==> ((b & 1) as int) + (((b
                    >> 1) & 1) as int) + (((b >> 2) & 1) as int) + (((b >> 3) & 1) as int) + (((b
                    >> 4) & 1) as int) == 1) by (bit_vector);
            }
            Some(r)
        } else {
            None
        }
    }

    /// The slot of a singleton set.
    pub fn into_index(self) -> (r: usize)
        requires
            pos_wf(self),
            pos_count(self) == 1,
        ensures
            r < 5,
            pos_contains(self, r as int),
            forall|j: int| pos_contains(self, j) ==> j == r,
    {
        let b = self.bits;
        let r: usize = if b & 1 != 0 {
            0
        } else if b & 2 != 0 {
            1
        } else if b & 4 != 0 {
            2
        } else if b & 8 != 0 {
            3
        } else {
            4
        };
        proof {
            assert(pos_contains(self, r as int) && forall|j: int|
                pos_contains(self, j) ==> j == r) by {
                lemma_pos_count_one(b, r as int);
            }
        }
        r
    }

    /// Whether slot `index` is in the set.
    pub fn contains(self, index: usize) -> (r: bool)
        ensures
            r == pos_contains(self, index as int),
    {
        if index >= 5 {
            return false;
        }
        let mask: u8 = match index {
            0 => 1,
            1 => 2,
            2 => 4,
            3 => 8,
            _ => 16,
        };
        self.bits & mask != 0
    }

    /// Adds slot `index` to the set.
    pub fn insert(&mut self, index: usize)
        requires
            pos_wf(*old(self)),
            index < 5,
        ensures
            pos_wf(*final(self)),
            final(self).bits == old(self).bits | pos_bit(index as int),
            forall|j: int|
                pos_contains(*final(self), j) <==> (pos_contains(*old(self), j) || j == index),
    {
        let mask: u8 = match index {
            0 => 1,
            1 => 2,
            2 => 4,
            3 => 8,
            _ => 16,
        };
        let old_bits = self.bits;
        self.bits = self.bits | mask;
        proof {
            lemma_pos_bits(mask);
            assert(mask == pos_bit(index as int));
            lemma_pos_union_bit(old_bits, mask, index as int, 0);
            assert forall|j: int|
                pos_contains(*self, j) <==> (pos_contains(*old(self), j) || j == index) by {
                lemma_pos_union_bit(old_bits, mask, index as int, j);
            }
        }
    }

    /// The union of two sets.
    pub fn union(self, other: Positions) -> (r: Positions)
        requires
            pos_wf(self),
            pos_wf(other),
        ensures
            pos_wf(r),
            forall|j: int| pos_contains(r, j) <==> (pos_contains(self, j) || pos_contains(other, j)),
    {
        let r = Positions { bits: self.bits | other.bits };
        proof {
            let a = self.bits;
            let b = other.bits;
            assert(a < 32 && b < 32 ==> (a | b) < 32) by (bit_vector);
            assert forall|j: int|
                pos_contains(r, j) <==> (pos_contains(self, j) || pos_contains(other, j)) by {
                lemma_pos_or(a, b, j);
            }
        }
        r
    }

    /// The complement within the five slots.
    pub fn complement(self) -> (r: Positions)
        requires
            pos_wf(self),
        ensures
            pos_wf(r),
            forall|j: int| 0 <= j < 5 ==> (pos_contains(r, j) <==> !pos_contains(self, j)),
    {
        let r = Positions { bits: (!self.bits) & 31 };
        proof {
            let a = self.bits;
            assert(((!a) & 31) < 32) by (bit_vector);
            assert forall|j: int| 0 <= j < 5 implies (pos_contains(r, j) <==> !pos_contains(
                self,
                j,
            )) by {
                lemma_pos_not(a, j);
            }
        }
        r
    }

    /// The number of slots in the set.
    pub fn count_ones(self) -> (r: usize)
        ensures
            r == pos_count(self),
    {
        let b = self.bits;
        ((b & 1) as usize) + (((b >> 1) & 1) as usize) + (((b >> 2) & 1) as usize) + (((b >> 3)
            & 1) as usize) + (((b >> 4) & 1) as usize)
    }

    /// Whether the set holds no slot.
    pub fn is_empty(self) -> (r: bool)
        requires
            pos_wf(self),
        ensures
            r <==> (forall|j: int| !pos_contains(self, j)),
    {
        let b = self.bits;
        let r = b == 0;
        proof {
            if r {
                assert forall|j: int| !pos_contains(self, j) by {
                    assert((0u8 & 1) == 0 && (0u8 & 2) == 0 && (0u8 & 4) == 0 && (0u8 & 8) == 0 && (
                    0u8 & 16) == 0) by (bit_vector);
                }
            } else {
                assert(b < 32 && b != 0 ==> (b & 1) != 0 || (b & 2) != 0 || (b & 4) != 0 || (b & 8)
                    != 0 || (b & 16) != 0) by (bit_vector);
                lemma_pos_bits(1);
                lemma_pos_bits(2);
                lemma_pos_bits(4);
                lemma_pos_bits(8);
                lemma_pos_bits(16);
                if b & 1 != 0 {
                    assert(pos_contains(self, 0));
                } else if b & 2 != 0 {
                    assert(pos_contains(self, 1));
                } else if b & 4 != 0 {
                    assert(pos_contains(self, 2));
                } else if b & 8 != 0 {
                    assert(pos_contains(self, 3));
                } else {
                    assert(pos_contains(self, 4));
                }
            }
        }
        r
    }
}

/// Names each power-of-two mask as the bit of its slot.
proof fn lemma_pos_bits(mask: u8)
    requires
        mask == 1 || mask == 2 || mask == 4 || mask == 8 || mask == 16,
    ensures
        mask == 1 ==> mask == pos_bit(0),
        mask == 2 ==> mask == pos_bit(1),
        mask == 4 ==> mask == pos_bit(2),
        mask == 8 ==> mask == pos_bit(3),
        mask == 16 ==> mask == pos_bit(4),
{
}

/// A singleton mask contains exactly its own slot.
pub proof fn lemma_pos_single(bits: u8, i: int, j: int)
    requires
        0 <= i < 5,
        bits == pos_bit(i),
    ensures
        pos_contains(Positions { bits }, j) <==> j == i,
{
    assert((1u8 & 1) != 0 && (1u8 & 2) == 0 && (1u8 & 4) == 0 && (1u8 & 8) == 0 && (1u8 & 16) == 0)
        by (bit_vector);
    assert((2u8 & 1) == 0 && (2u8 & 2) != 0 && (2u8 & 4) == 0 && (2u8 & 8) == 0 && (2u8 & 16) == 0)
        by (bit_vector);
    assert((4u8 & 1) == 0 && (4u8 & 2) == 0 && (4u8 & 4) != 0 && (4u8 & 8) == 0 && (4u8 & 16) == 0)
        by (bit_vector);
    assert((8u8 & 1) == 0 && (8u8 & 2) == 0 && (8u8 & 4) == 0 && (8u8 & 8) != 0 && (8u8 & 16) == 0)
        by (bit_vector);
    assert((16u8 & 1) == 0 && (16u8 & 2) == 0 && (16u8 & 4) == 0 && (16u8 & 8) == 0 && (16u8 & 16)
        != 0) by (bit_vector);
}

/// Membership in a union of one extra bit.
proof fn lemma_pos_union_bit(a: u8, mask: u8, i: int, j: int)
    requires
        a < 32,
        0 <= i < 5,
        mask == pos_bit(i),
    ensures
        pos_wf(Positions { bits: a | mask }),
        pos_contains(Positions { bits: a | mask }, j) <==> (pos_contains(Positions { bits: a }, j)
            || j == i),
{
    assert(a < 32 && (mask == 1 || mask == 2 || mask == 4 || mask == 8 || mask == 16) ==> (a | mask)
        < 32) by (bit_vector);
    lemma_pos_or(a, mask, j);
    lemma_pos_single(mask, i, j);
}

/// Membership in a union.
pub proof fn lemma_pos_or(a: u8, b: u8, j: int)
    ensures
        pos_contains(Positions { bits: a | b }, j) <==> (pos_contains(Positions { bits: a }, j)
            || pos_contains(Positions { bits: b }, j)),
{
    assert(((a | b) & 1 != 0) == (a & 1 != 0 || b & 1 != 0)) by (bit_vector);
    assert(((a | b) & 2 != 0) == (a & 2 != 0 || b & 2 != 0)) by (bit_vector);
    assert(((a | b) & 4 != 0) == (a & 4 != 0 || b & 4 != 0)) by (bit_vector);
    assert(((a | b) & 8 != 0) == (a & 8 != 0 || b & 8 != 0)) by (bit_vector);
    assert(((a | b) & 16 != 0) == (a & 16 != 0 || b & 16 != 0)) by (bit_vector);
}

/// Membership in a complement, within the five slots.
proof fn lemma_pos_not(a: u8, j: int)
    requires
        0 <= j < 5,
    ensures
        pos_contains(Positions { bits: (!a) & 31 }, j) <==> !pos_contains(Positions { bits: a }, j),
{
    assert((((!a) & 31) & 1 != 0) == (a & 1 == 0)) by (bit_vector);
    assert((((!a) & 31) & 2 != 0) == (a & 2 == 0)) by (bit_vector);
    assert((((!a) & 31) & 4 != 0) == (a & 4 == 0)) by (bit_vector);
    assert((((!a) & 31) & 8 != 0) == (a & 8 == 0)) by (bit_vector);
    assert((((!a) & 31) & 16 != 0) == (a & 16 == 0)) by (bit_vector);
}

/// In a set of exactly one slot, any held slot is that slot.
proof fn lemma_pos_count_one(b: u8, r: int)
    requires
        b < 32,
        pos_count(Positions { bits: b }) == 1,
        r == (if b & 1 != 0 {
            0int
        } else if b & 2 != 0 {
            1int
        } else if b & 4 != 0 {
            2int
        } else if b & 8 != 0 {
            3int
        } else {
            4int
        }),
    ensures
        0 <= r < 5,
        pos_contains(Positions { bits: b }, r),
        forall|j: int| pos_contains(Positions { bits: b }, j) ==> j == r,
{
    assert(b < 32 && ((b & 1) as int) + (((b >> 1) & 1) as int) + (((b >> 2) & 1) as int) + (((b
        >> 3) & 1) as int) + (((b >> 4) & 1) as int) == 1 ==> (b == 1 || b == 2 || b == 4 || b == 8
        || b == 16)) by (bit_vector);
    assert((1u8 & 1) != 0 && (2u8 & 1) == 0 && (2u8 & 2) != 0 && (4u8 & 1) == 0 && (4u8 & 2) == 0
        && (4u8 & 4) != 0 && (8u8 & 1) == 0 && (8u8 & 2) == 0 && (8u8 & 4) == 0 && (8u8 & 8) != 0
        && (16u8 & 1) == 0 && (16u8 & 2) == 0 && (16u8 & 4) == 0 && (16u8 & 8) == 0 && (16u8 & 16)
        != 0) by (bit_vector);
    assert(b == pos_bit(r));
    lemma_pos_single(b, r, r);
    assert forall|j: int| pos_contains(Positions { bits: b }, j) implies j == r by {
        lemma_pos_single(b, r, j);
    }
}

} // verus!
