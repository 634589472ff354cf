//! The marching-squares contour of a square cell, as the set of its inside corners.
use vstd::prelude::*;
use core::ops::Not;
use vstd::std_specs::ops::{BitAndSpecImpl, BitOrSpecImpl, BitXorSpecImpl, NotSpecImpl};
use crate::bits::{bit8, set_bits8, lemma_bit8_test, lemma_bit8_shift_step, lemma_u8_one_shl};
use crate::neighbours::lemma_set_bits8_below;

verus! {

/// The corners of a square cell that lie inside a surface, as one of the sixteen masks.
///
/// Bit 0 is the upper right corner, bit 1 the upper left, bit 2 the lower right and bit 3 the
/// lower left.
#[allow(non_camel_case_types)]
#[derive(Debug, Copy, Clone, PartialEq, Eq, PartialOrd, Ord, Hash, Default)]
pub enum Contour {
    #[default]
    /// No corner inside.
    EMPTY,
    /// Upper right corner inside.
    UR,
    /// Upper left corner inside.
    UL,
    /// Both upper corners inside.
    UP,
    /// Lower right corner inside.
    DR,
    /// Both right corners inside.
    RIGHT,
    /// Upper left and lower right corners inside.
    UL_DR,
    /// All but the lower left corner inside.
    INV_DL,
    /// Lower left corner inside.
    DL,
    /// Upper right and lower left corners inside.
    UR_DL,
    /// Both left corners inside.
    LEFT,
    /// All but the lower right corner inside.
    INV_DR,
    /// Both lower corners inside.
    DOWN,
    /// All but the upper left corner inside.
    INV_UL,
    /// All but the upper right corner inside.
    INV_UR,
    /// Every corner inside.
    FULL,
}

/// A side of a square cell.
#[derive(Debug, Copy, Clone, PartialEq, Eq, PartialOrd, Ord, Hash)]
pub enum Side {
    Upper,
    Lower,
    Left,
    Right,
}

/// The contour with mask `b`, read modulo 16.
pub open spec fn contour_of(b: u8) -> Contour {
    let b = b % 16;
    if b == 0 { Contour::EMPTY } else if b == 1 { Contour::UR } else if b == 2 { Contour::UL } else if b == 3 { Contour::UP } else if b == 4 { Contour::DR } else if b == 5 { Contour::RIGHT } else if b == 6 { Contour::UL_DR } else if b == 7 { Contour::INV_DL } else if b == 8 { Contour::DL } else if b == 9 { Contour::UR_DL } else if b == 10 { Contour::LEFT } else if b == 11 { Contour::INV_DR } else if b == 12 { Contour::DOWN } else if b == 13 { Contour::INV_UL } else if b == 14 { Contour::INV_UR } else { Contour::FULL }
}

impl Contour {
    /// The corner mask of the contour.
    pub open spec fn spec_bits(self) -> u8 {
        match self {
            Contour::EMPTY => 0u8,
            Contour::UR => 1u8,
            Contour::UL => 2u8,
            Contour::UP => 3u8,
            Contour::DR => 4u8,
            Contour::RIGHT => 5u8,
            Contour::UL_DR => 6u8,
            Contour::INV_DL => 7u8,
            Contour::DL => 8u8,
            Contour::UR_DL => 9u8,
            Contour::LEFT => 10u8,
            Contour::INV_DR => 11u8,
            Contour::DOWN => 12u8,
            Contour::INV_UL => 13u8,
            Contour::INV_UR => 14u8,
            Contour::FULL => 15u8,
        }
    }

    /// The corner mask of the contour.
    pub fn bits(&self) -> (r: usize)
        ensures
            r == self.spec_bits(),
    {
        self.bits8() as usize
    }

    /// The contour's four corner bits.
    fn bits8(&self) -> (r: u8)
        ensures
            r == self.spec_bits(),
            r < 16,
    {
        match self {
            Contour::EMPTY => 0,
            Contour::UR => 1,
            Contour::UL => 2,
            Contour::UP => 3,
            Contour::DR => 4,
            Contour::RIGHT => 5,
            Contour::UL_DR => 6,
            Contour::INV_DL => 7,
            Contour::DL => 8,
            Contour::UR_DL => 9,
            Contour::LEFT => 10,
            Contour::INV_DR => 11,
            Contour::DOWN => 12,
            Contour::INV_UL => 13,
            Contour::INV_UR => 14,
            Contour::FULL => 15,
        }
    }

    /// The contour with the given four corner bits.
    fn from_bits8(b: u8) -> (r: Contour)
        requires
            b < 16,
        ensures
            r.spec_bits() == b,
            r == contour_of(b),
    {
        if b == 0 { Contour::EMPTY } else if b == 1 { Contour::UR } else if b == 2 { Contour::UL } else if b == 3 { Contour::UP } else if b == 4 { Contour::DR } else if b == 5 { Contour::RIGHT } else if b == 6 { Contour::UL_DR } else if b == 7 { Contour::INV_DL } else if b == 8 { Contour::DL } else if b == 9 { Contour::UR_DL } else if b == 10 { Contour::LEFT } else if b == 11 { Contour::INV_DR } else if b == 12 { Contour::DOWN } else if b == 13 { Contour::INV_UL } else if b == 14 { Contour::INV_UR } else { Contour::FULL }
    }

    /// The contour with mask `bits`, if no bit above the four corners is set.
    pub fn from_bits(bits: usize) -> (r: Option<Contour>)
        ensures
            r is Some <==> bits < 16,
            r matches Some(c) ==> c.spec_bits() == bits,
    {
        if bits < 16 {
            Some(Self::from_bits8(bits as u8))
        } else {
            None
        }
    }

    /// The contour with mask `bits` with every bit above the four corners dropped.
    pub fn from_bits_truncate(bits: usize) -> (r: Contour)
        ensures
            r.spec_bits() == bits % 16,
    {
        Self::from_bits8((bits % 16) as u8)
    }

    /// No corner inside.
    pub fn empty() -> (r: Contour)
        ensures
            r.spec_bits() == 0,
    {
        Contour::EMPTY
    }

    /// Every corner inside.
    pub fn all() -> (r: Contour)
        ensures
            r.spec_bits() == 15,
    {
        Contour::FULL
    }

    /// Whether no corner is inside.
    pub fn is_empty(&self) -> (r: bool)
        ensures
            r == (self.spec_bits() == 0),
    {
        self.bits8() == 0
    }

    /// Whether every corner is inside.
    pub fn is_all(&self) -> (r: bool)
        ensures
            r == (self.spec_bits() == 15),
    {
        self.bits8() == 15
    }

    /// Whether every corner of `other` is inside `self`.
    pub fn contains(&self, other: Contour) -> (r: bool)
        ensures
            r == (self.spec_bits() & other.spec_bits() == other.spec_bits()),
    {
        self.bits8() & other.bits8() == other.bits8()
    }

    /// The single-corner contours inside `self`, lowest bit first.
    pub fn iter(&self) -> (r: Vec<Contour>)
        ensures
            r@.len() == set_bits8(self.spec_bits(), 4).len(),
            forall|k: int|
                0 <= k < r@.len() ==> (#[trigger] r@[k]).spec_bits() == 1u8 << set_bits8(
                    self.spec_bits(),
                    4,
                )[k],
    {
        let x = self.bits8();
        let mut cand = x;
        let mut out: Vec<Contour> = Vec::new();
        let mut i: u8 = 0;
        proof {
            lemma_bit8_shift_step(x, 0);
        }
        while i < 4
            invariant
                i <= 4,
                cand == x >> i,
                x == self.spec_bits(),
                out@.len() == set_bits8(x, i as nat).len(),
                forall|k: int|
                    0 <= k < out@.len() ==> (#[trigger] out@[k]).spec_bits() == 1u8 << set_bits8(
                        x,
                        i as nat,
                    )[k],
            decreases 4 - i,
        {
            proof {
                lemma_bit8_shift_step(x, i);
            }
            let v = cand & 1;
            cand = cand >> 1;
            if v > 0 {
                proof {
                    lemma_u8_one_shl(i);
                    vstd::arithmetic::power2::lemma2_to64();
                }
                out.push(Self::from_bits8(v << i));
            }
            i += 1;
        }
        out
    }

    /// One of the four sides `UP`, `LEFT`, `RIGHT` and `DOWN`.
    pub open spec fn is_side(self) -> bool {
        self == Contour::UP || self == Contour::LEFT || self == Contour::RIGHT || self == Contour::DOWN
    }

    /// Whether `side` is one of the four sides.
    fn check_side(side: Contour) -> (r: bool)
        ensures
            r == side.is_side(),
    {
        match side {
            Contour::UP | Contour::LEFT | Contour::RIGHT | Contour::DOWN => true,
            _ => false,
        }
    }

    /// The corners of `side`, lowest first, paired in order with the corners off it: whether each
    /// pair agrees on whether `self` holds the first and `rhs` the second.
    pub open spec fn spec_neighbours(self, rhs: Contour, side: Contour) -> bool {
        let on = set_bits8(side.spec_bits(), 4);
        let off = set_bits8(!side.spec_bits() & 15u8, 4);
        forall|k: int|
            0 <= k < on.len() && k < off.len() ==> bit8(self.spec_bits(), #[trigger] on[k]) == bit8(
                rhs.spec_bits(),
                off[k],
            )
    }

    /// Test whether `self` can connect to `rhs` on the given side.
    pub fn neighbours(self, rhs: Contour, side: Contour) -> (r: bool)
        requires
            side.is_side(),
        ensures
            r == self.spec_neighbours(rhs, side),
    {
        proof {
            lemma_contour_mask(side.spec_bits(), 0);
            lemma_contour_of(!side.spec_bits() & 15u8);
        }
        let on = side.iter();
        let off = side.not().iter();
        let ghost son = set_bits8(side.spec_bits(), 4);
        let ghost soff = set_bits8(!side.spec_bits() & 15u8, 4);
        let len = if on.len() < off.len() {
            on.len()
        } else {
            off.len()
        };
        let a = self.bits8();
        let b = rhs.bits8();
        proof {
            assert forall|j: int| 0 <= j < son.len() implies son[j] < 4 by {
                lemma_set_bits8_below(side.spec_bits(), 4, j);
            }
            assert forall|j: int| 0 <= j < soff.len() implies soff[j] < 4 by {
                lemma_set_bits8_below(!side.spec_bits() & 15u8, 4, j);
            }
        }
        let mut acc = true;
        let mut k: usize = 0;
        while k < len
            invariant
                k <= len,
                len <= on@.len(),
                len <= off@.len(),
                len == on@.len() || len == off@.len(),
                on@.len() == son.len(),
                off@.len() == soff.len(),
                a == self.spec_bits(),
                b == rhs.spec_bits(),
                forall|j: int| 0 <= j < on@.len() ==> (#[trigger] on@[j]).spec_bits() == 1u8 << son[j],
                forall|j: int| 0 <= j < off@.len() ==> (#[trigger] off@[j]).spec_bits() == 1u8 << soff[j],
                forall|j: int| 0 <= j < son.len() ==> son[j] < 4,
                forall|j: int| 0 <= j < soff.len() ==> soff[j] < 4,
                acc == forall|j: int| 0 <= j < k ==> bit8(a, #[trigger] son[j]) == bit8(b, soff[j]),
            decreases len - k,
        {
            let from = on[k].bits8();
            let to = off[k].bits8();
            proof {
                assert(on@[k as int].spec_bits() == 1u8 << son[k as int]);
                assert(off@[k as int].spec_bits() == 1u8 << soff[k as int]);
                lemma_bit8_test(a, son[k as int]);
                lemma_bit8_test(b, soff[k as int]);
            }
            let same = ((a & from) == 0) == ((b & to) == 0);
            let ghost old_acc = acc;
            acc = acc && same;
            proof {
                if acc {
                    assert forall|j: int| 0 <= j < k + 1 implies bit8(a, #[trigger] son[j]) == bit8(
                        b,
                        soff[j],
                    ) by {
                        if j < k {
                            assert(old_acc);
                        }
                    }
                }
            }
            k += 1;
        }
        acc
    }

    /// Whether `self` changes sign along `side`: exactly one of the side's two corners is inside.
    pub open spec fn spec_has_sign_change(self, side: Contour) -> bool {
        let on = set_bits8(side.spec_bits(), 4);
        bit8(self.spec_bits(), on[0]) != bit8(self.spec_bits(), on[1])
    }

    /// Test whether `self` changes sign on the given side.
    pub fn has_sign_change(self, side: Contour) -> (r: bool)
        requires
            side.is_side(),
        ensures
            r == self.spec_has_sign_change(side),
    {
        let on = side.iter();
        let ghost son = set_bits8(side.spec_bits(), 4);
        proof {
            reveal_with_fuel(set_bits8, 5);
            lemma_side_bits(side.spec_bits());
            assert(son.len() == 2);
            lemma_set_bits8_below(side.spec_bits(), 4, 0);
            lemma_set_bits8_below(side.spec_bits(), 4, 1);
            assert(on@[0].spec_bits() == 1u8 << son[0]);
            assert(on@[1].spec_bits() == 1u8 << son[1]);
            lemma_bit8_test(self.spec_bits(), son[0]);
            lemma_bit8_test(self.spec_bits(), son[1]);
        }
        let al = on[0].bits8();
        let ar = on[1].bits8();
        let a = self.bits8();
        ((a & al) == 0) != ((a & ar) == 0)
    }

    /// The pairs of sides that the contour's segments join.
    pub open spec fn spec_sides(self) -> Seq<(Side, Side)> {
        match self {
            Contour::EMPTY => seq![],
            Contour::UL => seq![(Side::Upper, Side::Left)],
            Contour::UR => seq![(Side::Upper, Side::Right)],
            Contour::DL => seq![(Side::Lower, Side::Left)],
            Contour::DR => seq![(Side::Lower, Side::Right)],
            Contour::UP => seq![(Side::Left, Side::Right)],
            Contour::RIGHT => seq![(Side::Upper, Side::Lower)],
            Contour::DOWN => seq![(Side::Left, Side::Right)],
            Contour::LEFT => seq![(Side::Upper, Side::Lower)],
            Contour::INV_UL => seq![(Side::Upper, Side::Left)],
            Contour::INV_UR => seq![(Side::Upper, Side::Right)],
            Contour::INV_DL => seq![(Side::Lower, Side::Left)],
            Contour::INV_DR => seq![(Side::Lower, Side::Right)],
            Contour::UL_DR => seq![(Side::Upper, Side::Left), (Side::Lower, Side::Right)],
            Contour::UR_DL => seq![(Side::Upper, Side::Right), (Side::Lower, Side::Left)],
            Contour::FULL => seq![],
        }
    }

    /// The pairs of sides that the contour's segments join.
    pub fn sides(self) -> (r: Vec<[Side; 2]>)
        ensures
            r@.len() == self.spec_sides().len(),
            forall|k: int|
                0 <= k < r@.len() ==> (#[trigger] r@[k])@ == seq![
                    self.spec_sides()[k].0,
                    self.spec_sides()[k].1,
                ],
    {
        match self {
            Contour::EMPTY => vec![],
            Contour::UL => vec![[Side::Upper, Side::Left]],
            Contour::UR => vec![[Side::Upper, Side::Right]],
            Contour::DL => vec![[Side::Lower, Side::Left]],
            Contour::DR => vec![[Side::Lower, Side::Right]],
            Contour::UP => vec![[Side::Left, Side::Right]],
            Contour::RIGHT => vec![[Side::Upper, Side::Lower]],
            Contour::DOWN => vec![[Side::Left, Side::Right]],
            Contour::LEFT => vec![[Side::Upper, Side::Lower]],
            Contour::INV_UL => vec![[Side::Upper, Side::Left]],
            Contour::INV_UR => vec![[Side::Upper, Side::Right]],
            Contour::INV_DL => vec![[Side::Lower, Side::Left]],
            Contour::INV_DR => vec![[Side::Lower, Side::Right]],
            Contour::UL_DR => vec![[Side::Upper, Side::Left], [Side::Lower, Side::Right]],
            Contour::UR_DL => vec![[Side::Upper, Side::Right], [Side::Lower, Side::Left]],
            Contour::FULL => vec![],
        }
    }

    /// The contour of a cell whose corners are sampled in the order lower left, lower right,
    /// upper left, upper right; `inside[i]` tells whether the sample lies inside the surface.
    pub fn from_samples(inside: [bool; 4]) -> (r: Contour)
        ensures
            bit8(r.spec_bits(), 3) == inside[0],
            bit8(r.spec_bits(), 2) == inside[1],
            bit8(r.spec_bits(), 1) == inside[2],
            bit8(r.spec_bits(), 0) == inside[3],
    {
        let mut index: u8 = 0;
        if inside[0] {
            index = index + 8;
        }
        if inside[1] {
            index = index + 4;
        }
        if inside[2] {
            index = index + 2;
        }
        if inside[3] {
            index = index + 1;
        }
        proof {
            lemma_contour_index(inside[0], inside[1], inside[2], inside[3], index);
        }
        Self::from_bits8(index)
    }
}

/// The index built from four corner samples holds them as its four bits.
proof fn lemma_contour_index(a: bool, b: bool, c: bool, d: bool, index: u8)
    by (bit_vector)
    requires
        index == (if a { 8u8 } else { 0u8 }) + (if b { 4u8 } else { 0u8 }) + (if c { 2u8 } else { 0u8 })
            + (if d { 1u8 } else { 0u8 }),
    ensures
        index < 16,
        bit8(index, 3) == a,
        bit8(index, 2) == b,
        bit8(index, 1) == c,
        bit8(index, 0) == d,
{
}

impl core::ops::BitAnd for Contour {
    type Output = Contour;

    fn bitand(self, rhs: Contour) -> (r: Contour) {
        proof {
            lemma_contour_mask(self.spec_bits(), rhs.spec_bits());
        }
        Contour::from_bits8(self.bits8() & rhs.bits8())
    }
}

impl BitAndSpecImpl for Contour {
    open spec fn obeys_bitand_spec() -> bool {
        true
    }

    open spec fn bitand_req(self, rhs: Contour) -> bool {
        true
    }

    open spec fn bitand_spec(self, rhs: Contour) -> Contour {
        contour_of(self.spec_bits() & rhs.spec_bits())
    }
}

impl core::ops::BitOr for Contour {
    type Output = Contour;

    fn bitor(self, rhs: Contour) -> (r: Contour) {
        proof {
            lemma_contour_mask(self.spec_bits(), rhs.spec_bits());
        }
        Contour::from_bits8(self.bits8() | rhs.bits8())
    }
}

impl BitOrSpecImpl for Contour {
    open spec fn obeys_bitor_spec() -> bool {
        true
    }

    open spec fn bitor_req(self, rhs: Contour) -> bool {
        true
    }

    open spec fn bitor_spec(self, rhs: Contour) -> Contour {
        contour_of(self.spec_bits() | rhs.spec_bits())
    }
}

impl core::ops::BitXor for Contour {
    type Output = Contour;

    fn bitxor(self, rhs: Contour) -> (r: Contour) {
        proof {
            lemma_contour_mask(self.spec_bits(), rhs.spec_bits());
        }
        Contour::from_bits8(self.bits8() ^ rhs.bits8())
    }
}

impl BitXorSpecImpl for Contour {
    open spec fn obeys_bitxor_spec() -> bool {
        true
    }

    open spec fn bitxor_req(self, rhs: Contour) -> bool {
        true
    }

    open spec fn bitxor_spec(self, rhs: Contour) -> Contour {
        contour_of(self.spec_bits() ^ rhs.spec_bits())
    }
}

impl core::ops::Not for Contour {
    type Output = Contour;

    /// The complement within the four corners.
    fn not(self) -> (r: Contour) {
        proof {
            lemma_contour_mask(self.spec_bits(), 0);
        }
        Contour::from_bits8(!self.bits8() & 15)
    }
}

impl NotSpecImpl for Contour {
    open spec fn obeys_not_spec() -> bool {
        true
    }

    open spec fn not_req(self) -> bool {
        true
    }

    open spec fn not_spec(self) -> Contour {
        contour_of(!self.spec_bits() & 15u8)
    }
}

/// Reading a mask back from its contour.
pub proof fn lemma_contour_of(b: u8)
    requires
        b < 16,
    ensures
        contour_of(b).spec_bits() == b,
{
}

/// Which corners each of the four sides holds.
proof fn lemma_side_bits(x: u8)
    by (bit_vector)
    ensures
        (x == 3 || x == 5 || x == 10 || x == 12) ==> ({
            let y = !x & 15u8;
            &&& bit8(x, 0) == (x == 3 || x == 5)
            &&& bit8(x, 1) == (x == 3 || x == 10)
            &&& bit8(x, 2) == (x == 5 || x == 12)
            &&& bit8(x, 3) == (x == 10 || x == 12)
            &&& bit8(y, 0) == !(x == 3 || x == 5)
            &&& bit8(y, 1) == !(x == 3 || x == 10)
            &&& bit8(y, 2) == !(x == 5 || x == 12)
            &&& bit8(y, 3) == !(x == 10 || x == 12)
        }),
{
}

/// The complement within the four corners.
proof fn lemma_complement4(x: u8, i: u8)
    by (bit_vector)
    requires
        x < 16,
        i < 4,
    ensures
        bit8(!x & 15u8, i) == !bit8(x, i),
        !x & 15u8 == 15 - x,
{
}

/// Neighbouring contours agree on the two corner pairs that face each other across `side`.
proof fn lemma_neighbour_pairs(a: Contour, b: Contour, side: Contour, p0: u8, q0: u8, p1: u8, q1: u8)
    requires
        set_bits8(side.spec_bits(), 4) =~= seq![p0, p1],
        set_bits8(!side.spec_bits() & 15u8, 4) =~= seq![q0, q1],
    ensures
        a.spec_neighbours(b, side) == (bit8(a.spec_bits(), p0) == bit8(b.spec_bits(), q0) && bit8(
            a.spec_bits(),
            p1,
        ) == bit8(b.spec_bits(), q1)),
{
    let on = set_bits8(side.spec_bits(), 4);
    let off = set_bits8(!side.spec_bits() & 15u8, 4);
    if a.spec_neighbours(b, side) {
        assert(bit8(a.spec_bits(), on[0]) == bit8(b.spec_bits(), off[0]));
        assert(bit8(a.spec_bits(), on[1]) == bit8(b.spec_bits(), off[1]));
    }
}

/// Whether two squares agree along a side does not depend on which one is looked at from:
/// `a` meets `b` on its upper side exactly when `b` meets `a` on its lower side, and likewise
/// for the left and right sides.
pub proof fn lemma_neighbours_opposite(a: Contour, b: Contour)
    ensures
        a.spec_neighbours(b, Contour::UP) == b.spec_neighbours(a, Contour::DOWN),
        a.spec_neighbours(b, Contour::DOWN) == b.spec_neighbours(a, Contour::UP),
        a.spec_neighbours(b, Contour::LEFT) == b.spec_neighbours(a, Contour::RIGHT),
        a.spec_neighbours(b, Contour::RIGHT) == b.spec_neighbours(a, Contour::LEFT),
{
    reveal_with_fuel(set_bits8, 5);
    lemma_side_bits(3);
    lemma_side_bits(5);
    lemma_side_bits(10);
    lemma_side_bits(12);
    let up = set_bits8(3, 4);
    let down = set_bits8(12, 4);
    let left = set_bits8(10, 4);
    let right = set_bits8(5, 4);
    assert(up =~= seq![0u8, 1u8]);
    assert(down =~= seq![2u8, 3u8]);
    assert(left =~= seq![1u8, 3u8]);
    assert(right =~= seq![0u8, 2u8]);
    assert(!3u8 & 15u8 == 12u8 && !12u8 & 15u8 == 3u8 && !10u8 & 15u8 == 5u8 && !5u8 & 15u8
        == 10u8) by (bit_vector);
    lemma_neighbour_pairs(a, b, Contour::UP, 0, 2, 1, 3);
    lemma_neighbour_pairs(b, a, Contour::DOWN, 2, 0, 3, 1);
    lemma_neighbour_pairs(a, b, Contour::DOWN, 2, 0, 3, 1);
    lemma_neighbour_pairs(b, a, Contour::UP, 0, 2, 1, 3);
    lemma_neighbour_pairs(a, b, Contour::LEFT, 1, 0, 3, 2);
    lemma_neighbour_pairs(b, a, Contour::RIGHT, 0, 1, 2, 3);
    lemma_neighbour_pairs(a, b, Contour::RIGHT, 0, 1, 2, 3);
    lemma_neighbour_pairs(b, a, Contour::LEFT, 1, 0, 3, 2);
}

/// A sign change along a side stays a sign change when inside and outside are swapped.
pub proof fn lemma_sign_change_complement(c: Contour, side: Contour)
    requires
        side.is_side(),
    ensures
        contour_of(!c.spec_bits() & 15u8).spec_has_sign_change(side) == c.spec_has_sign_change(side),
{
    reveal_with_fuel(set_bits8, 5);
    lemma_side_bits(side.spec_bits());
    let x = c.spec_bits();
    lemma_contour_mask(x, 0);
    lemma_contour_of(!x & 15u8);
    let on = set_bits8(side.spec_bits(), 4);
    assert(on.len() == 2 && on[0] < 4 && on[1] < 4);
    lemma_complement4(x, on[0]);
    lemma_complement4(x, on[1]);
}

/// Swapping inside and outside keeps the segments of every contour but the two saddles; for
/// the saddles `UL_DR` and `UR_DL` each takes the other's segments.
pub proof fn lemma_sides_complement(c: Contour)
    ensures
        c != Contour::UL_DR && c != Contour::UR_DL ==> contour_of(!c.spec_bits() & 15u8).spec_sides() == c.spec_sides(),
        c == Contour::UL_DR ==> contour_of(!c.spec_bits() & 15u8).spec_sides() == Contour::UR_DL.spec_sides(),
        c == Contour::UR_DL ==> contour_of(!c.spec_bits() & 15u8).spec_sides() == Contour::UL_DR.spec_sides(),
{
    let x = c.spec_bits();
    lemma_complement4(x, 0);
    lemma_contour_mask(x, 0);
    lemma_contour_of(!x & 15u8);
}

/// Bit operations on four-bit masks stay within four bits.
proof fn lemma_contour_mask(a: u8, b: u8)
    by (bit_vector)
    requires
        a < 16,
        b < 16,
    ensures
        a & b < 16,
        a | b < 16,
        a ^ b < 16,
        !a & 15u8 < 16,
        (a & b) % 16 == a & b,
        (a | b) % 16 == a | b,
        (a ^ b) % 16 == a ^ b,
        (!a & 15u8) % 16 == !a & 15u8,
{
}


/// The four corner bits of a contour mask.
proof fn lemma_bits4(x: u8)
    by (bit_vector)
    requires
        x < 16,
    ensures
        bit8(x, 0) == (x % 2 == 1),
        bit8(x, 1) == ((x / 2) % 2 == 1),
        bit8(x, 2) == ((x / 4) % 2 == 1),
        bit8(x, 3) == (x / 8 == 1),
{
}

/// The contour flag of a side.
pub open spec fn side_flag(s: Side) -> Contour {
    match s {
        Side::Upper => Contour::UP,
        Side::Lower => Contour::DOWN,
        Side::Left => Contour::LEFT,
        Side::Right => Contour::RIGHT,
    }
}

/// The sides that the contour's segments join, two for each segment, in order.
pub open spec fn segment_sides(c: Contour) -> Seq<Side> {
    let s = c.spec_sides();
    if s.len() == 0 {
        seq![]
    } else if s.len() == 1 {
        seq![s[0].0, s[0].1]
    } else {
        seq![s[0].0, s[0].1, s[1].0, s[1].1]
    }
}

/// Which of its two corners each side joins, and so whether the contour changes sign along it.
proof fn lemma_side_sign_changes(c: Contour)
    ensures
        c.spec_has_sign_change(Contour::UP) == (bit8(c.spec_bits(), 0) != bit8(c.spec_bits(), 1)),
        c.spec_has_sign_change(Contour::DOWN) == (bit8(c.spec_bits(), 2) != bit8(c.spec_bits(), 3)),
        c.spec_has_sign_change(Contour::LEFT) == (bit8(c.spec_bits(), 1) != bit8(c.spec_bits(), 3)),
        c.spec_has_sign_change(Contour::RIGHT) == (bit8(c.spec_bits(), 0) != bit8(c.spec_bits(), 2)),
{
    reveal_with_fuel(set_bits8, 5);
    lemma_side_bits(3);
    lemma_side_bits(5);
    lemma_side_bits(10);
    lemma_side_bits(12);
    assert(set_bits8(3, 4) =~= seq![0u8, 1]);
    assert(set_bits8(12, 4) =~= seq![2u8, 3]);
    assert(set_bits8(10, 4) =~= seq![1u8, 3]);
    assert(set_bits8(5, 4) =~= seq![0u8, 2]);
}

/// Marching squares joins exactly the sides along which the contour changes sign, each of
/// them once, and no segment joins a side to itself.
pub proof fn lemma_sides_sign_changes(c: Contour)
    ensures
        forall|s: Side| segment_sides(c).contains(s) <==> c.spec_has_sign_change(side_flag(s)),
        segment_sides(c).no_duplicates(),
        forall|k: int| 0 <= k < c.spec_sides().len() ==> c.spec_sides()[k].0 != c.spec_sides()[k].1,
{
    lemma_side_sign_changes(c);
    lemma_bits4(c.spec_bits());
    let ss = segment_sides(c);
    assert forall|s: Side| ss.contains(s) <==> c.spec_has_sign_change(side_flag(s)) by {
        if c.spec_has_sign_change(side_flag(s)) {
            match c {
                Contour::UL_DR | Contour::UR_DL => {
                    assert(ss[0] == s || ss[1] == s || ss[2] == s || ss[3] == s);
                },
                _ => {
                    assert(ss[0] == s || ss[1] == s);
                },
            }
        }
    }
}
} // verus!
