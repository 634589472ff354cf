//! Integers that hold exactly one set bit.
use vstd::prelude::*;
use vstd::arithmetic::power2::{pow2, lemma2_to64, lemma_pow2_strictly_increases};
use vstd::std_specs::ops::{BitAndSpecImpl, BitOrSpecImpl, BitXorSpecImpl, NotSpecImpl};
use vstd::std_specs::convert::{FromSpecImpl, TryFromSpecImpl};

verus! {

/// `n` is a power of two: `n == 2^k` for some natural `k`.
pub open spec fn is_power_of_two(n: int) -> bool {
    exists|k: nat| n == pow2(k)
}

/// The error returned when a value is not a power of two.
#[derive(Debug, Copy, Clone, PartialEq, Eq)]
pub struct InvalidPowerOf2;

impl InvalidPowerOf2 {
    /// The error's message.
    pub fn message(&self) -> (s: String)
        ensures
            s@ == "Invalid power of 2"@,
    {
        "Invalid power of 2".to_owned()
    }
}

/// `n & (n - 1) == 0` for non-zero `n` picks out the single-bit values.
proof fn lemma_u8_single_bit(n: u8)
    by (bit_vector)
    ensures
        (n != 0 && n & ((n - 1) as u8) == 0) == (n == 1 || n == 2 || n == 4 || n == 8 || n == 16 || n
            == 32 || n == 64 || n == 128),
{
}

/// `n & (n - 1) == 0` for non-zero `n` picks out the single-bit values.
proof fn lemma_u16_single_bit(n: u16)
    by (bit_vector)
    ensures
        (n != 0 && n & ((n - 1) as u16) == 0) == (n == 1 || n == 2 || n == 4 || n == 8 || n == 16 || n
            == 32 || n == 64 || n == 128 || n == 0x100 || n == 0x200 || n == 0x400 || n == 0x800
            || n == 0x1000 || n == 0x2000 || n == 0x4000 || n == 0x8000),
{
}

/// The powers of two that fit in a byte.
pub proof fn lemma_u8_power_of_two_values(n: u8)
    ensures
        is_power_of_two(n as int) == (n == 1 || n == 2 || n == 4 || n == 8 || n == 16 || n == 32
            || n == 64 || n == 128),
{
    lemma_u8_single_bit(n);
    lemma_u8_power_of_two(n);
}

/// The powers of two that fit in 16 bits.
pub proof fn lemma_u16_power_of_two_values(n: u16)
    ensures
        is_power_of_two(n as int) == (n == 1 || n == 2 || n == 4 || n == 8 || n == 16 || n == 32
            || n == 64 || n == 128 || n == 0x100 || n == 0x200 || n == 0x400 || n == 0x800 || n
            == 0x1000 || n == 0x2000 || n == 0x4000 || n == 0x8000),
{
    lemma_u16_single_bit(n);
    lemma_u16_power_of_two(n);
}

/// The single-bit test on a byte agrees with `is_power_of_two`.
pub proof fn lemma_u8_power_of_two(n: u8)
    ensures
        (n != 0 && n & ((n - 1) as u8) == 0) == is_power_of_two(n as int),
{
    lemma_u8_single_bit(n);
    lemma2_to64();
    if n != 0 && n & ((n - 1) as u8) == 0 {
        if n == 1 { assert(n == pow2(0)); }
        else if n == 2 { assert(n == pow2(1)); }
        else if n == 4 { assert(n == pow2(2)); }
        else if n == 8 { assert(n == pow2(3)); }
        else if n == 16 { assert(n == pow2(4)); }
        else if n == 32 { assert(n == pow2(5)); }
        else if n == 64 { assert(n == pow2(6)); }
        else { assert(n == pow2(7)); }
    }
    if is_power_of_two(n as int) {
        let k = choose|k: nat| n as int == pow2(k);
        if k >= 8 {
            if k > 8 {
                lemma_pow2_strictly_increases(8, k);
            }
            assert(false);
        }
        assert(k == 0 || k == 1 || k == 2 || k == 3 || k == 4 || k == 5 || k == 6 || k == 7);
    }
}

/// The single-bit test on a 16-bit value agrees with `is_power_of_two`.
pub proof fn lemma_u16_power_of_two(n: u16)
    ensures
        (n != 0 && n & ((n - 1) as u16) == 0) == is_power_of_two(n as int),
{
    lemma_u16_single_bit(n);
    lemma2_to64();
    if n != 0 && n & ((n - 1) as u16) == 0 {
        if n == 1 { assert(n == pow2(0)); }
        else if n == 2 { assert(n == pow2(1)); }
        else if n == 4 { assert(n == pow2(2)); }
        else if n == 8 { assert(n == pow2(3)); }
        else if n == 16 { assert(n == pow2(4)); }
        else if n == 32 { assert(n == pow2(5)); }
        else if n == 64 { assert(n == pow2(6)); }
        else if n == 128 { assert(n == pow2(7)); }
        else if n == 0x100 { assert(n == pow2(8)); }
        else if n == 0x200 { assert(n == pow2(9)); }
        else if n == 0x400 { assert(n == pow2(10)); }
        else if n == 0x800 { assert(n == pow2(11)); }
        else if n == 0x1000 { assert(n == pow2(12)); }
        else if n == 0x2000 { assert(n == pow2(13)); }
        else if n == 0x4000 { assert(n == pow2(14)); }
        else { assert(n == pow2(15)); }
    }
    if is_power_of_two(n as int) {
        let k = choose|k: nat| n as int == pow2(k);
        if k >= 16 {
            if k > 16 {
                lemma_pow2_strictly_increases(16, k);
            }
            assert(false);
        }
        assert(k == 0 || k == 1 || k == 2 || k == 3 || k == 4 || k == 5 || k == 6 || k == 7 || k
            == 8 || k == 9 || k == 10 || k == 11 || k == 12 || k == 13 || k == 14 || k == 15);
    }
}

/// A `u8` that is a power of two.
#[derive(Debug, Copy, Clone, PartialEq, Eq, PartialOrd, Ord, Hash)]
pub struct Power2U8(u8);

impl View for Power2U8 {
    type V = u8;

    closed spec fn view(&self) -> u8 {
        self.0
    }
}

impl Power2U8 {
    #[verifier::type_invariant]
    spec fn inv(self) -> bool {
        is_power_of_two(self.0 as int)
    }

    /// The value that holds `v`; meaningful where `v` is a power of two.
    pub closed spec fn spec_from_value(v: u8) -> Self {
        Power2U8(v)
    }

    /// The value built from `v` holds `v`.
    pub proof fn lemma_from_value(v: u8)
        ensures
            Self::spec_from_value(v)@ == v,
    {
    }

    /// Wraps `n`, which the caller knows to be a power of two.
    pub fn new_unchecked(n: u8) -> (r: Self)
        requires
            is_power_of_two(n as int),
        ensures
            r@ == n,
    {
        Power2U8(n)
    }

    /// Wraps `n` if it is a power of two.
    pub fn new(n: u8) -> (r: Option<Self>)
        ensures
            r is Some <==> is_power_of_two(n as int),
            r matches Some(p) ==> p@ == n,
    {
        proof {
            lemma_u8_power_of_two(n);
        }
        if n != 0 && n & (n - 1) == 0 {
            Some(Power2U8(n))
        } else {
            None
        }
    }

    /// The wrapped value.
    pub fn get(self) -> (r: u8)
        ensures
            r == self@,
            is_power_of_two(r as int),
    {
        proof {
            use_type_invariant(&self);
        }
        self.0
    }
}

impl From<Power2U8> for u8 {
    fn from(power2: Power2U8) -> (r: u8) {
        power2.get()
    }
}

impl FromSpecImpl<Power2U8> for u8 {
    open spec fn obeys_from_spec() -> bool {
        true
    }

    open spec fn from_spec(v: Power2U8) -> u8 {
        v@
    }
}

impl TryFrom<u8> for Power2U8 {
    type Error = InvalidPowerOf2;

    fn try_from(n: u8) -> (r: Result<Power2U8, InvalidPowerOf2>) {
        match Power2U8::new(n) {
            Some(p) => Ok(p),
            None => Err(InvalidPowerOf2),
        }
    }
}

impl TryFromSpecImpl<u8> for Power2U8 {
    open spec fn obeys_try_from_spec() -> bool {
        true
    }

    open spec fn try_from_spec(v: u8) -> Result<Power2U8, InvalidPowerOf2> {
        if is_power_of_two(v as int) {
            Ok(Power2U8::spec_from_value(v))
        } else {
            Err(InvalidPowerOf2)
        }
    }
}

impl core::ops::BitAnd<u8> for Power2U8 {
    type Output = u8;

    fn bitand(self, rhs: u8) -> (r: u8) {
        proof {
            use_type_invariant(&self);
        }
        self.0 & rhs
    }
}

impl BitAndSpecImpl<u8> for Power2U8 {
    open spec fn obeys_bitand_spec() -> bool {
        true
    }

    open spec fn bitand_req(self, rhs: u8) -> bool {
        true
    }

    open spec fn bitand_spec(self, rhs: u8) -> u8 {
        self@ & rhs
    }
}

impl core::ops::BitAnd<Self> for Power2U8 {
    type Output = u8;

    fn bitand(self, rhs: Self) -> (r: u8) {
        self.0 & rhs.0
    }
}

impl BitAndSpecImpl<Self> for Power2U8 {
    open spec fn obeys_bitand_spec() -> bool {
        true
    }

    open spec fn bitand_req(self, rhs: Self) -> bool {
        true
    }

    open spec fn bitand_spec(self, rhs: Self) -> u8 {
        self@ & rhs@
    }
}

impl core::ops::BitOr<u8> for Power2U8 {
    type Output = u8;

    fn bitor(self, rhs: u8) -> (r: u8) {
        proof {
            use_type_invariant(&self);
        }
        self.0 | rhs
    }
}

impl BitOrSpecImpl<u8> for Power2U8 {
    open spec fn obeys_bitor_spec() -> bool {
        true
    }

    open spec fn bitor_req(self, rhs: u8) -> bool {
        true
    }

    open spec fn bitor_spec(self, rhs: u8) -> u8 {
        self@ | rhs
    }
}

impl core::ops::BitOr<Self> for Power2U8 {
    type Output = u8;

    fn bitor(self, rhs: Self) -> (r: u8) {
        self.0 | rhs.0
    }
}

impl BitOrSpecImpl<Self> for Power2U8 {
    open spec fn obeys_bitor_spec() -> bool {
        true
    }

    open spec fn bitor_req(self, rhs: Self) -> bool {
        true
    }

    open spec fn bitor_spec(self, rhs: Self) -> u8 {
        self@ | rhs@
    }
}

impl core::ops::BitXor<u8> for Power2U8 {
    type Output = u8;

    fn bitxor(self, rhs: u8) -> (r: u8) {
        proof {
            use_type_invariant(&self);
        }
        self.0 ^ rhs
    }
}

impl BitXorSpecImpl<u8> for Power2U8 {
    open spec fn obeys_bitxor_spec() -> bool {
        true
    }

    open spec fn bitxor_req(self, rhs: u8) -> bool {
        true
    }

    open spec fn bitxor_spec(self, rhs: u8) -> u8 {
        self@ ^ rhs
    }
}

impl core::ops::BitXor<Self> for Power2U8 {
    type Output = u8;

    fn bitxor(self, rhs: Self) -> (r: u8) {
        self.0 ^ rhs.0
    }
}

impl BitXorSpecImpl<Self> for Power2U8 {
    open spec fn obeys_bitxor_spec() -> bool {
        true
    }

    open spec fn bitxor_req(self, rhs: Self) -> bool {
        true
    }

    open spec fn bitxor_spec(self, rhs: Self) -> u8 {
        self@ ^ rhs@
    }
}

impl core::ops::Not for Power2U8 {
    type Output = u8;

    fn not(self) -> (r: u8) {
        !self.0
    }
}

impl NotSpecImpl for Power2U8 {
    open spec fn obeys_not_spec() -> bool {
        true
    }

    open spec fn not_req(self) -> bool {
        true
    }

    open spec fn not_spec(self) -> u8 {
        !self@
    }
}

/// A `u16` that is a power of two.
#[derive(Debug, Copy, Clone, PartialEq, Eq, PartialOrd, Ord, Hash)]
pub struct Power2U16(u16);

impl View for Power2U16 {
    type V = u16;

    closed spec fn view(&self) -> u16 {
        self.0
    }
}

impl Power2U16 {
    #[verifier::type_invariant]
    spec fn inv(self) -> bool {
        is_power_of_two(self.0 as int)
    }

    /// The value that holds `v`; meaningful where `v` is a power of two.
    pub closed spec fn spec_from_value(v: u16) -> Self {
        Power2U16(v)
    }

    /// The value built from `v` holds `v`.
    pub proof fn lemma_from_value(v: u16)
        ensures
            Self::spec_from_value(v)@ == v,
    {
    }

    /// Wraps `n`, which the caller knows to be a power of two.
    pub fn new_unchecked(n: u16) -> (r: Self)
        requires
            is_power_of_two(n as int),
        ensures
            r@ == n,
    {
        Power2U16(n)
    }

    /// Wraps `n` if it is a power of two.
    pub fn new(n: u16) -> (r: Option<Self>)
        ensures
            r is Some <==> is_power_of_two(n as int),
            r matches Some(p) ==> p@ == n,
    {
        proof {
            lemma_u16_power_of_two(n);
        }
        if n != 0 && n & (n - 1) == 0 {
            Some(Power2U16(n))
        } else {
            None
        }
    }

    /// The wrapped value.
    pub fn get(self) -> (r: u16)
        ensures
            r == self@,
            is_power_of_two(r as int),
    {
        proof {
            use_type_invariant(&self);
        }
        self.0
    }
}

impl From<Power2U16> for u16 {
    fn from(power2: Power2U16) -> (r: u16) {
        power2.get()
    }
}

impl FromSpecImpl<Power2U16> for u16 {
    open spec fn obeys_from_spec() -> bool {
        true
    }

    open spec fn from_spec(v: Power2U16) -> u16 {
        v@
    }
}

impl TryFrom<u16> for Power2U16 {
    type Error = InvalidPowerOf2;

    fn try_from(n: u16) -> (r: Result<Power2U16, InvalidPowerOf2>) {
        match Power2U16::new(n) {
            Some(p) => Ok(p),
            None => Err(InvalidPowerOf2),
        }
    }
}

impl TryFromSpecImpl<u16> for Power2U16 {
    open spec fn obeys_try_from_spec() -> bool {
        true
    }

    open spec fn try_from_spec(v: u16) -> Result<Power2U16, InvalidPowerOf2> {
        if is_power_of_two(v as int) {
            Ok(Power2U16::spec_from_value(v))
        } else {
            Err(InvalidPowerOf2)
        }
    }
}

impl core::ops::BitAnd<u16> for Power2U16 {
    type Output = u16;

    fn bitand(self, rhs: u16) -> (r: u16) {
        proof {
            use_type_invariant(&self);
        }
        self.0 & rhs
    }
}

impl BitAndSpecImpl<u16> for Power2U16 {
    open spec fn obeys_bitand_spec() -> bool {
        true
    }

    open spec fn bitand_req(self, rhs: u16) -> bool {
        true
    }

    open spec fn bitand_spec(self, rhs: u16) -> u16 {
        self@ & rhs
    }
}

impl core::ops::BitAnd<Self> for Power2U16 {
    type Output = u16;

    fn bitand(self, rhs: Self) -> (r: u16) {
        self.0 & rhs.0
    }
}

impl BitAndSpecImpl<Self> for Power2U16 {
    open spec fn obeys_bitand_spec() -> bool {
        true
    }

    open spec fn bitand_req(self, rhs: Self) -> bool {
        true
    }

    open spec fn bitand_spec(self, rhs: Self) -> u16 {
        self@ & rhs@
    }
}

impl core::ops::BitOr<u16> for Power2U16 {
    type Output = u16;

    fn bitor(self, rhs: u16) -> (r: u16) {
        proof {
            use_type_invariant(&self);
        }
        self.0 | rhs
    }
}

impl BitOrSpecImpl<u16> for Power2U16 {
    open spec fn obeys_bitor_spec() -> bool {
        true
    }

    open spec fn bitor_req(self, rhs: u16) -> bool {
        true
    }

    open spec fn bitor_spec(self, rhs: u16) -> u16 {
        self@ | rhs
    }
}

impl core::ops::BitOr<Self> for Power2U16 {
    type Output = u16;

    fn bitor(self, rhs: Self) -> (r: u16) {
        self.0 | rhs.0
    }
}

impl BitOrSpecImpl<Self> for Power2U16 {
    open spec fn obeys_bitor_spec() -> bool {
        true
    }

    open spec fn bitor_req(self, rhs: Self) -> bool {
        true
    }

    open spec fn bitor_spec(self, rhs: Self) -> u16 {
        self@ | rhs@
    }
}

impl core::ops::BitXor<u16> for Power2U16 {
    type Output = u16;

    fn bitxor(self, rhs: u16) -> (r: u16) {
        proof {
            use_type_invariant(&self);
        }
        self.0 ^ rhs
    }
}

impl BitXorSpecImpl<u16> for Power2U16 {
    open spec fn obeys_bitxor_spec() -> bool {
        true
    }

    open spec fn bitxor_req(self, rhs: u16) -> bool {
        true
    }

    open spec fn bitxor_spec(self, rhs: u16) -> u16 {
        self@ ^ rhs
    }
}

impl core::ops::BitXor<Self> for Power2U16 {
    type Output = u16;

    fn bitxor(self, rhs: Self) -> (r: u16) {
        self.0 ^ rhs.0
    }
}

impl BitXorSpecImpl<Self> for Power2U16 {
    open spec fn obeys_bitxor_spec() -> bool {
        true
    }

    open spec fn bitxor_req(self, rhs: Self) -> bool {
        true
    }

    open spec fn bitxor_spec(self, rhs: Self) -> u16 {
        self@ ^ rhs@
    }
}

impl core::ops::Not for Power2U16 {
    type Output = u16;

    fn not(self) -> (r: u16) {
        !self.0
    }
}

impl NotSpecImpl for Power2U16 {
    open spec fn obeys_not_spec() -> bool {
        true
    }

    open spec fn not_req(self) -> bool {
        true
    }

    open spec fn not_spec(self) -> u16 {
        !self@
    }
}

} // verus!
