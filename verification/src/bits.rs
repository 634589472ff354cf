//! Bit-level view of the small masks that encode corners, edges and faces.
use vstd::prelude::*;
use vstd::arithmetic::power2::pow2;
use vstd::bits::{lemma_u8_pow2_no_overflow, lemma_u8_shl_is_mul, lemma_u16_pow2_no_overflow, lemma_u16_shl_is_mul};

verus! {

/// The indices below `n` of the set bits of `x`, lowest first.
pub open spec fn set_bits8(x: u8, n: nat) -> Seq<u8>
    decreases n,
{
    if n == 0 {
        Seq::empty()
    } else if bit8(x, (n - 1) as u8) {
        set_bits8(x, (n - 1) as nat).push((n - 1) as u8)
    } else {
        set_bits8(x, (n - 1) as nat)
    }
}

/// The indices below `n` of the set bits of `x`, lowest first.
pub open spec fn set_bits16(x: u16, n: nat) -> Seq<u16>
    decreases n,
{
    if n == 0 {
        Seq::empty()
    } else if bit16(x, (n - 1) as u16) {
        set_bits16(x, (n - 1) as nat).push((n - 1) as u16)
    } else {
        set_bits16(x, (n - 1) as nat)
    }
}

/// `1 << i` is the power of two `2^i`.
pub proof fn lemma_u8_one_shl(i: u8)
    requires
        i < 8,
    ensures
        (1u8 << i) as nat == pow2(i as nat),
{
    lemma_u8_pow2_no_overflow(i as nat);
    lemma_u8_shl_is_mul(1u8, i);
}

/// `1 << i` is the power of two `2^i`.
pub proof fn lemma_u16_one_shl(i: u16)
    requires
        i < 16,
    ensures
        (1u16 << i) as nat == pow2(i as nat),
{
    lemma_u16_pow2_no_overflow(i as nat);
    lemma_u16_shl_is_mul(1u16, i);
}

/// Bit `i` of an 8-bit mask.
pub open spec fn bit8(x: u8, i: u8) -> bool {
    (x >> i) & 1u8 == 1u8
}

/// Bit `i` of a 16-bit mask.
pub open spec fn bit16(x: u16, i: u16) -> bool {
    (x >> i) & 1u16 == 1u16
}

/// A bit of `x & y` is set where both are set.
pub proof fn lemma_bit8_and(x: u8, y: u8, i: u8)
    by (bit_vector)
    requires
        i < 8,
    ensures
        bit8(x & y, i) == (bit8(x, i) && bit8(y, i)),
{
}

/// A bit of `x | y` is set where either is set.
pub proof fn lemma_bit8_or(x: u8, y: u8, i: u8)
    by (bit_vector)
    requires
        i < 8,
    ensures
        bit8(x | y, i) == (bit8(x, i) || bit8(y, i)),
{
}

/// A bit of `!x` is set where that of `x` is not.
pub proof fn lemma_bit8_not(x: u8, i: u8)
    by (bit_vector)
    requires
        i < 8,
    ensures
        bit8(!x, i) == !bit8(x, i),
{
}

/// `1 << j` has bit `j` set and no other.
pub proof fn lemma_bit8_single(j: u8, i: u8)
    by (bit_vector)
    requires
        i < 8,
        j < 8,
    ensures
        bit8(1u8 << j, i) == (i == j),
{
}

/// No bit of zero is set.
pub proof fn lemma_bit8_zero(i: u8)
    by (bit_vector)
    ensures
        !bit8(0u8, i),
{
}

/// Two 8-bit masks with the same bits are equal.
pub proof fn lemma_bit8_ext(x: u8, y: u8)
    requires
        forall|i: u8| i < 8 ==> bit8(x, i) == bit8(y, i),
    ensures
        x == y,
{
    assert(bit8(x, 0) == bit8(y, 0));
    assert(bit8(x, 1) == bit8(y, 1));
    assert(bit8(x, 2) == bit8(y, 2));
    assert(bit8(x, 3) == bit8(y, 3));
    assert(bit8(x, 4) == bit8(y, 4));
    assert(bit8(x, 5) == bit8(y, 5));
    assert(bit8(x, 6) == bit8(y, 6));
    assert(bit8(x, 7) == bit8(y, 7));
    lemma_bit8_ext_explicit(x, y);
}

/// Two 8-bit masks that agree on each of their eight bits, listed one by one, are equal.
proof fn lemma_bit8_ext_explicit(x: u8, y: u8)
    by (bit_vector)
    requires
        bit8(x, 0) == bit8(y, 0),
        bit8(x, 1) == bit8(y, 1),
        bit8(x, 2) == bit8(y, 2),
        bit8(x, 3) == bit8(y, 3),
        bit8(x, 4) == bit8(y, 4),
        bit8(x, 5) == bit8(y, 5),
        bit8(x, 6) == bit8(y, 6),
        bit8(x, 7) == bit8(y, 7),
    ensures
        x == y,
{
}

/// Shifting right one more step moves to the next bit.
pub proof fn lemma_bit8_shift_step(x: u8, i: u8)
    by (bit_vector)
    requires
        i < 8,
    ensures
        (x >> i) >> 1u8 == x >> ((i + 1) as u8),
        ((x >> i) & 1u8 == 1u8) == bit8(x, i),
        ((x >> i) & 1u8 > 0) == bit8(x, i),
        (x >> i) & 1u8 <= 1,
        x >> 0u8 == x,
{
}

/// A bit of `x & y` is set where both are set.
pub proof fn lemma_bit16_and(x: u16, y: u16, i: u16)
    by (bit_vector)
    requires
        i < 16,
    ensures
        bit16(x & y, i) == (bit16(x, i) && bit16(y, i)),
{
}

/// A bit of `x | y` is set where either is set.
pub proof fn lemma_bit16_or(x: u16, y: u16, i: u16)
    by (bit_vector)
    requires
        i < 16,
    ensures
        bit16(x | y, i) == (bit16(x, i) || bit16(y, i)),
{
}

/// A bit of `!x` is set where that of `x` is not.
pub proof fn lemma_bit16_not(x: u16, i: u16)
    by (bit_vector)
    requires
        i < 16,
    ensures
        bit16(!x, i) == !bit16(x, i),
{
}

/// `1 << j` has bit `j` set and no other.
pub proof fn lemma_bit16_single(j: u16, i: u16)
    by (bit_vector)
    requires
        i < 16,
        j < 16,
    ensures
        bit16(1u16 << j, i) == (i == j),
{
}

/// Testing a mask against a single bit.
pub proof fn lemma_bit8_test(x: u8, i: u8)
    by (bit_vector)
    requires
        i < 8,
    ensures
        ((x & (1u8 << i)) == 0) == !bit8(x, i),
{
}

/// Testing a mask against a single bit.
pub proof fn lemma_bit16_test(x: u16, i: u16)
    by (bit_vector)
    requires
        i < 16,
    ensures
        ((x & (1u16 << i)) == (1u16 << i)) == bit16(x, i),
        ((x & (1u16 << i)) == 0) == !bit16(x, i),
        1u16 << i != 0,
{
}

/// No bit of zero is set.
pub proof fn lemma_bit16_zero(i: u16)
    by (bit_vector)
    ensures
        !bit16(0u16, i),
{
}

/// Two 16-bit masks with the same bits are equal.
pub proof fn lemma_bit16_ext(x: u16, y: u16)
    requires
        forall|i: u16| i < 16 ==> bit16(x, i) == bit16(y, i),
    ensures
        x == y,
{
    assert(bit16(x, 0) == bit16(y, 0));
    assert(bit16(x, 1) == bit16(y, 1));
    assert(bit16(x, 2) == bit16(y, 2));
    assert(bit16(x, 3) == bit16(y, 3));
    assert(bit16(x, 4) == bit16(y, 4));
    assert(bit16(x, 5) == bit16(y, 5));
    assert(bit16(x, 6) == bit16(y, 6));
    assert(bit16(x, 7) == bit16(y, 7));
    assert(bit16(x, 8) == bit16(y, 8));
    assert(bit16(x, 9) == bit16(y, 9));
    assert(bit16(x, 10) == bit16(y, 10));
    assert(bit16(x, 11) == bit16(y, 11));
    assert(bit16(x, 12) == bit16(y, 12));
    assert(bit16(x, 13) == bit16(y, 13));
    assert(bit16(x, 14) == bit16(y, 14));
    assert(bit16(x, 15) == bit16(y, 15));
    lemma_bit16_ext_explicit(x, y);
}

/// Two 16-bit masks that agree on each of their sixteen bits, listed one by one, are equal.
proof fn lemma_bit16_ext_explicit(x: u16, y: u16)
    by (bit_vector)
    requires
        bit16(x, 0) == bit16(y, 0),
        bit16(x, 1) == bit16(y, 1),
        bit16(x, 2) == bit16(y, 2),
        bit16(x, 3) == bit16(y, 3),
        bit16(x, 4) == bit16(y, 4),
        bit16(x, 5) == bit16(y, 5),
        bit16(x, 6) == bit16(y, 6),
        bit16(x, 7) == bit16(y, 7),
        bit16(x, 8) == bit16(y, 8),
        bit16(x, 9) == bit16(y, 9),
        bit16(x, 10) == bit16(y, 10),
        bit16(x, 11) == bit16(y, 11),
        bit16(x, 12) == bit16(y, 12),
        bit16(x, 13) == bit16(y, 13),
        bit16(x, 14) == bit16(y, 14),
        bit16(x, 15) == bit16(y, 15),
    ensures
        x == y,
{
}

/// Shifting right one more step moves to the next bit.
pub proof fn lemma_bit16_shift_step(x: u16, i: u16)
    by (bit_vector)
    requires
        i < 16,
    ensures
        (x >> i) >> 1u16 == x >> ((i + 1) as u16),
        ((x >> i) & 1u16 == 1u16) == bit16(x, i),
        ((x >> i) & 1u16 > 0) == bit16(x, i),
        (x >> i) & 1u16 <= 1,
        x >> 0u16 == x,
{
}

/// The index of the single set bit of `v`; 8 when `v` is not a single bit.
pub open spec fn bit_index8(v: u8) -> u8 {
    if v == 1 { 0u8 } else if v == 2 { 1u8 } else if v == 4 { 2u8 } else if v == 8 { 3u8 } else if v == 16 { 4u8 } else if v == 32 { 5u8 } else if v == 64 { 6u8 } else if v == 128 { 7u8 } else { 8u8 }
}

/// The index of the single set bit of `v`; 16 when `v` is not a single bit.
pub open spec fn bit_index16(v: u16) -> u16 {
    if v == 1 { 0u16 } else if v == 2 { 1u16 } else if v == 4 { 2u16 } else if v == 8 { 3u16 } else if v == 16 { 4u16 } else if v == 32 { 5u16 } else if v == 64 { 6u16 } else if v == 128 { 7u16 } else if v == 256 { 8u16 } else if v == 512 { 9u16 } else if v == 1024 { 10u16 } else if v == 2048 { 11u16 } else if v == 4096 { 12u16 } else if v == 8192 { 13u16 } else if v == 16384 { 14u16 } else if v == 32768 { 15u16 } else { 16u16 }
}

/// Computes `bit_index8`.
pub fn index_of_bit8(v: u8) -> (r: u8)
    ensures
        r == bit_index8(v),
{
    if v == 1 { 0 } else if v == 2 { 1 } else if v == 4 { 2 } else if v == 8 { 3 } else if v == 16 { 4 } else if v == 32 { 5 } else if v == 64 { 6 } else if v == 128 { 7 } else { 8 }
}

/// Computes `bit_index16`.
pub fn index_of_bit16(v: u16) -> (r: u16)
    ensures
        r == bit_index16(v),
{
    if v == 1 { 0 } else if v == 2 { 1 } else if v == 4 { 2 } else if v == 8 { 3 } else if v == 16 { 4 } else if v == 32 { 5 } else if v == 64 { 6 } else if v == 128 { 7 } else if v == 256 { 8 } else if v == 512 { 9 } else if v == 1024 { 10 } else if v == 2048 { 11 } else if v == 4096 { 12 } else if v == 8192 { 13 } else if v == 16384 { 14 } else if v == 32768 { 15 } else { 16 }
}

/// `bit_index8` of a single-bit mask is the index of its bit.
pub proof fn lemma_bit_index8(v: u8)
    by (bit_vector)
    ensures
        bit_index8(v) < 8 ==> (1u8 << bit_index8(v)) == v,
        bit_index8(v) <= 8,
{
}

/// `bit_index16` of a single-bit mask is the index of its bit.
pub proof fn lemma_bit_index16(v: u16)
    by (bit_vector)
    ensures
        bit_index16(v) < 16 ==> (1u16 << bit_index16(v)) == v,
        bit_index16(v) <= 16,
{
}

/// The set bits below `n` of `x` are listed in increasing order.
pub proof fn lemma_set_bits16_sorted(x: u16, n: nat)
    requires
        n <= 16,
    ensures
        forall|j: int|
            0 <= j < set_bits16(x, n).len() ==> #[trigger] set_bits16(x, n)[j] < n && bit16(
                x,
                set_bits16(x, n)[j],
            ),
        forall|j1: int, j2: int|
            0 <= j1 < j2 < set_bits16(x, n).len() ==> #[trigger] set_bits16(x, n)[j1]
                < #[trigger] set_bits16(x, n)[j2],
    decreases n,
{
    if n > 0 {
        lemma_set_bits16_sorted(x, (n - 1) as nat);
        let prev = set_bits16(x, (n - 1) as nat);
        let cur = set_bits16(x, n);
        if bit16(x, (n - 1) as u16) {
            assert(cur == prev.push((n - 1) as u16));
        } else {
            assert(cur == prev);
        }
        assert forall|j: int| 0 <= j < cur.len() implies #[trigger] cur[j] < n && bit16(x, cur[j]) by {
            if j < prev.len() {
                assert(cur[j] == prev[j]);
            }
        }
        assert forall|j1: int, j2: int| 0 <= j1 < j2 < cur.len() implies #[trigger] cur[j1]
            < #[trigger] cur[j2] by {
            assert(cur[j1] == prev[j1]);
            if j2 < prev.len() {
                assert(cur[j2] == prev[j2]);
            } else {
                assert(prev[j1] < n - 1);
                assert(cur[j2] == n - 1);
            }
        }
    }
}

/// Distinct bit indices below 16 give distinct single-bit masks.
pub proof fn lemma_u16_one_shl_injective(i: u16, j: u16)
    requires
        i < 16,
        j < 16,
        i != j,
    ensures
        1u16 << i != 1u16 << j,
{
    lemma_u16_one_shl(i);
    lemma_u16_one_shl(j);
    if i < j {
        vstd::arithmetic::power2::lemma_pow2_strictly_increases(i as nat, j as nat);
    } else {
        vstd::arithmetic::power2::lemma_pow2_strictly_increases(j as nat, i as nat);
    }
}

/// Every set bit below the bound is listed by `set_bits16`.
pub proof fn lemma_set_bits16_complete(x: u16, n: nat, e: u16)
    requires
        e < n <= 16,
        bit16(x, e),
    ensures
        set_bits16(x, n).contains(e),
    decreases n,
{
    let prev = set_bits16(x, (n - 1) as nat);
    if e == n - 1 {
        assert(set_bits16(x, n)[prev.len() as int] == e);
    } else {
        lemma_set_bits16_complete(x, (n - 1) as nat, e);
        let j = choose|j: int| 0 <= j < prev.len() && prev[j] == e;
        if bit16(x, (n - 1) as u16) {
            assert(set_bits16(x, n)[j] == e);
        } else {
            assert(set_bits16(x, n) == prev);
        }
    }
}

} // verus!
