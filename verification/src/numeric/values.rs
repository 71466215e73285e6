use vstd::prelude::*;

use crate::numbers::order_key;

verus! {

/// Whether the values of a numeric field are integers or floats.
#[derive(Debug, Clone, Copy, PartialEq, Eq, Structural)]
pub enum NumericKind {
    Int,
    Float,
}

impl Default for NumericKind {
    /// Integers.
    fn default() -> (r: Self)
        ensures
            r == NumericKind::Int,
    {
        NumericKind::Int
    }
}

/// `2^63`, the sign bit of a 64-bit word.
pub open spec fn sign_bit() -> int {
    0x8000_0000_0000_0000int
}

/// `v` packed so that the order of the packed words is the order of the integers.
pub fn pack_int(value: i64) -> (r: u64)
    ensures
        r as nat == order_key(value),
{
    let u = (value as u64) ^ (1u64 << 63);
    assert(u as int == value as int + 0x8000_0000_0000_0000int) by (bit_vector)
        requires
            u == (value as u64) ^ (1u64 << 63),
    ;
    u
}

/// The integer that `packed` holds.
pub fn unpack_int(packed: u64) -> (r: i64)
    ensures
        r == packed - sign_bit(),
{
    let v = (packed ^ (1u64 << 63)) as i64;
    assert(v as int == packed as int - 0x8000_0000_0000_0000int) by (bit_vector)
        requires
            v == (packed ^ (1u64 << 63)) as i64,
    ;
    v
}

/// The packed word of the float with bit pattern `bits`: a negative float (sign bit set) has
/// its bits inverted, a positive one gets its sign bit set.
pub open spec fn packed_float(bits: u64) -> int {
    if bits >= sign_bit() {
        0xFFFF_FFFF_FFFF_FFFFint - bits
    } else {
        bits + sign_bit()
    }
}

/// The bit pattern of the float that `packed` holds.
pub open spec fn unpacked_float(packed: u64) -> int {
    if packed >= sign_bit() {
        packed - sign_bit()
    } else {
        0xFFFF_FFFF_FFFF_FFFFint - packed
    }
}

/// Packs the bit pattern of a float so that the order of the packed words is the total order
/// of the floats.
pub fn pack_float_bits(bits: u64) -> (r: u64)
    ensures
        r == packed_float(bits),
{
    if bits & (1u64 << 63) != 0 {
        let r = !bits;
        assert(bits & (1u64 << 63) != 0 ==> bits >= 0x8000_0000_0000_0000u64 && !bits
            == 0xFFFF_FFFF_FFFF_FFFFu64 - bits) by (bit_vector);
        r
    } else {
        let r = bits ^ (1u64 << 63);
        assert(bits & (1u64 << 63) == 0 ==> bits < 0x8000_0000_0000_0000u64 && bits ^ (1u64 << 63) == bits
            + 0x8000_0000_0000_0000u64) by (bit_vector);
        r
    }
}

/// The bit pattern of the float that `packed` holds.
pub fn unpack_float_bits(packed: u64) -> (r: u64)
    ensures
        r == unpacked_float(packed),
{
    if packed & (1u64 << 63) != 0 {
        let r = packed ^ (1u64 << 63);
        assert(packed & (1u64 << 63) != 0 ==> packed >= 0x8000_0000_0000_0000u64 && packed ^ (1u64 << 63)
            == packed - 0x8000_0000_0000_0000u64) by (bit_vector);
        r
    } else {
        let r = !packed;
        assert(packed & (1u64 << 63) == 0 ==> packed < 0x8000_0000_0000_0000u64 && !packed
            == 0xFFFF_FFFF_FFFF_FFFFu64 - packed) by (bit_vector);
        r
    }
}

/// Unpacking a packed integer gives it back, and packing keeps the order of integers.
pub proof fn lemma_pack_int(a: i64, b: i64)
    ensures
        order_key(a) - sign_bit() == a,
        a < b <==> order_key(a) < order_key(b),
        a == b <==> order_key(a) == order_key(b),
{
}

/// Unpacking packed float bits gives them back; packing orders the positive patterns as they
/// are, the negative ones reversed, and every negative before every positive.
pub proof fn lemma_pack_float_bits(a: u64, b: u64)
    ensures
        0 <= packed_float(a) <= u64::MAX,
        unpacked_float(packed_float(a) as u64) == a,
        a < sign_bit() && b < sign_bit() ==> (a < b <==> packed_float(a) < packed_float(b)),
        a >= sign_bit() && b >= sign_bit() ==> (a < b <==> packed_float(a) > packed_float(b)),
        a >= sign_bit() && b < sign_bit() ==> packed_float(a) < packed_float(b),
{
}

/// A bound of a range of packed values.
#[derive(Debug, Clone, Copy, PartialEq, Eq, Structural)]
pub struct PackedBound {
    pub value: u64,
    pub inclusive: bool,
}

impl PackedBound {
    /// Whether `value` lies below this lower bound.
    pub fn below_lo(self, value: u64) -> (r: bool)
        ensures
            r == (value < self.value || (value == self.value && !self.inclusive)),
    {
        if value < self.value {
            true
        } else if value == self.value {
            !self.inclusive
        } else {
            false
        }
    }

    /// Whether `value` lies above this upper bound.
    pub fn past_hi(self, value: u64) -> (r: bool)
        ensures
            r == (value > self.value || (value == self.value && !self.inclusive)),
    {
        if value > self.value {
            true
        } else if value == self.value {
            !self.inclusive
        } else {
            false
        }
    }
}

/// Whether `value` lies within the bounds that are given.
pub open spec fn within(value: u64, lo: Option<PackedBound>, hi: Option<PackedBound>) -> bool {
    (match lo {
        Some(b) => value > b.value || (value == b.value && b.inclusive),
        None => true,
    }) && (match hi {
        Some(b) => value < b.value || (value == b.value && b.inclusive),
        None => true,
    })
}

/// Whether `value` lies within the bounds that are given.
pub fn packed_in_bounds(value: u64, lo: Option<PackedBound>, hi: Option<PackedBound>) -> (r: bool)
    ensures
        r == within(value, lo, hi),
{
    let above = match lo {
        Some(b) => !b.below_lo(value),
        None => true,
    };
    let below = match hi {
        Some(b) => !b.past_hi(value),
        None => true,
    };
    above && below
}

} // verus!
