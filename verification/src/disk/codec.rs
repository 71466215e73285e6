use vstd::prelude::*;

use crate::disk::error::SegmentError;

verus! {

/// The unsigned LEB128 encoding of `v`: seven bits per byte, low bits first,
/// the high bit set on every byte but the last.
pub open spec fn varint_bytes(v: u64) -> Seq<u8>
    decreases v,
{
    if v < 0x80 {
        seq![v as u8]
    } else {
        seq![(v % 128 + 128) as u8] + varint_bytes(v / 128)
    }
}

/// The number that the seven-bit groups of `s` give, low group first.
pub open spec fn varint_digits_value(s: Seq<u8>) -> nat
    decreases s.len(),
{
    if s.len() == 0 {
        0
    } else {
        (s[0] % 128) as nat + 128 * varint_digits_value(s.drop_first())
    }
}

/// The value a varint with the bytes `s` decodes to: its groups, cut to
/// 64 bits.
pub open spec fn varint_value(s: Seq<u8>) -> u64 {
    (varint_digits_value(s) % 0x1_0000_0000_0000_0000) as u64
}

/// Scanning a varint in `s` from index `i`, `count` bytes into it: the
/// outcome (0 complete, 1 input ended, 2 more than ten bytes) and the index
/// just past the last byte looked at.
pub open spec fn varint_scan(s: Seq<u8>, i: int, count: nat) -> (int, int)
    decreases s.len() - i,
{
    if i >= s.len() {
        (1, i)
    } else if s[i] < 0x80 {
        (0, i + 1)
    } else if count + 1 >= 10 {
        (2, i + 1)
    } else {
        varint_scan(s, i + 1, count + 1)
    }
}

/// `128^k`.
pub open spec fn pow128(k: nat) -> nat
    decreases k,
{
    if k == 0 {
        1
    } else {
        128 * pow128((k - 1) as nat)
    }
}

/// Appends the varint encoding of `value`.
pub fn push_var_u64(out: &mut Vec<u8>, value: u64)
    ensures
        final(out)@ == old(out)@ + varint_bytes(value),
{
    let ghost orig = value;
    let mut value = value;
    while value >= 0x80
        invariant
            old(out)@ + varint_bytes(orig) == out@ + varint_bytes(value),
        decreases value,
    {
        let byte = ((value as u8) & 0x7f) | 0x80;
        proof {
            assert(((value as u8) & 0x7f) | 0x80 == (value % 128 + 128) as u8) by (bit_vector);
            assert(value >> 7 == value / 128) by (bit_vector);
            assert(varint_bytes(value) == seq![byte] + varint_bytes((value / 128) as u64));
        }
        let ghost before = out@;
        out.push(byte);
        value = value >> 7;
        proof {
            assert(out@ + varint_bytes(value) =~= before + (seq![byte] + varint_bytes(value)));
        }
    }
    out.push(value as u8);
    proof {
        assert(varint_bytes(value) == seq![value as u8]);
    }
}

/// Appends the varint encoding of a 32-bit value.
pub fn push_var_u32(out: &mut Vec<u8>, value: u32)
    ensures
        final(out)@ == old(out)@ + varint_bytes(value as u64),
{
    push_var_u64(out, value as u64);
}

/// Appends the varint encoding of a 16-bit value.
pub fn push_var_u16(out: &mut Vec<u8>, value: u16)
    ensures
        final(out)@ == old(out)@ + varint_bytes(value as u64),
{
    push_var_u64(out, value as u64);
}

proof fn lemma_pow128_bound(k: nat)
    requires
        k <= 10,
    ensures
        1 <= pow128(k) <= pow128(10),
        pow128(10) == 0x400000000000000000,
{
    reveal_with_fuel(pow128, 11);
    lemma_pow128_mono(k, 10);
}

proof fn lemma_pow128_mono(a: nat, b: nat)
    requires
        a <= b,
    ensures
        1 <= pow128(a) <= pow128(b),
    decreases b,
{
    if a < b {
        lemma_pow128_mono(a, (b - 1) as nat);
    } else if b > 0 {
        lemma_pow128_mono((b - 1) as nat, (b - 1) as nat);
    }
}

/// Reads a varint at `*offset`, moving `*offset` past the bytes it looked
/// at. It fails when the input ends first and when more than ten bytes
/// carry the continuation bit.
pub fn read_var_u64(input: &[u8], offset: &mut usize) -> (r: Result<u64, SegmentError>)
    ensures
        *final(offset) == varint_scan(input@, *old(offset) as int, 0).1,
        varint_scan(input@, *old(offset) as int, 0).0 == 0 ==> r == Ok::<u64, SegmentError>(
            varint_value(input@.subrange(*old(offset) as int, varint_scan(input@, *old(offset) as int, 0).1)),
        ),
        varint_scan(input@, *old(offset) as int, 0).0 == 1 ==> r == Err::<u64, SegmentError>(SegmentError::UnexpectedEof),
        varint_scan(input@, *old(offset) as int, 0).0 == 2 ==> r == Err::<u64, SegmentError>(SegmentError::VarintTooLarge),
{
    let start = *offset;
    let ghost s = input@;
    let mut count: usize = 0;
    loop
        invariant_except_break
            s == input@,
            start == *old(offset),
            start <= *offset,
            *offset - start == count,
            count < 10,
            varint_scan(s, start as int, 0) == varint_scan(s, *offset as int, count as nat),
        ensures
            s == input@,
            start == *old(offset),
            start < *offset <= input.len(),
            *offset - start <= 10,
            varint_scan(s, start as int, 0) == (0int, *offset as int),
        decreases input.len() - *offset,
    {
        if *offset >= input.len() {
            proof {
                assert(varint_scan(s, *offset as int, count as nat) == (1int, *offset as int));
            }
            return Err(SegmentError::UnexpectedEof);
        }
        let byte = input[*offset];
        proof {
            assert(byte & 0x80 == 0 <==> byte < 0x80) by (bit_vector);
            assert(varint_scan(s, *offset as int, count as nat) == if byte < 0x80 {
                (0int, *offset + 1)
            } else if count + 1 >= 10 {
                (2int, *offset + 1)
            } else {
                varint_scan(s, *offset + 1, (count + 1) as nat)
            });
        }
        *offset += 1;
        if byte & 0x80 == 0 {
            break;
        }
        count += 1;
        if count >= 10 {
            return Err(SegmentError::VarintTooLarge);
        }
    }
    let end = *offset;
    let mut value: u128 = 0;
    let mut j: usize = end;
    proof {
        assert(s.subrange(end as int, end as int) =~= Seq::<u8>::empty());
        lemma_pow128_bound(0);
    }
    while j > start
        invariant
            start <= j <= end,
            end - start <= 10,
            end <= input.len(),
            s == input@,
            value == varint_digits_value(s.subrange(j as int, end as int)),
            value < pow128((end - j) as nat),
        decreases j,
    {
        j -= 1;
        let b = input[j];
        proof {
            assert(s.subrange(j as int, end as int).drop_first() =~= s.subrange(j + 1, end as int));
            assert(b & 0x7f == b % 128) by (bit_vector);
            lemma_pow128_bound((end - j) as nat);
            assert(pow128((end - j) as nat) == 128 * pow128((end - j - 1) as nat));
        }
        value = value * 128 + (b & 0x7f) as u128;
    }
    proof {
        assert(s.subrange(start as int, end as int) == s.subrange(j as int, end as int));
    }
    Ok((value % 0x1_0000_0000_0000_0000u128) as u64)
}

/// Reads a varint that must fit in 32 bits; `*offset` moves as in
/// `read_var_u64`.
pub fn read_var_u32(input: &[u8], offset: &mut usize) -> (r: Result<u32, SegmentError>)
    ensures
        *final(offset) == varint_scan(input@, *old(offset) as int, 0).1,
        varint_scan(input@, *old(offset) as int, 0).0 == 0 ==> {
            let v = varint_value(input@.subrange(*old(offset) as int, varint_scan(input@, *old(offset) as int, 0).1));
            &&& v <= u32::MAX ==> r == Ok::<u32, SegmentError>(v as u32)
            &&& v > u32::MAX ==> r == Err::<u32, SegmentError>(SegmentError::DoesNotFitU32)
        },
        varint_scan(input@, *old(offset) as int, 0).0 == 1 ==> r == Err::<u32, SegmentError>(SegmentError::UnexpectedEof),
        varint_scan(input@, *old(offset) as int, 0).0 == 2 ==> r == Err::<u32, SegmentError>(SegmentError::VarintTooLarge),
{
    let value = read_var_u64(input, offset)?;
    if value > u32::MAX as u64 {
        Err(SegmentError::DoesNotFitU32)
    } else {
        Ok(value as u32)
    }
}

/// Reads a varint that must fit in 16 bits; `*offset` moves as in
/// `read_var_u64`.
pub fn read_var_u16(input: &[u8], offset: &mut usize) -> (r: Result<u16, SegmentError>)
    ensures
        *final(offset) == varint_scan(input@, *old(offset) as int, 0).1,
        varint_scan(input@, *old(offset) as int, 0).0 == 0 ==> {
            let v = varint_value(input@.subrange(*old(offset) as int, varint_scan(input@, *old(offset) as int, 0).1));
            &&& v <= u16::MAX ==> r == Ok::<u16, SegmentError>(v as u16)
            &&& v > u16::MAX ==> r == Err::<u16, SegmentError>(SegmentError::DoesNotFitU16)
        },
        varint_scan(input@, *old(offset) as int, 0).0 == 1 ==> r == Err::<u16, SegmentError>(SegmentError::UnexpectedEof),
        varint_scan(input@, *old(offset) as int, 0).0 == 2 ==> r == Err::<u16, SegmentError>(SegmentError::VarintTooLarge),
{
    let value = read_var_u64(input, offset)?;
    if value > u16::MAX as u64 {
        Err(SegmentError::DoesNotFitU16)
    } else {
        Ok(value as u16)
    }
}


proof fn lemma_varint_digits(v: u64)
    ensures
        varint_digits_value(varint_bytes(v)) == v,
        varint_bytes(v).len() >= 1,
    decreases v,
{
    let b = varint_bytes(v);
    if v >= 0x80 {
        let w = (v / 128) as u64;
        lemma_varint_digits(w);
        assert(b.drop_first() =~= varint_bytes(w));
        assert(b[0] == (v % 128 + 128) as u8);
        assert((b[0] % 128) as nat == v % 128);
        assert(varint_digits_value(b) == (b[0] % 128) as nat + 128 * varint_digits_value(b.drop_first()));
    } else {
        assert(b.drop_first() =~= Seq::<u8>::empty());
        assert(varint_digits_value(b) == (b[0] % 128) as nat + 128 * varint_digits_value(b.drop_first()));
    }
}

proof fn lemma_varint_scan(v: u64, s: Seq<u8>, i: int, count: nat, k: nat)
    requires
        0 <= i,
        i + varint_bytes(v).len() <= s.len(),
        s.subrange(i, i + varint_bytes(v).len()) == varint_bytes(v),
        v < pow128(k),
        1 <= k,
        count + k <= 10,
    ensures
        varint_scan(s, i, count) == (0int, i + varint_bytes(v).len()),
    decreases v,
{
    let b = varint_bytes(v);
    assert(s[i] == s.subrange(i, i + b.len())[0]);
    if v < 0x80 {
        assert(b == seq![v as u8]);
        assert(s[i] < 0x80);
    }
    if v >= 0x80 {
        assert(b[0] == (v % 128 + 128) as u8);
        assert(s[i] >= 0x80);
        let w = (v / 128) as u64;
        lemma_varint_digits(w);
        assert(b.drop_first() =~= varint_bytes(w));
        assert(k >= 2) by {
            if k == 1 {
                reveal_with_fuel(pow128, 2);
            }
        }
        assert(w < pow128((k - 1) as nat)) by {
            assert(pow128(k) == 128 * pow128((k - 1) as nat));
        }
        assert(s.subrange(i + 1, i + 1 + varint_bytes(w).len()) =~= varint_bytes(w)) by {
            assert forall|j: int| 0 <= j < varint_bytes(w).len() implies s[i + 1 + j] == varint_bytes(w)[j] by {
                assert(s.subrange(i, i + b.len())[j + 1] == b[j + 1]);
            }
        }
        lemma_varint_scan(w, s, i + 1, count + 1, (k - 1) as nat);
        assert(b.len() == 1 + varint_bytes(w).len());
    }
}

/// Reading back what `push_var_u64` wrote gives the value again and stops
/// right after its bytes, whatever surrounds them.
pub proof fn lemma_varint_roundtrip(v: u64, prefix: Seq<u8>, rest: Seq<u8>)
    ensures
        varint_scan(prefix + varint_bytes(v) + rest, prefix.len() as int, 0) == (0int, (prefix.len() + varint_bytes(v).len()) as int),
        (prefix + varint_bytes(v) + rest).subrange(prefix.len() as int, (prefix.len() + varint_bytes(v).len()) as int) == varint_bytes(v),
        varint_value(varint_bytes(v)) == v,
{
    let s = prefix + varint_bytes(v) + rest;
    let n = varint_bytes(v).len();
    assert(s.subrange(prefix.len() as int, (prefix.len() + n) as int) =~= varint_bytes(v));
    lemma_varint_digits(v);
    reveal_with_fuel(pow128, 11);
    lemma_varint_scan(v, s, prefix.len() as int, 0, 10);
}

} // verus!
