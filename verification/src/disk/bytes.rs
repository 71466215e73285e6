use vstd::prelude::*;

verus! {

/// `256^k`.
pub open spec fn pow256(k: nat) -> nat
    decreases k,
{
    if k == 0 {
        1
    } else {
        256 * pow256((k - 1) as nat)
    }
}

/// The `n` low bytes of `v`, least significant first.
pub open spec fn le_bytes(v: nat, n: nat) -> Seq<u8>
    decreases n,
{
    if n == 0 {
        Seq::empty()
    } else {
        seq![(v % 256) as u8] + le_bytes(v / 256, (n - 1) as nat)
    }
}

/// The number whose bytes, least significant first, are `s`.
pub open spec fn le_value(s: Seq<u8>) -> nat
    decreases s.len(),
{
    if s.len() == 0 {
        0
    } else {
        s[0] as nat + 256 * le_value(s.drop_first())
    }
}

pub proof fn lemma_le_bytes_len(v: nat, n: nat)
    ensures
        le_bytes(v, n).len() == n,
    decreases n,
{
    if n > 0 {
        lemma_le_bytes_len(v / 256, (n - 1) as nat);
    }
}

pub proof fn lemma_pow256_values()
    ensures
        pow256(1) == 0x100,
        pow256(2) == 0x10000,
        pow256(4) == 0x1_0000_0000,
        pow256(8) == 0x1_0000_0000_0000_0000,
{
    reveal_with_fuel(pow256, 9);
}

proof fn lemma_pow256_mono(a: nat, b: nat)
    requires
        a <= b,
    ensures
        1 <= pow256(a) <= pow256(b),
    decreases b,
{
    if a < b {
        lemma_pow256_mono(a, (b - 1) as nat);
    } else if b > 0 {
        lemma_pow256_mono((b - 1) as nat, (b - 1) as nat);
    }
}

/// Little-endian bytes read back give the number again, when it fits.
pub proof fn lemma_le_roundtrip(v: nat, n: nat)
    requires
        v < pow256(n),
    ensures
        le_value(le_bytes(v, n)) == v,
        le_bytes(v, n).len() == n,
    decreases n,
{
    lemma_le_bytes_len(v, n);
    if n > 0 {
        lemma_le_roundtrip(v / 256, (n - 1) as nat);
        let s = le_bytes(v, n);
        assert(s.drop_first() =~= le_bytes(v / 256, (n - 1) as nat));
    } else {
        assert(v == 0);
    }
}

/// Appends the `n` low bytes of `v`, least significant first.
pub fn push_le(out: &mut Vec<u8>, v: u64, n: usize)
    requires
        n <= 8,
    ensures
        final(out)@ == old(out)@ + le_bytes(v as nat, n as nat),
{
    let mut cur = v;
    let mut i: usize = 0;
    while i < n
        invariant
            i <= n,
            old(out)@ + le_bytes(v as nat, n as nat) == out@ + le_bytes(cur as nat, (n - i) as nat),
        decreases n - i,
    {
        let ghost before = out@;
        out.push((cur % 256) as u8);
        proof {
            assert(le_bytes(cur as nat, (n - i) as nat) == seq![(cur % 256) as u8] + le_bytes((cur / 256) as nat, (n - i - 1) as nat));
            assert(out@ + le_bytes((cur / 256) as nat, (n - i - 1) as nat) =~= before + le_bytes(cur as nat, (n - i) as nat));
        }
        cur = cur / 256;
        i += 1;
    }
    proof {
        assert(le_bytes(cur as nat, 0) =~= Seq::<u8>::empty());
        assert(out@ + le_bytes(cur as nat, 0) =~= out@);
    }
}

/// The number stored least significant byte first in `bytes[offset..offset + n]`.
pub fn read_le(bytes: &[u8], offset: usize, n: usize) -> (r: u64)
    requires
        n <= 8,
        offset + n <= bytes@.len(),
        offset + n <= usize::MAX,
    ensures
        r as nat == le_value(bytes@.subrange(offset as int, offset + n)),
{
    let mut value: u64 = 0;
    let mut j: usize = n;
    let ghost s = bytes@;
    proof {
        assert(s.subrange(offset + n, offset + n) =~= Seq::<u8>::empty());
    }
    while j > 0
        invariant
            j <= n,
            n <= 8,
            offset + n <= s.len(),
            offset + n <= usize::MAX,
            s == bytes@,
            value as nat == le_value(s.subrange(offset + j, offset + n)),
            (value as nat) < pow256((n - j) as nat),
        decreases j,
    {
        j -= 1;
        let b = bytes[offset + j];
        proof {
            assert(s.subrange(offset + j, offset + n).drop_first() =~= s.subrange(offset + j + 1, offset + n));
            lemma_pow256_mono((n - j) as nat, 8);
            lemma_pow256_values();
            assert(pow256((n - j) as nat) == 256 * pow256((n - j - 1) as nat));
            assert((value as nat) < pow256((n - j - 1) as nat));
            assert((value as nat) * 256 + 255 < pow256((n - j) as nat));
            assert(pow256((n - j) as nat) <= 0x1_0000_0000_0000_0000);
            assert(value * 256 + 255 <= u64::MAX);
        }
        value = value * 256 + b as u64;
    }
    value
}

/// A number of `s.len()` bytes is below `256^len`.
pub proof fn lemma_le_value_bound(s: Seq<u8>)
    ensures
        le_value(s) < pow256(s.len()),
    decreases s.len(),
{
    if s.len() > 0 {
        lemma_le_value_bound(s.drop_first());
    }
}

} // verus!
