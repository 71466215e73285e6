//! Integers written as fixed-width hexadecimal terms whose text order is their numeric order.

use vstd::prelude::*;

use crate::text::{
    chars_of, hex_char, hex_digit, parse_i64, parse_i64_spec, string_of, trim_chars, trimmed,
};

verus! {

/// Whether `a` comes before `b` in the order of `str`: by the first character where they differ,
/// and a proper prefix first.
pub open spec fn text_less(a: Seq<char>, b: Seq<char>) -> bool
    decreases a.len(),
{
    if a.len() == 0 {
        b.len() > 0
    } else if b.len() == 0 {
        false
    } else if a[0] != b[0] {
        a[0] < b[0]
    } else {
        text_less(a.drop_first(), b.drop_first())
    }
}

/// The last `n` hexadecimal digits of `x`, most significant first.
pub open spec fn hex_digits(x: nat, n: nat) -> Seq<char>
    decreases n,
{
    if n == 0 {
        Seq::empty()
    } else {
        hex_digits(x / 16, (n - 1) as nat).push(hex_digit((x % 16) as int))
    }
}

/// Where a signed value lands when its sign bit is flipped: the order-preserving shift of
/// `i64` onto `u64`.
pub open spec fn order_key(v: i64) -> nat {
    (v + 0x8000_0000_0000_0000int) as nat
}

/// The term of an integer: its order key as 16 lowercase hexadecimal digits.
pub open spec fn integer_text(v: i64) -> Seq<char> {
    hex_digits(order_key(v), 16)
}

/// `16` to the power `n`.
pub open spec fn pow16(n: nat) -> nat
    decreases n,
{
    if n == 0 {
        1
    } else {
        16 * pow16((n - 1) as nat)
    }
}

/// The value of a hexadecimal digit, either case; `None` for another character.
pub open spec fn hex_value(c: char) -> Option<nat> {
    if '0' <= c <= '9' {
        Some((c as nat - '0' as nat) as nat)
    } else if 'a' <= c <= 'f' {
        Some((c as nat - 'a' as nat + 10) as nat)
    } else if 'A' <= c <= 'F' {
        Some((c as nat - 'A' as nat + 10) as nat)
    } else {
        None
    }
}

/// Whether every character of `s` is a hexadecimal digit.
pub open spec fn all_hex(s: Seq<char>) -> bool {
    forall|k: int| 0 <= k < s.len() ==> (#[trigger] hex_value(s[k])) is Some
}

/// The value of the hexadecimal digits `s`.
pub open spec fn hex_number(s: Seq<char>) -> nat
    decreases s.len(),
{
    if s.len() == 0 {
        0
    } else {
        16 * hex_number(s.drop_last()) + hex_value(s.last()).unwrap_or(0)
    }
}

/// The `u64` that `s` writes in base 16, as `u64::from_str_radix(s, 16)` reads it: an optional
/// `+`, then one or more digits of either case, and a value that fits.
pub open spec fn parse_hex_u64_spec(s: Seq<char>) -> Option<u64> {
    let body = if s.len() > 0 && s[0] == '+' {
        s.drop_first()
    } else {
        s
    };
    if body.len() == 0 || !all_hex(body) || hex_number(body) > u64::MAX {
        None
    } else {
        Some(hex_number(body) as u64)
    }
}

/// The integer a term stands for, if it is one.
pub open spec fn decode_i64_spec(term: Seq<char>) -> Option<i64> {
    match parse_hex_u64_spec(term) {
        Some(key) => Some((key - 0x8000_0000_0000_0000int) as i64),
        None => None,
    }
}

/// Appends the last `n` hexadecimal digits of `x` to `out`.
fn push_hex_digits(out: &mut Vec<char>, x: u64, n: u32)
    ensures
        final(out)@ == old(out)@ + hex_digits(x as nat, n as nat),
    decreases n,
{
    if n > 0 {
        push_hex_digits(out, x / 16, n - 1);
        let d = (x % 16) as u8;
        out.push(hex_char(d));
        proof {
            assert(final(out)@ =~= old(out)@ + hex_digits(x as nat, n as nat)) by {
                assert(hex_digits(x as nat, n as nat) == hex_digits((x / 16) as nat, (n - 1) as nat).push(
                    hex_digit((x % 16) as int),
                ));
            }
        }
    }
}

/// The order key of `v`: its bits with the sign bit flipped.
fn key_of(v: i64) -> (r: u64)
    ensures
        r as nat == order_key(v),
{
    let u = (v as u64) ^ (1u64 << 63);
    assert(u as int == v as int + 0x8000_0000_0000_0000int) by (bit_vector)
        requires
            u == (v as u64) ^ (1u64 << 63),
    ;
    u
}

/// `v` as a term of 16 hexadecimal digits whose order as text is the order of the integers.
pub fn encode_i64(v: i64) -> (r: String)
    ensures
        r@ == integer_text(v),
{
    let mut digits: Vec<char> = Vec::new();
    push_hex_digits(&mut digits, key_of(v), 16);
    assert(digits@ =~= integer_text(v));
    string_of(digits.as_slice())
}

/// Reads `s` as `u64::from_str_radix(s, 16)` does.
fn parse_hex_u64(s: &[char]) -> (r: Option<u64>)
    ensures
        r == parse_hex_u64_spec(s@),
{
    let n = s.len();
    let start: usize = if n > 0 && s[0] == '+' {
        1
    } else {
        0
    };
    let ghost body = if n > 0 && s@[0] == '+' {
        s@.drop_first()
    } else {
        s@
    };
    assert(body =~= s@.subrange(start as int, n as int));
    if start == n {
        return None;
    }
    let mut acc: u64 = 0;
    let mut i: usize = start;
    while i < n
        invariant
            start <= i <= n,
            n == s@.len(),
            body == s@.subrange(start as int, n as int),
            body == (if n > 0 && s@[0] == '+' {
                s@.drop_first()
            } else {
                s@
            }),
            acc == hex_number(s@.subrange(start as int, i as int)),
            all_hex(s@.subrange(start as int, i as int)),
        decreases n - i,
    {
        let c = s[i];
        let d: u64 = if '0' <= c && c <= '9' {
            (c as u32 - '0' as u32) as u64
        } else if 'a' <= c && c <= 'f' {
            (c as u32 - 'a' as u32 + 10) as u64
        } else if 'A' <= c && c <= 'F' {
            (c as u32 - 'A' as u32 + 10) as u64
        } else {
            proof {
                assert(body[i - start] == c);
                assert(hex_value(body[i - start]) is None);
            }
            return None;
        };
        assert(d < 16);
        let ghost prefix = s@.subrange(start as int, i + 1);
        proof {
            assert(prefix.drop_last() =~= s@.subrange(start as int, i as int));
            assert(all_hex(prefix)) by {
                assert forall|m: int| 0 <= m < prefix.len() implies (#[trigger] hex_value(prefix[m])) is Some by {
                    if m < prefix.len() - 1 {
                        assert(prefix[m] == s@.subrange(start as int, i as int)[m]);
                    }
                }
            }
            assert(hex_number(prefix) == 16 * acc + d);
        }
        if acc > (u64::MAX - d) / 16 {
            proof {
                assert(hex_number(prefix) > u64::MAX);
                if all_hex(body) {
                    lemma_hex_prefix(body, i + 1 - start);
                    assert(body.subrange(0, i + 1 - start) =~= prefix);
                }
            }
            return None;
        }
        acc = acc * 16 + d;
        i += 1;
    }
    assert(s@.subrange(start as int, n as int) =~= body);
    Some(acc)
}

/// A longer run of hexadecimal digits is worth at least as much as its prefix.
pub proof fn lemma_hex_prefix(s: Seq<char>, k: int)
    requires
        0 <= k <= s.len(),
        all_hex(s),
    ensures
        hex_number(s) >= hex_number(s.subrange(0, k)),
    decreases s.len(),
{
    if k == s.len() {
        assert(s.subrange(0, k) =~= s);
    } else {
        let t = s.drop_last();
        assert(all_hex(t)) by {
            assert forall|m: int| 0 <= m < t.len() implies (#[trigger] hex_value(t[m])) is Some by {
                assert(t[m] == s[m]);
            }
        }
        lemma_hex_prefix(t, k);
        assert(t.subrange(0, k) =~= s.subrange(0, k));
    }
}

/// The integer that the term `term` stands for; `None` where `term` is not base-16 text of a
/// `u64`.
pub fn decode_i64(term: &str) -> (r: Option<i64>)
    ensures
        r == decode_i64_spec(term@),
{
    let chars = chars_of(term);
    match parse_hex_u64(chars.as_slice()) {
        Some(key) => {
            let v = (key ^ (1u64 << 63)) as i64;
            assert(v as int == key as int - 0x8000_0000_0000_0000int) by (bit_vector)
                requires
                    v == (key ^ (1u64 << 63)) as i64,
            ;
            Some(v)
        },
        None => None,
    }
}

/// The term of the integer written in `raw` (white space around it allowed); `None` where
/// `raw` holds no `i64`.
pub fn integer_term(raw: &str) -> (r: Option<String>)
    ensures
        r matches Some(t) ==> parse_i64_spec(trimmed(raw@)) matches Some(v) && t@ == integer_text(v),
        r is None ==> parse_i64_spec(trimmed(raw@)) is None,
{
    let chars = chars_of(raw);
    let t = trim_chars(chars.as_slice());
    match parse_i64(t.as_slice()) {
        Some(v) => Some(encode_i64(v)),
        None => None,
    }
}

/// Appending one character to each of two equally long texts orders them by the texts, and
/// by the characters where the texts are equal.
pub proof fn lemma_text_less_push(a: Seq<char>, b: Seq<char>, c: char, d: char)
    requires
        a.len() == b.len(),
    ensures
        text_less(a.push(c), b.push(d)) <==> (text_less(a, b) || (a == b && c < d)),
    decreases a.len(),
{
    if a.len() == 0 {
        assert(a =~= b);
        assert(a.push(c).drop_first() =~= Seq::<char>::empty());
        assert(b.push(d).drop_first() =~= Seq::<char>::empty());
        assert(!text_less(Seq::<char>::empty(), Seq::<char>::empty()));
        assert(!text_less(a, b));
    } else {
        assert(a.push(c).drop_first() =~= a.drop_first().push(c));
        assert(b.push(d).drop_first() =~= b.drop_first().push(d));
        lemma_text_less_push(a.drop_first(), b.drop_first(), c, d);
        if a[0] == b[0] && a.drop_first() == b.drop_first() {
            assert forall|k: int| 0 <= k < a.len() implies a[k] == b[k] by {
                if k > 0 {
                    assert(a[k] == a.drop_first()[k - 1]);
                    assert(b[k] == b.drop_first()[k - 1]);
                }
            }
            assert(a =~= b);
        }
        if a == b {
            assert(a.drop_first() == b.drop_first());
        }
    }
}

/// No text comes before itself.
pub proof fn lemma_text_less_irreflexive(a: Seq<char>)
    ensures
        !text_less(a, a),
    decreases a.len(),
{
    if a.len() > 0 {
        lemma_text_less_irreflexive(a.drop_first());
    }
}

/// Fixed-width hexadecimal texts are ordered as the numbers they write.
pub proof fn lemma_hex_digits_order(x: nat, y: nat, n: nat)
    requires
        x < pow16(n),
        y < pow16(n),
    ensures
        x < y <==> text_less(hex_digits(x, n), hex_digits(y, n)),
        hex_digits(x, n).len() == n,
    decreases n,
{
    if n == 0 {
        lemma_text_less_irreflexive(hex_digits(x, n));
    } else {
        let p = pow16((n - 1) as nat);
        assert(x / 16 < p && y / 16 < p) by (nonlinear_arith)
            requires
                x < 16 * p,
                y < 16 * p,
        ;
        lemma_hex_digits_order(x / 16, y / 16, (n - 1) as nat);
        lemma_hex_digits_order(y / 16, x / 16, (n - 1) as nat);
        let hx = hex_digits(x / 16, (n - 1) as nat);
        let hy = hex_digits(y / 16, (n - 1) as nat);
        lemma_text_less_push(hx, hy, hex_digit((x % 16) as int), hex_digit((y % 16) as int));
        lemma_text_less_irreflexive(hx);
        assert(x == 16 * (x / 16) + x % 16 && y == 16 * (y / 16) + y % 16) by (nonlinear_arith);
        if hx == hy {
            assert(x / 16 == y / 16);
        }
    }
}

/// Reading back fixed-width hexadecimal text gives the number modulo its width.
pub proof fn lemma_hex_digits_value(x: nat, n: nat)
    ensures
        hex_number(hex_digits(x, n)) == x % pow16(n),
        all_hex(hex_digits(x, n)),
        hex_digits(x, n).len() == n,
    decreases n,
{
    if n == 0 {
        assert(x % 1 == 0) by (nonlinear_arith);
    } else {
        let p = pow16((n - 1) as nat);
        lemma_hex_digits_value(x / 16, (n - 1) as nat);
        let h = hex_digits(x, n);
        assert(h.drop_last() == hex_digits(x / 16, (n - 1) as nat));
        assert(p > 0) by {
            lemma_pow16_positive((n - 1) as nat);
        }
        vstd::arithmetic::div_mod::lemma_mod_breakdown(x as int, 16, p as int);
        assert forall|k: int| 0 <= k < h.len() implies (#[trigger] hex_value(h[k])) is Some by {
            if k < h.len() - 1 {
                assert(h[k] == hex_digits(x / 16, (n - 1) as nat)[k]);
            }
        }
    }
}

/// Powers of sixteen are positive.
pub proof fn lemma_pow16_positive(n: nat)
    ensures
        pow16(n) > 0,
    decreases n,
{
    if n > 0 {
        lemma_pow16_positive((n - 1) as nat);
    }
}

/// Sixteen hexadecimal digits hold exactly the `u64` values.
pub proof fn lemma_pow16_sixteen()
    ensures
        pow16(16) == 0x1_0000_0000_0000_0000nat,
{
    reveal_with_fuel(pow16, 17);
}

/// The terms of two integers are ordered as the integers: `encode_i64` keeps the order.
pub proof fn lemma_integer_text_order(a: i64, b: i64)
    ensures
        a < b <==> text_less(integer_text(a), integer_text(b)),
{
    lemma_pow16_sixteen();
    lemma_hex_digits_order(order_key(a), order_key(b), 16);
}

/// Decoding the term of an integer gives the integer back.
pub proof fn lemma_integer_text_roundtrip(v: i64)
    ensures
        decode_i64_spec(integer_text(v)) == Some(v),
{
    lemma_pow16_sixteen();
    let k = order_key(v);
    lemma_hex_digits_value(k, 16);
    assert(k % pow16(16) == k);
    let t = integer_text(v);
    assert(hex_value(t[0]) is Some);
}

} // verus!
