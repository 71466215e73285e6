use vstd::prelude::*;

use crate::analyzer::runs::{alphanumeric, is_alphanumeric};
use crate::analyzer::token::{RawToken, Token};
use crate::analyzer::word_delimiter::contains_char;
use crate::text::{chars_of, is_white_space, is_white_space_char, string_of};

verus! {

/// The lowercase form of `s`, as `str::to_lowercase` gives it (Unicode's lowercase mapping,
/// which may change the number of characters).
pub uninterp spec fn lowercase(s: Seq<char>) -> Seq<char>;

/// `str::to_lowercase`.
#[verifier::external_body]
fn to_lowercase(s: &str) -> (r: String)
    ensures
        r@ == lowercase(s@),
{
    s.to_lowercase()
}

/// Turns raw tokens into normalized ones: lowercase text, same place.
#[derive(Debug, Clone, Copy)]
pub struct Normalizer;

impl Normalizer {
    /// `token` with its text in lowercase.
    pub fn normalize(&self, token: RawToken) -> (r: Token)
        ensures
            r.text@ == lowercase(token.text@),
            r.position == token.position,
            r.start_byte == token.start_byte,
            r.end_byte == token.end_byte,
    {
        Token {
            text: to_lowercase(token.text.as_str()),
            position: token.position,
            start_byte: token.start_byte,
            end_byte: token.end_byte,
        }
    }
}

/// Whether a query keeps `c`: alphanumeric, white space, or a literal symbol.
pub open spec fn query_keeps(c: char, literal_symbols: Seq<char>) -> bool {
    alphanumeric(c) || is_white_space(c) || literal_symbols.contains(c)
}

/// The text of a query with every character dropped that is neither alphanumeric, white space
/// nor a literal symbol, so that `spider-man` is searched as the index holds it.
pub fn canonical_query(input: &str, literal_symbols: &[char]) -> (r: String)
    ensures
        r@ == input@.filter(|c: char| query_keeps(c, literal_symbols@)),
{
    let chars = chars_of(input);
    let ghost s = input@;
    let ghost p = |c: char| query_keeps(c, literal_symbols@);
    let mut kept: Vec<char> = Vec::new();
    let mut i: usize = 0;
    proof {
        reveal_with_fuel(Seq::<_>::filter, 1);
        assert(s.subrange(0, 0).filter(p) =~= Seq::<char>::empty());
    }
    while i < chars.len()
        invariant
            chars@ == s,
            i <= s.len(),
            p == (|c: char| query_keeps(c, literal_symbols@)),
            kept@ == s.subrange(0, i as int).filter(p),
        decreases s.len() - i,
    {
        let c = chars[i];
        proof {
            reveal_with_fuel(Seq::<_>::filter, 1);
            assert(s.subrange(0, i + 1).drop_last() =~= s.subrange(0, i as int));
        }
        if is_alphanumeric(c) || is_white_space_char(c) || contains_char(literal_symbols, c) {
            kept.push(c);
        }
        i += 1;
    }
    assert(s.subrange(0, s.len() as int) =~= s);
    string_of(kept.as_slice())
}

} // verus!
