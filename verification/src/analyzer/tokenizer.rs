use vstd::prelude::*;

use crate::analyzer::runs::{
    alnum_runs, alphanumeric, byte_offset, char_len_utf8, is_alphanumeric, lemma_alnum_runs,
    lemma_byte_offset_end, lemma_byte_offset_mono, lemma_byte_offset_step, lemma_runs_prefix_len,
};
use crate::analyzer::token::RawToken;
use crate::text::{chars_of, string_of};
use vstd::slice::slice_subrange;

verus! {

broadcast use vstd::string::group_string_axioms;

/// Whether `t` is the token of run `k` of `s`: its characters, its number and its bytes.
pub open spec fn is_run_token(s: Seq<char>, runs: Seq<(int, int)>, k: int, t: RawToken) -> bool {
    &&& t.text@ == s.subrange(runs[k].0, runs[k].1)
    &&& t.position == k
    &&& t.start_byte == byte_offset(s, runs[k].0)
    &&& t.end_byte == byte_offset(s, runs[k].1)
}

/// Cuts text into its maximal runs of alphanumeric characters.
#[derive(Debug, Clone, Copy)]
pub struct SimpleTokenizer;

impl SimpleTokenizer {
    /// The maximal runs of alphanumeric characters of `input`, in order, numbered from 0, with
    /// the byte range of each. The numbers are `u32`, so there may be at most `u32::MAX` runs.
    pub fn tokenize(&self, input: &str) -> (r: Vec<RawToken>)
        requires
            alnum_runs(input@).len() <= u32::MAX,
        ensures
            r@.len() == alnum_runs(input@).len(),
            forall|k: int| 0 <= k < r@.len() ==> is_run_token(input@, alnum_runs(input@), k, #[trigger] r@[k]),
    {
        let chars = chars_of(input);
        let ghost s = input@;
        let n = chars.len();
        let total = input.as_bytes().len();
        proof {
            lemma_byte_offset_end(s);
        }
        let mut tokens: Vec<RawToken> = Vec::new();
        let mut start: Option<(usize, usize)> = None;
        let mut position: u32 = 0;
        let mut byte: usize = 0;
        let mut i: usize = 0;
        while i < n
            invariant
                chars@ == s,
                n == s.len(),
                alnum_runs(s).len() <= u32::MAX,
                total == byte_offset(s, s.len() as int),
                i <= n,
                byte == byte_offset(s, i as int),
                position == tokens@.len(),
                match start {
                    Some((a, b)) => {
                        &&& i > 0 && alphanumeric(s[i - 1])
                        &&& alnum_runs(s.subrange(0, i as int)).len() == tokens@.len() + 1
                        &&& alnum_runs(s.subrange(0, i as int)).last() == (a as int, i as int)
                        &&& b == byte_offset(s, a as int)
                    },
                    None => {
                        &&& (i > 0 ==> !alphanumeric(s[i - 1]))
                        &&& alnum_runs(s.subrange(0, i as int)).len() == tokens@.len()
                    },
                },
                forall|k: int|
                    0 <= k < tokens@.len() ==> is_run_token(s, alnum_runs(s.subrange(0, i as int)), k, #[trigger] tokens@[k]),
            decreases n - i,
        {
            let c = chars[i];
            let ghost pre = s.subrange(0, i as int);
            let ghost post = s.subrange(0, i + 1);
            proof {
                assert(post.drop_last() =~= pre);
                assert(post.last() == c);
                lemma_byte_offset_step(s, i as int);
                lemma_byte_offset_mono(s, i + 1, s.len() as int);
                assert forall|k: int| 0 <= k < pre.len() implies pre[k] == post[k] && pre[k] == s[k] by {}
            }
            proof {
                lemma_alnum_runs(pre);
            }
            let clen = char_len_utf8(c);
            if is_alphanumeric(c) {
                if start.is_none() {
                    start = Some((i, byte));
                    proof {
                        assert(alnum_runs(post) == alnum_runs(pre).push((i as int, i + 1)));
                    }
                } else {
                    proof {
                        assert(alnum_runs(post) == alnum_runs(pre).update(
                            alnum_runs(pre).len() - 1,
                            (alnum_runs(pre).last().0, i + 1),
                        ));
                    }
                }
                proof {
                    assert forall|k: int| 0 <= k < tokens@.len() implies is_run_token(s, alnum_runs(post), k, #[trigger] tokens@[k]) by {
                        assert(alnum_runs(post)[k] == alnum_runs(pre)[k]);
                    }
                }
            } else {
                proof {
                    assert(alnum_runs(post) == alnum_runs(pre));
                }
                if let Some((a, b)) = start {
                    let piece = slice_subrange(chars.as_slice(), a, i);
                    let text = string_of(piece);
                    proof {
                        assert(piece@ =~= s.subrange(a as int, i as int));
                        assert(tokens@.len() < u32::MAX) by {
                            assert(tokens@.len() < alnum_runs(pre).len());
                            lemma_runs_prefix_len(s, |c: char| alphanumeric(c), i as int);
                        }
                    }
                    let ghost k = tokens@.len() as int;
                    tokens.push(RawToken { text, position, start_byte: b, end_byte: byte });
                    position = position + 1;
                    start = None;
                    proof {
                        assert(is_run_token(s, alnum_runs(post), k, tokens@[k]));
                    }
                }
            }
            byte = byte + clen;
            i += 1;
        }
        proof {
            assert(s.subrange(0, n as int) =~= s);
        }
        proof {
            lemma_alnum_runs(s);
        }
        if let Some((a, b)) = start {
            proof {
                assert(alnum_runs(s.subrange(0, i as int)) == alnum_runs(s));
                assert(alnum_runs(s)[alnum_runs(s).len() - 1] == (a as int, n as int));
                assert(alnum_runs(s)[alnum_runs(s).len() - 1].0 < alnum_runs(s)[alnum_runs(s).len() - 1].1);
            }
            let piece = slice_subrange(chars.as_slice(), a, n);
            let text = string_of(piece);
            proof {
                assert(piece@ =~= s.subrange(a as int, n as int));
                assert(tokens@.len() < u32::MAX) by {
                    assert(tokens@.len() < alnum_runs(s).len());
                    lemma_alnum_runs(s);
                }
            }
            let ghost k = tokens@.len() as int;
            tokens.push(RawToken { text, position, start_byte: b, end_byte: total });
            proof {
                assert(is_run_token(s, alnum_runs(s), k, tokens@[k]));
            }
        }
        tokens
    }
}

} // verus!
