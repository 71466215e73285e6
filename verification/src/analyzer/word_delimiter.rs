use vstd::prelude::*;

use crate::analyzer::runs::{
    alphanumeric, byte_offset, char_len_utf8, is_alphanumeric, lemma_byte_offset_end,
    lemma_byte_offset_mono, lemma_byte_offset_step, lemma_runs_len, runs,
};
use crate::text::{chars_of, is_white_space, is_white_space_char, string_of};
use vstd::slice::slice_subrange;

verus! {

broadcast use vstd::string::group_string_axioms;

/// Whether `c` splits words: neither alphanumeric nor one of the literal symbols.
pub open spec fn is_delimiter(c: char, literal_symbols: Seq<char>) -> bool {
    !alphanumeric(c) && !literal_symbols.contains(c)
}

/// The maximal runs of characters of `s` that do not split words.
pub open spec fn part_runs(s: Seq<char>, literal_symbols: Seq<char>) -> Seq<(int, int)> {
    runs(s, |c: char| !is_delimiter(c, literal_symbols))
}

/// The runs of non-delimiters are ordered, apart and inside `s`.
pub proof fn lemma_part_runs(s: Seq<char>, literal_symbols: Seq<char>)
    ensures
        part_runs(s, literal_symbols).len() <= s.len(),
        forall|k: int|
            0 <= k < part_runs(s, literal_symbols).len() ==> k <= #[trigger] part_runs(s, literal_symbols)[k].0
                < part_runs(s, literal_symbols)[k].1 <= s.len(),
{
    lemma_runs_len(s, |c: char| !is_delimiter(c, literal_symbols));
}

/// The pieces of `s` between delimiters, empty ones left out.
pub open spec fn word_parts(s: Seq<char>, literal_symbols: Seq<char>) -> Seq<Seq<char>> {
    part_runs(s, literal_symbols).map_values(|r: (int, int)| s.subrange(r.0, r.1))
}

/// The characters of `s` that do not split words, in order: the pieces run together.
pub open spec fn catenated(s: Seq<char>, literal_symbols: Seq<char>) -> Seq<char> {
    s.filter(|c: char| !is_delimiter(c, literal_symbols))
}

/// What a word expands to: itself alone where it has no delimiter; else itself, its pieces,
/// and its pieces run together.
pub open spec fn expansion(s: Seq<char>, literal_symbols: Seq<char>) -> Seq<Seq<char>> {
    if !(exists|i: int| 0 <= i < s.len() && is_delimiter(s[i], literal_symbols)) {
        seq![s]
    } else {
        seq![s] + word_parts(s, literal_symbols) + seq![catenated(s, literal_symbols)]
    }
}

/// Whether `c` is one of `symbols`.
pub fn contains_char(symbols: &[char], c: char) -> (r: bool)
    ensures
        r == symbols@.contains(c),
{
    let mut i: usize = 0;
    while i < symbols.len()
        invariant
            i <= symbols@.len(),
            forall|k: int| 0 <= k < i ==> symbols@[k] != c,
        decreases symbols@.len() - i,
    {
        if symbols[i] == c {
            assert(symbols@[i as int] == c);
            return true;
        }
        i += 1;
    }
    false
}

/// Splits `word` at the characters that are neither alphanumeric nor literal symbols: the word
/// itself where it has none, else the word, its non-empty pieces in order, and the pieces run
/// together (`spider-man` gives `spider-man`, `spider`, `man`, `spiderman`).
pub fn expand_word_delimiters(word: &str, literal_symbols: &[char]) -> (r: Vec<String>)
    ensures
        r@.map_values(|x: String| x@) == expansion(word@, literal_symbols@),
{
    let chars = chars_of(word);
    let ghost s = word@;
    let ghost lits = literal_symbols@;
    let n = chars.len();
    let mut parts: Vec<String> = Vec::new();
    let mut cur: Vec<char> = Vec::new();
    let mut cat: Vec<char> = Vec::new();
    let mut has_delim = false;
    let mut i: usize = 0;
    proof {
        reveal_with_fuel(Seq::<_>::filter, 1);
        assert(s.subrange(0, 0).filter(|c: char| !is_delimiter(c, lits)) =~= Seq::<char>::empty());
    }
    while i < n
        invariant
            chars@ == s,
            n == s.len(),
            lits == literal_symbols@,
            i <= n,
            cat@ == catenated(s.subrange(0, i as int), lits),
            has_delim == exists|j: int| 0 <= j < i && is_delimiter(s[j], lits),
            cur@.len() > 0 <==> (i > 0 && !is_delimiter(s[i - 1], lits)),
            cur@.len() > 0 ==> part_runs(s.subrange(0, i as int), lits).len() == parts@.len() + 1
                && part_runs(s.subrange(0, i as int), lits).last() == (i - cur@.len(), i as int)
                && cur@ == s.subrange(i - cur@.len(), i as int),
            cur@.len() == 0 ==> part_runs(s.subrange(0, i as int), lits).len() == parts@.len(),
            forall|k: int| 0 <= k < parts@.len() ==> (#[trigger] parts@[k])@ == s.subrange(
                part_runs(s.subrange(0, i as int), lits)[k].0,
                part_runs(s.subrange(0, i as int), lits)[k].1,
            ),
        decreases n - i,
    {
        let c = chars[i];
        let ghost pre = s.subrange(0, i as int);
        let ghost post = s.subrange(0, i + 1);
        proof {
            assert(post.drop_last() =~= pre);
            assert(post.last() == c);
            reveal_with_fuel(Seq::<_>::filter, 1);
            if i > 0 {
                assert(pre.last() == s[i - 1]);
            }
        }
        let delim = !is_alphanumeric(c) && !contains_char(literal_symbols, c);
        if delim {
            has_delim = true;
            proof {
                assert(part_runs(post, lits) == part_runs(pre, lits));
                assert(catenated(post, lits) == catenated(pre, lits));
            }
            if cur.len() > 0 {
                let ghost k = parts@.len() as int;
                let piece = string_of(cur.as_slice());
                parts.push(piece);
                cur = Vec::new();
                proof {
                    assert(parts@[k]@ == s.subrange(part_runs(post, lits)[k].0, part_runs(post, lits)[k].1));
                }
            }
        } else {
            proof {
                assert(catenated(post, lits) == catenated(pre, lits).push(c));
                if cur@.len() > 0 {
                    assert(part_runs(post, lits) == part_runs(pre, lits).update(
                        part_runs(pre, lits).len() - 1,
                        (part_runs(pre, lits).last().0, i + 1),
                    ));
                } else {
                    assert(part_runs(post, lits) == part_runs(pre, lits).push((i as int, i + 1)));
                }
            }
            let ghost old_cur = cur@;
            cur.push(c);
            cat.push(c);
            proof {
                if old_cur.len() > 0 {
                    lemma_part_runs(pre, lits);
                    let last = part_runs(pre, lits)[part_runs(pre, lits).len() - 1];
                    assert(last.0 < last.1);
                    assert(old_cur == s.subrange(i - old_cur.len(), i as int));
                    assert(s.subrange(i - old_cur.len(), i + 1) =~= s.subrange(i - old_cur.len(), i as int).push(s[i as int]));
                } else {
                    assert(s.subrange(i as int, i + 1) =~= seq![s[i as int]]);
                }
                assert(cur@ =~= s.subrange(i + 1 - cur@.len(), i + 1));
            }
        }
        proof {
            assert forall|k: int| 0 <= k < parts@.len() implies (#[trigger] parts@[k])@ == s.subrange(
                part_runs(post, lits)[k].0,
                part_runs(post, lits)[k].1,
            ) by {
                if k < part_runs(pre, lits).len() && !(cur@.len() == 0 && delim) {
                    assert(part_runs(post, lits)[k] == part_runs(pre, lits)[k]);
                }
            }
        }
        i += 1;
    }
    proof {
        assert(s.subrange(0, n as int) =~= s);
    }
    if cur.len() > 0 {
        let ghost k = parts@.len() as int;
        let piece = string_of(cur.as_slice());
        parts.push(piece);
        proof {
            assert(parts@[k]@ == s.subrange(part_runs(s, lits)[k].0, part_runs(s, lits)[k].1));
        }
    }
    let mut out: Vec<String> = Vec::new();
    out.push(word.to_string());
    if !has_delim {
        proof {
            assert(out@.map_values(|x: String| x@) =~= seq![s]);
        }
        return out;
    }
    let ghost np = parts@.len();
    let mut k: usize = 0;
    while k < parts.len()
        invariant
            k <= parts@.len(),
            np == parts@.len(),
            out@.len() == k + 1,
            out@[0]@ == s,
            forall|m: int| 1 <= m <= k ==> (#[trigger] out@[m])@ == parts@[m - 1]@,
        decreases parts@.len() - k,
    {
        out.push(parts[k].clone());
        k += 1;
    }
    out.push(string_of(cat.as_slice()));
    proof {
        let want = expansion(s, lits);
        assert(part_runs(s, lits).len() == np);
        assert(out@.map_values(|x: String| x@) =~= want) by {
            assert forall|m: int| 0 <= m < np implies #[trigger] word_parts(s, lits)[m] == parts@[m]@ by {}
            assert(want == seq![s] + word_parts(s, lits) + seq![catenated(s, lits)]);
            assert forall|m: int| 0 <= m < out@.len() implies out@.map_values(|x: String| x@)[m] == want[m] by {
                if 1 <= m <= np {
                    assert(out@[m]@ == parts@[m - 1]@);
                }
            }
        }
    }
    out
}

/// The chunks of `s` between white space.
pub open spec fn chunk_runs(s: Seq<char>) -> Seq<(int, int)> {
    runs(s, |c: char| !is_white_space(c))
}

/// The chunks are ordered, apart and inside `s`.
pub proof fn lemma_chunk_runs(s: Seq<char>)
    ensures
        chunk_runs(s).len() <= s.len(),
        forall|k: int| 0 <= k < chunk_runs(s).len() ==> k <= #[trigger] chunk_runs(s)[k].0 < chunk_runs(s)[k].1 <= s.len(),
{
    lemma_runs_len(s, |c: char| !is_white_space(c));
}

/// The tokens of the chunks `chunks` of `s`, in order: each chunk's expansion, each expanded
/// word with the byte range of its chunk.
pub open spec fn chunk_tokens(s: Seq<char>, literal_symbols: Seq<char>, chunks: Seq<(int, int)>) -> Seq<(Seq<char>, int, int)>
    decreases chunks.len(),
{
    if chunks.len() == 0 {
        Seq::empty()
    } else {
        let c = chunks.last();
        chunk_tokens(s, literal_symbols, chunks.drop_last()) + expansion(s.subrange(c.0, c.1), literal_symbols).map_values(
            |e: Seq<char>| (e, byte_offset(s, c.0), byte_offset(s, c.1)),
        )
    }
}

/// A token cut by the word-delimiter tokenizer: its text, its number, and the byte range of
/// the chunk it came from.
#[derive(Debug, Clone)]
pub struct DelimitedToken {
    pub text: String,
    pub position: usize,
    pub offset_from: usize,
    pub offset_to: usize,
}

/// A chunk of text between white space: its range of places and its range of bytes.
struct Chunk {
    from: usize,
    to: usize,
    byte_from: usize,
    byte_to: usize,
}

/// The chunks of `chars`, which are `s`, between white space.
fn chunks_of(chars: &Vec<char>, total: usize) -> (r: Vec<Chunk>)
    requires
        total == byte_offset(chars@, chars@.len() as int),
    ensures
        r@.len() == chunk_runs(chars@).len(),
        forall|k: int|
            0 <= k < r@.len() ==> (#[trigger] r@[k]).from == chunk_runs(chars@)[k].0 && r@[k].to == chunk_runs(chars@)[k].1
                && r@[k].byte_from == byte_offset(chars@, r@[k].from as int) && r@[k].byte_to == byte_offset(
                chars@,
                r@[k].to as int,
            ),
{
    let ghost s = chars@;
    let n = chars.len();
    let mut out: Vec<Chunk> = Vec::new();
    let mut start: Option<(usize, usize)> = None;
    let mut byte: usize = 0;
    let mut i: usize = 0;
    while i < n
        invariant
            chars@ == s,
            n == s.len(),
            total == byte_offset(s, s.len() as int),
            i <= n,
            byte == byte_offset(s, i as int),
            match start {
                Some((a, b)) => {
                    &&& i > 0 && !is_white_space(s[i - 1])
                    &&& chunk_runs(s.subrange(0, i as int)).len() == out@.len() + 1
                    &&& chunk_runs(s.subrange(0, i as int)).last() == (a as int, i as int)
                    &&& b == byte_offset(s, a as int)
                },
                None => {
                    &&& (i > 0 ==> is_white_space(s[i - 1]))
                    &&& chunk_runs(s.subrange(0, i as int)).len() == out@.len()
                },
            },
            forall|k: int|
                0 <= k < out@.len() ==> (#[trigger] out@[k]).from == chunk_runs(s.subrange(0, i as int))[k].0
                    && out@[k].to == chunk_runs(s.subrange(0, i as int))[k].1 && out@[k].byte_from == byte_offset(
                    s,
                    out@[k].from as int,
                ) && out@[k].byte_to == byte_offset(s, out@[k].to as int),
        decreases n - i,
    {
        let c = chars[i];
        let ghost pre = s.subrange(0, i as int);
        let ghost post = s.subrange(0, i + 1);
        proof {
            assert(post.drop_last() =~= pre);
            assert(post.last() == c);
            lemma_byte_offset_step(s, i as int);
            lemma_byte_offset_mono(s, i + 1, s.len() as int);
            if i > 0 {
                assert(pre.last() == s[i - 1]);
            }
        }
        let clen = char_len_utf8(c);
        if !is_white_space_char(c) {
            if start.is_none() {
                start = Some((i, byte));
                proof {
                    assert(chunk_runs(post) == chunk_runs(pre).push((i as int, i + 1)));
                }
            } else {
                proof {
                    assert(chunk_runs(post) == chunk_runs(pre).update(
                        chunk_runs(pre).len() - 1,
                        (chunk_runs(pre).last().0, i + 1),
                    ));
                }
            }
            proof {
                assert forall|k: int| 0 <= k < out@.len() implies (#[trigger] out@[k]).from == chunk_runs(post)[k].0
                    && out@[k].to == chunk_runs(post)[k].1 by {
                    assert(chunk_runs(post)[k] == chunk_runs(pre)[k]);
                }
            }
        } else {
            proof {
                assert(chunk_runs(post) == chunk_runs(pre));
            }
            if let Some((a, b)) = start {
                out.push(Chunk { from: a, to: i, byte_from: b, byte_to: byte });
                start = None;
            }
        }
        byte = byte + clen;
        i += 1;
    }
    proof {
        assert(s.subrange(0, n as int) =~= s);
    }
    if let Some((a, b)) = start {
        out.push(Chunk { from: a, to: n, byte_from: b, byte_to: total });
    }
    out
}

/// Cuts text at white space and expands each chunk at its delimiters.
#[derive(Debug, Clone)]
pub struct WordDelimiterTokenizer {
    pub literal_symbols: Vec<char>,
}

impl WordDelimiterTokenizer {
    /// A tokenizer that keeps the characters of `literal_symbols` inside words.
    pub fn new(literal_symbols: Vec<char>) -> (r: Self)
        ensures
            r.literal_symbols == literal_symbols,
    {
        WordDelimiterTokenizer { literal_symbols }
    }

    /// The tokens of `text`: for each chunk between white space, in order, the words it expands
    /// to, each with the byte range of its chunk, numbered from 0.
    pub fn tokens(&self, text: &str) -> (r: Vec<DelimitedToken>)
        ensures
            r@.len() == chunk_tokens(text@, self.literal_symbols@, chunk_runs(text@)).len(),
            forall|k: int|
                0 <= k < r@.len() ==> {
                    let t = chunk_tokens(text@, self.literal_symbols@, chunk_runs(text@))[k];
                    &&& (#[trigger] r@[k]).text@ == t.0
                    &&& r@[k].offset_from == t.1
                    &&& r@[k].offset_to == t.2
                    &&& r@[k].position == k
                },
    {
        let chars = chars_of(text);
        let ghost s = text@;
        let ghost lits = self.literal_symbols@;
        let total = text.as_bytes().len();
        proof {
            lemma_byte_offset_end(s);
        }
        let chunks = chunks_of(&chars, total);
        proof {
            lemma_chunk_runs(s);
        }
        let ghost cr = chunk_runs(s);
        let mut out: Vec<DelimitedToken> = Vec::new();
        let mut k: usize = 0;
        while k < chunks.len()
            invariant
                chars@ == s,
                lits == self.literal_symbols@,
                cr == chunk_runs(s),
                k <= chunks@.len(),
                chunks@.len() == cr.len(),
                forall|m: int| 0 <= m < cr.len() ==> m <= #[trigger] cr[m].0 < cr[m].1 <= s.len(),
                forall|m: int|
                    0 <= m < chunks@.len() ==> (#[trigger] chunks@[m]).from == cr[m].0 && chunks@[m].to == cr[m].1
                        && chunks@[m].byte_from == byte_offset(s, chunks@[m].from as int) && chunks@[m].byte_to
                        == byte_offset(s, chunks@[m].to as int),
                out@.len() == chunk_tokens(s, lits, cr.subrange(0, k as int)).len(),
                forall|j: int|
                    0 <= j < out@.len() ==> {
                        let t = chunk_tokens(s, lits, cr.subrange(0, k as int))[j];
                        &&& (#[trigger] out@[j]).text@ == t.0
                        &&& out@[j].offset_from == t.1
                        &&& out@[j].offset_to == t.2
                        &&& out@[j].position == j
                    },
            decreases chunks@.len() - k,
        {
            let ch = &chunks[k];
            proof {
                assert(ch.from == cr[k as int].0);
            }
            let piece = slice_subrange(chars.as_slice(), ch.from, ch.to);
            let word = string_of(piece);
            let expanded = expand_word_delimiters(word.as_str(), self.literal_symbols.as_slice());
            let ghost prev = out@;
            let ghost ex = expansion(s.subrange(cr[k as int].0, cr[k as int].1), lits);
            proof {
                assert(piece@ =~= s.subrange(cr[k as int].0, cr[k as int].1));
                assert(cr.subrange(0, k + 1).drop_last() =~= cr.subrange(0, k as int));
                assert(expanded@.len() == ex.len());
            }
            let mut e: usize = 0;
            while e < expanded.len()
                invariant
                    e <= expanded@.len(),
                    expanded@.len() == ex.len(),
                    forall|m: int| 0 <= m < ex.len() ==> (#[trigger] expanded@[m])@ == ex[m],
                    out@.len() == prev.len() + e,
                    forall|j: int| 0 <= j < prev.len() ==> #[trigger] out@[j] == prev[j],
                    forall|m: int|
                        0 <= m < e ==> {
                            &&& (#[trigger] out@[prev.len() + m]).text@ == ex[m]
                            &&& out@[prev.len() + m].offset_from == ch.byte_from
                            &&& out@[prev.len() + m].offset_to == ch.byte_to
                            &&& out@[prev.len() + m].position == prev.len() + m
                        },
                decreases expanded@.len() - e,
            {
                proof {
                    assert(expanded@.map_values(|x: String| x@)[e as int] == ex[e as int]);
                }
                let position = out.len();
                out.push(DelimitedToken {
                    text: expanded[e].clone(),
                    position,
                    offset_from: ch.byte_from,
                    offset_to: ch.byte_to,
                });
                e += 1;
            }
            proof {
                let now = chunk_tokens(s, lits, cr.subrange(0, k + 1));
                let c = cr.subrange(0, k + 1).last();
                assert(c == cr[k as int]);
                assert(now == chunk_tokens(s, lits, cr.subrange(0, k as int)) + ex.map_values(
                    |x: Seq<char>| (x, byte_offset(s, c.0), byte_offset(s, c.1)),
                ));
                assert forall|j: int| 0 <= j < out@.len() implies {
                    let t = now[j];
                    &&& (#[trigger] out@[j]).text@ == t.0
                    &&& out@[j].offset_from == t.1
                    &&& out@[j].offset_to == t.2
                    &&& out@[j].position == j
                } by {
                    if j >= prev.len() {
                        let m = j - prev.len();
                        assert(out@[prev.len() + m] == out@[j]);
                    }
                }
            }
            k += 1;
        }
        proof {
            assert(cr.subrange(0, cr.len() as int) =~= cr);
        }
        out
    }
}

} // verus!

verus! {

/// A word always expands to itself first; a word with a delimiter also expands, last, to its
/// pieces run together, which hold no delimiter.
pub proof fn lemma_expansion_keeps_word(s: Seq<char>, literal_symbols: Seq<char>, i: int)
    ensures
        expansion(s, literal_symbols).len() >= 1,
        expansion(s, literal_symbols)[0] == s,
        (exists|k: int| 0 <= k < s.len() && is_delimiter(s[k], literal_symbols)) ==> expansion(s, literal_symbols).last()
            == catenated(s, literal_symbols),
        0 <= i < catenated(s, literal_symbols).len() ==> !is_delimiter(catenated(s, literal_symbols)[i], literal_symbols),
{
    if 0 <= i < catenated(s, literal_symbols).len() {
        s.lemma_filter_pred(|c: char| !is_delimiter(c, literal_symbols), i);
    }
}

} // verus!
