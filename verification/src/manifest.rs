//! The manifest of an index directory: one segment file name per line, appended as segments are
//! written, and `name.del` appended when a segment is removed. Reading it back replays the lines.
//! app/ reads and writes the file.

use vstd::prelude::*;

use crate::text::{chars_of, string_of, text_eq};

verus! {

broadcast use vstd::string::group_string_axioms;

/// Where the first line break of `s` at or after `i` stands, or the end of `s`.
pub open spec fn first_newline(s: Seq<char>, i: int) -> int
    decreases s.len() - i,
{
    if i < 0 || i >= s.len() {
        s.len() as int
    } else if s[i] == '\n' {
        i
    } else {
        first_newline(s, i + 1)
    }
}

/// The lines of `s` as `str::lines` gives them: cut at each `\n`, a `\r` just before it
/// dropped, and no empty line after a final `\n`.
pub open spec fn lines_of(s: Seq<char>) -> Seq<Seq<char>>
    decreases s.len(),
{
    if s.len() == 0 {
        Seq::empty()
    } else {
        let k = first_newline(s, 0);
        let raw = s.subrange(0, k);
        let line = if k < s.len() && raw.len() > 0 && raw.last() == '\r' {
            raw.drop_last()
        } else {
            raw
        };
        let rest = if k < s.len() {
            s.subrange(k + 1, s.len() as int)
        } else {
            Seq::empty()
        };
        proof {
            lemma_first_newline_bounds(s, 0);
        }
        seq![line] + lines_of(rest)
    }
}

/// The segments listed after the line `line`: a line ending in `.del` removes every listing of
/// the name before that suffix; any other line lists one more segment.
pub open spec fn apply_line(live: Seq<Seq<char>>, line: Seq<char>) -> Seq<Seq<char>> {
    if line.len() >= 4 && line.subrange(line.len() - 4, line.len() as int) == ".del"@ {
        live.filter(|n: Seq<char>| n != line.subrange(0, line.len() - 4))
    } else {
        live.push(line)
    }
}

/// The segments listed after the lines `ls`, in order.
pub open spec fn replay(ls: Seq<Seq<char>>) -> Seq<Seq<char>>
    decreases ls.len(),
{
    if ls.len() == 0 {
        Seq::empty()
    } else {
        apply_line(replay(ls.drop_last()), ls.last())
    }
}

proof fn lemma_first_newline_shift(s: Seq<char>, p: int, j: int)
    requires
        0 <= p <= s.len(),
        0 <= j,
    ensures
        first_newline(s.subrange(p, s.len() as int), j) == first_newline(s, p + j) - p,
    decreases s.len() - (p + j),
{
    if p + j < s.len() && s[p + j] != '\n' {
        lemma_first_newline_shift(s, p, j + 1);
    }
}

/// The first line break at or after `i` is one, and there is none before it.
pub proof fn lemma_first_newline_bounds(s: Seq<char>, i: int)
    requires
        0 <= i,
    ensures
        i <= first_newline(s, i) || i > s.len(),
        first_newline(s, i) <= s.len(),
        first_newline(s, i) < s.len() ==> s[first_newline(s, i)] == '\n',
        forall|k: int| i <= k < first_newline(s, i) ==> s[k] != '\n',
    decreases s.len() - i,
{
    if i < s.len() && s[i] != '\n' {
        lemma_first_newline_bounds(s, i + 1);
    }
}

/// The lines of `text`, as `lines_of` says.
pub fn text_lines(text: &str) -> (r: Vec<String>)
    ensures
        r@.map_values(|x: String| x@) == lines_of(text@),
{
    let s = chars_of(text);
    let n = s.len();
    let mut out: Vec<String> = Vec::new();
    let mut p: usize = 0;
    proof {
        assert(s@.subrange(0, n as int) =~= s@);
    }
    while p < n
        invariant
            n == s@.len(),
            s@ == text@,
            p <= n,
            lines_of(s@) == out@.map_values(|x: String| x@) + lines_of(s@.subrange(p as int, n as int)),
        decreases n - p,
    {
        let ghost t = s@.subrange(p as int, n as int);
        let mut k: usize = p;
        while k < n && s[k] != '\n'
            invariant
                p <= k <= n,
                n == s@.len(),
                first_newline(s@, p as int) == first_newline(s@, k as int),
            decreases n - k,
        {
            k += 1;
        }
        proof {
            lemma_first_newline_shift(s@, p as int, 0);
            assert(first_newline(t, 0) == k - p);
        }
        let mut end = k;
        if k < n && end > p && s[end - 1] == '\r' {
            end = end - 1;
        }
        let line = string_of(vstd::slice::slice_subrange(s.as_slice(), p, end));
        let ghost before = out@.map_values(|x: String| x@);
        out.push(line);
        let next = if k < n {
            k + 1
        } else {
            n
        };
        proof {
            let raw = t.subrange(0, k - p);
            assert(raw =~= s@.subrange(p as int, k as int));
            if k < n {
                assert(t.subrange(k - p + 1, t.len() as int) =~= s@.subrange(next as int, n as int));
            } else {
                assert(s@.subrange(next as int, n as int) =~= Seq::<char>::empty());
            }
            if k < n && k > p && s@[k - 1] == '\r' {
                assert(raw.drop_last() =~= s@.subrange(p as int, end as int));
            } else {
                assert(raw =~= s@.subrange(p as int, end as int));
            }
            assert(out@.map_values(|x: String| x@) =~= before.push(line@));
            assert(before.push(line@) + lines_of(s@.subrange(next as int, n as int)) =~= before + (seq![line@]
                + lines_of(s@.subrange(next as int, n as int))));
        }
        p = next;
    }
    proof {
        assert(s@.subrange(n as int, n as int) =~= Seq::<char>::empty());
        assert(out@.map_values(|x: String| x@) + Seq::<Seq<char>>::empty() =~= out@.map_values(|x: String| x@));
    }
    out
}

/// Whether `line` ends in `.del`, and the name before it.
fn removal_of(line: &String) -> (r: Option<String>)
    ensures
        match r {
            Some(name) => line@.len() >= 4 && line@.subrange(line@.len() - 4, line@.len() as int) == ".del"@
                && name@ == line@.subrange(0, line@.len() - 4),
            None => !(line@.len() >= 4 && line@.subrange(line@.len() - 4, line@.len() as int) == ".del"@),
        },
{
    let cs = chars_of(line.as_str());
    let n = cs.len();
    proof {
        reveal_strlit(".del");
    }
    if n >= 4 && cs[n - 4] == '.' && cs[n - 3] == 'd' && cs[n - 2] == 'e' && cs[n - 1] == 'l' {
        proof {
            assert(line@.subrange(n - 4, n as int) =~= ".del"@);
        }
        Some(string_of(vstd::slice::slice_subrange(cs.as_slice(), 0, n - 4)))
    } else {
        proof {
            if n >= 4 && line@.subrange(n - 4, n as int) == ".del"@ {
                assert(line@.subrange(n - 4, n as int)[0] == '.');
                assert(line@.subrange(n - 4, n as int)[1] == 'd');
                assert(line@.subrange(n - 4, n as int)[2] == 'e');
                assert(line@.subrange(n - 4, n as int)[3] == 'l');
            }
        }
        None
    }
}

/// The segments listed by the manifest text `text`, in order.
pub fn live_segments(text: &str) -> (r: Vec<String>)
    ensures
        r@.map_values(|x: String| x@) == replay(lines_of(text@)),
{
    let lines = text_lines(text);
    let ghost ls = lines@.map_values(|x: String| x@);
    let mut live: Vec<String> = Vec::new();
    let mut i: usize = 0;
    while i < lines.len()
        invariant
            i <= lines@.len(),
            ls == lines@.map_values(|x: String| x@),
            live@.map_values(|x: String| x@) == replay(ls.take(i as int)),
        decreases lines@.len() - i,
    {
        proof {
            assert(ls.take(i + 1).drop_last() =~= ls.take(i as int));
            assert(ls.take(i + 1).last() == lines@[i as int]@);
        }
        match removal_of(&lines[i]) {
            Some(name) => {
                let ghost before = live@.map_values(|x: String| x@);
                let mut kept: Vec<String> = Vec::new();
                let mut j: usize = 0;
                while j < live.len()
                    invariant
                        j <= live@.len(),
                        before == live@.map_values(|x: String| x@),
                        kept@.map_values(|x: String| x@) == before.take(j as int).filter(|n: Seq<char>| n != name@),
                    decreases live@.len() - j,
                {
                    proof {
                        reveal_with_fuel(Seq::<_>::filter, 1);
                        assert(before.take(j + 1).drop_last() =~= before.take(j as int));
                    }
                    if !text_eq(live[j].as_str(), name.as_str()) {
                        let ghost k0 = kept@.map_values(|x: String| x@);
                        kept.push(live[j].clone());
                        proof {
                            assert(kept@.map_values(|x: String| x@) =~= k0.push(live@[j as int]@));
                        }
                    }
                    j += 1;
                }
                proof {
                    assert(before.take(live@.len() as int) =~= before);
                }
                live = kept;
            },
            None => {
                let ghost before = live@.map_values(|x: String| x@);
                live.push(lines[i].clone());
                proof {
                    assert(live@.map_values(|x: String| x@) =~= before.push(lines@[i as int]@));
                }
            },
        }
        i += 1;
    }
    proof {
        assert(ls.take(lines@.len() as int) =~= ls);
    }
    live
}

/// The manifest text that lists `names`, one per line.
pub fn manifest_text(names: &[String]) -> (r: String)
    ensures
        r@ == names_text(names@.map_values(|x: String| x@)),
{
    let mut out = String::new();
    let mut i: usize = 0;
    while i < names.len()
        invariant
            i <= names@.len(),
            out@ == names_text(names@.map_values(|x: String| x@).take(i as int)),
        decreases names@.len() - i,
    {
        proof {
            let ns = names@.map_values(|x: String| x@);
            assert(ns.take(i + 1).drop_last() =~= ns.take(i as int));
        }
        crate::text::push_text(&mut out, names[i].as_str());
        crate::text::push_char(&mut out, '\n');
        i += 1;
    }
    proof {
        assert(names@.map_values(|x: String| x@).take(names@.len() as int) =~= names@.map_values(|x: String| x@));
    }
    out
}

/// The names `ns`, each followed by a line break.
pub open spec fn names_text(ns: Seq<Seq<char>>) -> Seq<char>
    decreases ns.len(),
{
    if ns.len() == 0 {
        Seq::empty()
    } else {
        names_text(ns.drop_last()) + ns.last() + seq!['\n']
    }
}

/// A segment listed by the last line is live; once a later line removes it, it is not, and every
/// other live segment stays live.
pub proof fn lemma_append_then_remove(ls: Seq<Seq<char>>, name: Seq<char>, other: Seq<char>)
    requires
        !(name.len() >= 4 && name.subrange(name.len() - 4, name.len() as int) == ".del"@),
        other != name,
    ensures
        replay(ls.push(name)).contains(name),
        !replay(ls.push(name + ".del"@)).contains(name),
        replay(ls).contains(other) ==> replay(ls.push(name + ".del"@)).contains(other),
{
    let pushed = ls.push(name);
    assert(pushed.drop_last() =~= ls);
    assert(replay(pushed) == replay(ls).push(name));
    assert(replay(pushed)[replay(ls).len() as int] == name);
    let line = name + ".del"@;
    reveal_strlit(".del");
    let removed = ls.push(line);
    assert(removed.drop_last() =~= ls);
    assert(line.subrange(line.len() - 4, line.len() as int) =~= ".del"@);
    assert(line.subrange(0, line.len() - 4) =~= name);
    let pred = |n: Seq<char>| n != name;
    assert(pred =~= (|n: Seq<char>| n != line.subrange(0, line.len() - 4)));
    assert(replay(removed) == replay(ls).filter(pred));
    if replay(removed).contains(name) {
        let k = choose|k: int| 0 <= k < replay(removed).len() && replay(removed)[k] == name;
        replay(ls).lemma_filter_pred(pred, k);
    }
    if replay(ls).contains(other) {
        let k = choose|k: int| 0 <= k < replay(ls).len() && replay(ls)[k] == other;
        replay(ls).lemma_filter_contains(pred, k);
    }
}

} // verus!
