//! A segment read from its bytes: checked once when it is opened, then looked up by term.
//! app/ maps the file and hands the bytes over.

use vstd::prelude::*;
use vstd::slice::slice_subrange;

use crate::disk::error::SegmentError;
use crate::disk::format::TermEntry;
use crate::disk::postings::{decode_postings, postings_decodable, read_posting_list, read_posting_list_into, Decoded};
use crate::disk::reader::{
    dictionary_parse, entry_views, footer_check, footer_of, header_check, read_dictionary, read_footer, validate_footer,
    validate_header, TermEntryV,
};
use crate::numbers::{lemma_text_less_irreflexive, text_less};
use crate::posting::item::{Posting, PostingV};
use crate::posting::list::{PostingList, PostingListV};
use crate::posting::spec::{merged_from, views};
use crate::text::chars_of;
use crate::types::XPathId;

verus! {

broadcast use vstd::string::group_string_axioms;

/// Texts that agree on their first `i` characters are ordered as what follows.
proof fn lemma_text_less_skip(a: Seq<char>, b: Seq<char>, i: int)
    requires
        0 <= i <= a.len(),
        i <= b.len(),
        a.subrange(0, i) == b.subrange(0, i),
    ensures
        text_less(a, b) == text_less(a.subrange(i, a.len() as int), b.subrange(i, b.len() as int)),
    decreases i,
{
    if i == 0 {
        assert(a.subrange(0, a.len() as int) =~= a);
        assert(b.subrange(0, b.len() as int) =~= b);
    } else {
        assert(a[0] == a.subrange(0, i)[0]);
        assert(b[0] == b.subrange(0, i)[0]);
        assert(a.drop_first().subrange(0, i - 1) =~= a.subrange(0, i).drop_first());
        assert(b.drop_first().subrange(0, i - 1) =~= b.subrange(0, i).drop_first());
        lemma_text_less_skip(a.drop_first(), b.drop_first(), i - 1);
        assert(a.drop_first().subrange(i - 1, a.len() - 1) =~= a.subrange(i, a.len() as int));
        assert(b.drop_first().subrange(i - 1, b.len() - 1) =~= b.subrange(i, b.len() as int));
    }
}

/// The order of texts is transitive.
pub proof fn lemma_text_less_transitive(a: Seq<char>, b: Seq<char>, c: Seq<char>)
    requires
        text_less(a, b),
        text_less(b, c),
    ensures
        text_less(a, c),
    decreases a.len(),
{
    if a.len() > 0 && b.len() > 0 && c.len() > 0 && a[0] == b[0] && b[0] == c[0] {
        lemma_text_less_transitive(a.drop_first(), b.drop_first(), c.drop_first());
    }
}

/// Two different texts are ordered one way or the other.
pub proof fn lemma_text_less_total(a: Seq<char>, b: Seq<char>)
    requires
        a != b,
    ensures
        text_less(a, b) || text_less(b, a),
    decreases a.len(),
{
    if a.len() > 0 && b.len() > 0 && a[0] == b[0] {
        if a.drop_first() == b.drop_first() {
            assert(a =~= seq![a[0]] + a.drop_first());
            assert(b =~= seq![b[0]] + b.drop_first());
        }
        lemma_text_less_total(a.drop_first(), b.drop_first());
    } else if a.len() == 0 && b.len() == 0 {
        assert(a =~= b);
    }
}

/// Whether `a` comes before `b` as `(xpath, term)` keys: by path, then by term.
pub open spec fn key_less(a: (XPathId, Seq<char>), b: (XPathId, Seq<char>)) -> bool {
    a.0 < b.0 || (a.0 == b.0 && text_less(a.1, b.1))
}

/// The key of a dictionary entry.
pub open spec fn entry_key(e: TermEntryV) -> (XPathId, Seq<char>) {
    (e.xpath, e.term)
}

/// The entries strictly increase by key, as the writer lays them out.
pub open spec fn dictionary_sorted(es: Seq<TermEntryV>) -> bool {
    forall|i: int, j: int| 0 <= i < j < es.len() ==> key_less(entry_key(es[i]), entry_key(es[j]))
}

proof fn lemma_key_less_facts(a: (XPathId, Seq<char>), b: (XPathId, Seq<char>), c: (XPathId, Seq<char>))
    ensures
        !key_less(a, a),
        key_less(a, b) && key_less(b, c) ==> key_less(a, c),
        a != b ==> key_less(a, b) || key_less(b, a),
{
    lemma_text_less_irreflexive(a.1);
    if key_less(a, b) && key_less(b, c) && a.0 == b.0 && b.0 == c.0 {
        lemma_text_less_transitive(a.1, b.1, c.1);
    }
    if a != b && a.0 == b.0 {
        lemma_text_less_total(a.1, b.1);
    }
}

/// Whether `a` comes before `b` in the order of texts.
pub fn text_before(a: &str, b: &str) -> (r: bool)
    ensures
        r == text_less(a@, b@),
{
    let x = chars_of(a);
    let y = chars_of(b);
    let mut i: usize = 0;
    while i < x.len() && i < y.len() && x[i] == y[i]
        invariant
            i <= x@.len(),
            i <= y@.len(),
            x@ == a@,
            y@ == b@,
            x@.subrange(0, i as int) == y@.subrange(0, i as int),
        decreases x@.len() - i,
    {
        proof {
            assert(x@.subrange(0, i + 1) =~= x@.subrange(0, i as int).push(x@[i as int]));
            assert(y@.subrange(0, i + 1) =~= y@.subrange(0, i as int).push(y@[i as int]));
        }
        i += 1;
    }
    proof {
        lemma_text_less_skip(x@, y@, i as int);
        let xs = x@.subrange(i as int, x@.len() as int);
        let ys = y@.subrange(i as int, y@.len() as int);
        if i < x.len() && i < y.len() {
            assert(xs[0] == x@[i as int] && ys[0] == y@[i as int]);
        }
    }
    if i == x.len() {
        i < y.len()
    } else if i == y.len() {
        false
    } else {
        x[i] < y[i]
    }
}

/// Whether the entry's key comes before `(xpath, term)`.
fn entry_before(e: &TermEntry, xpath: XPathId, term: &str) -> (r: bool)
    ensures
        r == key_less(entry_key(e@), (xpath, term@)),
{
    if e.xpath < xpath {
        true
    } else if e.xpath > xpath {
        false
    } else {
        text_before(e.term.as_str(), term)
    }
}

} // verus!

verus! {

/// What opening the bytes `s` as a segment gives: the dictionary, or the first check that fails.
pub open spec fn open_result(s: Seq<u8>) -> Result<Seq<TermEntryV>, SegmentError> {
    match header_check(s) {
        Err(e) => Err(e),
        Ok(()) => match footer_check(s, footer_of(s)) {
            Err(e) => Err(e),
            Ok(()) => dictionary_parse(s, footer_of(s)),
        },
    }
}

/// The posting bytes of the entry `e` in the segment `s`, where they lie inside it.
pub open spec fn blob(s: Seq<u8>, e: TermEntryV) -> Option<Seq<u8>> {
    let start = (e.postings_offset as usize) as int;
    let len = (e.postings_len as usize) as int;
    if start + len > usize::MAX || start + len > s.len() {
        None
    } else {
        Some(s.subrange(start, start + len))
    }
}

/// Whether the postings of `e` decode without a sum too large for its type.
pub open spec fn entry_decodable(s: Seq<u8>, e: TermEntryV) -> bool {
    blob(s, e) matches Some(b) ==> !(decode_postings(b, 0, e.doc_freq as nat, 0) is Overflowed)
}

/// The postings a lookup gives for `e`: none where its bytes lie outside the segment or do not
/// decode.
pub open spec fn entry_postings(s: Seq<u8>, e: TermEntryV) -> Seq<PostingV> {
    match blob(s, e) {
        None => Seq::empty(),
        Some(b) => match decode_postings(b, 0, e.doc_freq as nat, 0) {
            Decoded::Done(ps, _) => ps,
            _ => Seq::empty(),
        },
    }
}

/// The postings of the entries `es[start..end]` one after the other, as a prefix lookup
/// gathers them; `None` where one of them has bytes that do not decode.
pub open spec fn run_postings(s: Seq<u8>, es: Seq<TermEntryV>, start: int, end: int) -> Option<Seq<PostingV>>
    decreases end - start,
{
    if end <= start {
        Some(Seq::empty())
    } else {
        match run_postings(s, es, start, end - 1) {
            None => None,
            Some(a) => match blob(s, es[end - 1]) {
                None => Some(a),
                Some(b) => match decode_postings(b, 0, es[end - 1].doc_freq as nat, 0) {
                    Decoded::Done(ps, _) => Some(a + ps),
                    _ => None,
                },
            },
        }
    }
}

/// Whether the entry `e` is one a prefix lookup of `p` in `xpath` gathers.
pub open spec fn in_prefix_run(e: TermEntryV, xpath: XPathId, p: Seq<char>) -> bool {
    e.xpath == xpath && p.is_prefix_of(e.term)
}

/// A segment held in memory: its bytes and its dictionary.
pub struct DiskSegment {
    bytes: Vec<u8>,
    dictionary: Vec<TermEntry>,
}

impl DiskSegment {
    /// The bytes of the segment.
    pub closed spec fn data(&self) -> Seq<u8> {
        self.bytes@
    }

    /// The dictionary of the segment.
    pub closed spec fn entries(&self) -> Seq<TermEntryV> {
        entry_views(self.dictionary@)
    }

    /// Every entry's postings decode without a sum too large for its type.
    pub open spec fn decodable(&self) -> bool {
        forall|i: int| 0 <= i < self.entries().len() ==> entry_decodable(self.data(), #[trigger] self.entries()[i])
    }

    /// Checks the header and the footer of `bytes` and reads the dictionary; the postings are
    /// decoded only when looked up.
    pub fn open(bytes: Vec<u8>) -> (r: Result<Self, SegmentError>)
        ensures
            match open_result(bytes@) {
                Ok(es) => r matches Ok(s) && s.data() == bytes@ && s.entries() == es,
                Err(e) => r matches Err(x) && x == e,
            },
    {
        match validate_header(bytes.as_slice()) {
            Err(e) => {
                return Err(e);
            },
            Ok(()) => {},
        }
        let footer = match read_footer(bytes.as_slice()) {
            Ok(f) => f,
            Err(e) => {
                return Err(e);
            },
        };
        match validate_footer(bytes.as_slice(), &footer) {
            Err(e) => {
                return Err(e);
            },
            Ok(()) => {},
        }
        match read_dictionary(bytes.as_slice(), &footer) {
            Ok(dictionary) => Ok(DiskSegment { bytes, dictionary }),
            Err(e) => Err(e),
        }
    }

    /// The dictionary.
    pub fn dictionary(&self) -> (r: &[TermEntry])
        ensures
            entry_views(r@) == self.entries(),
    {
        self.dictionary.as_slice()
    }

    /// The posting bytes of entry `i`, where they lie inside the segment.
    fn blob_of(&self, i: usize) -> (r: Option<&[u8]>)
        requires
            i < self.entries().len(),
        ensures
            match blob(self.data(), self.entries()[i as int]) {
                Some(b) => r matches Some(x) && x@ == b,
                None => r is None,
            },
    {
        let e = &self.dictionary[i];
        proof {
            assert(e@ == self.entries()[i as int]);
        }
        let start = e.postings_offset as usize;
        let len = e.postings_len as usize;
        let end = match start.checked_add(len) {
            Some(end) => end,
            None => {
                return None;
            },
        };
        if end > self.bytes.len() {
            return None;
        }
        Some(slice_subrange(self.bytes.as_slice(), start, end))
    }

    /// Whether every entry's postings decode without a sum too large for its type; lookups
    /// need it.
    pub fn check_decodable(&self) -> (r: bool)
        ensures
            r == self.decodable(),
    {
        let mut i: usize = 0;
        while i < self.dictionary.len()
            invariant
                i <= self.entries().len(),
                self.entries().len() == self.dictionary@.len(),
                forall|k: int| 0 <= k < i ==> entry_decodable(self.data(), #[trigger] self.entries()[k]),
            decreases self.dictionary@.len() - i,
        {
            proof {
                assert(self.entries()[i as int] == self.dictionary@[i as int]@);
            }
            match self.blob_of(i) {
                Some(b) => {
                    if !postings_decodable(b, self.dictionary[i].doc_freq) {
                        return false;
                    }
                },
                None => {},
            }
            i += 1;
        }
        true
    }

    /// The postings of entry `i`, merged as `from_items` does; none where its bytes lie outside
    /// the segment or do not decode.
    pub fn read_postings(&self, i: usize) -> (r: PostingList)
        requires
            i < self.entries().len(),
            self.decodable(),
        ensures
            r.wf(),
            merged_from(entry_postings(self.data(), self.entries()[i as int]), r@.items),
    {
        proof {
            assert(self.entries()[i as int] == self.dictionary@[i as int]@);
            assert(entry_decodable(self.data(), self.entries()[i as int]));
        }
        match self.blob_of(i) {
            Some(b) => match read_posting_list(b, self.dictionary[i].doc_freq) {
                Ok(list) => list,
                Err(_) => empty_list(),
            },
            None => empty_list(),
        }
    }

    /// Appends the postings of entry `i` to `out`; nothing where its bytes lie outside the
    /// segment, and what decoded before the first format error where they do not decode.
    fn read_postings_into(&self, i: usize, out: &mut Vec<Posting>) -> (r: bool)
        requires
            i < self.entries().len(),
            self.decodable(),
        ensures
            r == (run_postings(self.data(), self.entries(), i as int, i + 1) is Some),
            run_postings(self.data(), self.entries(), i as int, i + 1) matches Some(ps) ==> views(final(out)@)
                == views(old(out)@) + ps,
            views(final(out)@).len() >= views(old(out)@).len(),
            views(final(out)@).subrange(0, views(old(out)@).len() as int) == views(old(out)@),
    {
        proof {
            assert(self.entries()[i as int] == self.dictionary@[i as int]@);
            assert(entry_decodable(self.data(), self.entries()[i as int]));
            assert(run_postings(self.data(), self.entries(), i as int, i as int) == Some(Seq::<PostingV>::empty()));
        }
        match self.blob_of(i) {
            Some(b) => match read_posting_list_into(b, self.dictionary[i].doc_freq, out) {
                Ok(()) => true,
                Err(_) => false,
            },
            None => {
                proof {
                    assert(views(out@) =~= views(out@) + Seq::<PostingV>::empty());
                    assert(views(out@).subrange(0, views(out@).len() as int) =~= views(out@));
                }
                true
            },
        }
    }

    /// Where `(xpath, term)` stands in the dictionary, found by halving: an entry with that key,
    /// or `None`, which in a dictionary sorted by key means that no entry has it.
    fn find(&self, xpath: XPathId, term: &str) -> (r: Option<usize>)
        ensures
            r matches Some(i) ==> i < self.entries().len() && entry_key(self.entries()[i as int]) == (xpath, term@),
            r is None && dictionary_sorted(self.entries()) ==> forall|i: int|
                0 <= i < self.entries().len() ==> entry_key(#[trigger] self.entries()[i]) != (xpath, term@),
    {
        let ghost es = self.entries();
        let ghost target = (xpath, term@);
        let mut lo: usize = 0;
        let mut hi: usize = self.dictionary.len();
        while lo < hi
            invariant
                es == self.entries(),
                es.len() == self.dictionary@.len(),
                target == (xpath, term@),
                lo <= hi <= es.len(),
                dictionary_sorted(es) ==> forall|i: int| 0 <= i < lo ==> key_less(entry_key(#[trigger] es[i]), target),
                dictionary_sorted(es) ==> forall|i: int| hi <= i < es.len() ==> key_less(target, entry_key(#[trigger] es[i])),
            decreases hi - lo,
        {
            let mid = lo + (hi - lo) / 2;
            let e = &self.dictionary[mid];
            proof {
                assert(e@ == es[mid as int]);
            }
            if entry_before(e, xpath, term) {
                proof {
                    if dictionary_sorted(es) {
                        assert forall|i: int| 0 <= i < mid + 1 implies key_less(entry_key(#[trigger] es[i]), target) by {
                            lemma_key_less_facts(entry_key(es[i]), entry_key(es[mid as int]), target);
                        }
                    }
                }
                lo = mid + 1;
            } else if e.xpath == xpath && crate::text::text_eq(e.term.as_str(), term) {
                return Some(mid);
            } else {
                proof {
                    lemma_key_less_facts(entry_key(es[mid as int]), target, target);
                    lemma_key_less_facts(target, entry_key(es[mid as int]), target);
                    if dictionary_sorted(es) {
                        assert forall|i: int| mid <= i < es.len() implies key_less(target, entry_key(#[trigger] es[i])) by {
                            if i > mid {
                                lemma_key_less_facts(target, entry_key(es[mid as int]), entry_key(es[i]));
                            }
                        }
                    }
                }
                hi = mid;
            }
        }
        proof {
            if dictionary_sorted(es) {
                assert forall|i: int| 0 <= i < es.len() implies entry_key(#[trigger] es[i]) != target by {
                    lemma_key_less_facts(target, target, target);
                }
            }
        }
        None
    }

    /// Whether `r` is what `lookup` may give for `term` in `xpath`, as its contract says.
    pub open spec fn term_found(&self, term: Seq<char>, xpath: XPathId, r: PostingListV) -> bool {
        &&& r.items.len() > 0 ==> exists|i: int|
            0 <= i < self.entries().len() && entry_key(self.entries()[i]) == (xpath, term) && merged_from(
                entry_postings(self.data(), #[trigger] self.entries()[i]),
                r.items,
            )
        &&& dictionary_sorted(self.entries()) ==> forall|i: int|
            0 <= i < self.entries().len() && entry_key(#[trigger] self.entries()[i]) == (xpath, term) ==> merged_from(
                entry_postings(self.data(), self.entries()[i]),
                r.items,
            )
        &&& (forall|i: int| 0 <= i < self.entries().len() ==> entry_key(#[trigger] self.entries()[i]) != (xpath, term))
            ==> r.items.len() == 0
    }

    /// Whether `r` is what `lookup_prefix` may give for `prefix` in `xpath`, as its contract
    /// says.
    pub open spec fn prefix_found(&self, prefix: Seq<char>, xpath: XPathId, r: PostingListV) -> bool {
        exists|start: int, end: int|
            #![trigger run_postings(self.data(), self.entries(), start, end)]
            0 <= start <= end <= self.entries().len()
            && (dictionary_sorted(self.entries()) ==> forall|i: int|
                0 <= i < self.entries().len() ==> (i < start <==> key_less(entry_key(#[trigger] self.entries()[i]), (xpath, prefix))))
            && (forall|i: int| start <= i < end ==> in_prefix_run(#[trigger] self.entries()[i], xpath, prefix))
            && (end == self.entries().len() || !in_prefix_run(self.entries()[end], xpath, prefix))
            && (run_postings(self.data(), self.entries(), start, end) matches Some(ps) ==> merged_from(ps, r.items))
    }

    /// The postings of `term` in `xpath`: those of an entry with that key, merged as
    /// `from_items` does; none where no entry has it.
    pub fn lookup(&self, term: &str, xpath: XPathId) -> (r: PostingList)
        requires
            self.decodable(),
        ensures
            r.wf(),
            self.term_found(term@, xpath, r@),
            r@.items.len() > 0 ==> exists|i: int|
                0 <= i < self.entries().len() && entry_key(self.entries()[i]) == (xpath, term@) && merged_from(
                    entry_postings(self.data(), #[trigger] self.entries()[i]),
                    r@.items,
                ),
            dictionary_sorted(self.entries()) ==> forall|i: int|
                0 <= i < self.entries().len() && entry_key(#[trigger] self.entries()[i]) == (xpath, term@) ==> merged_from(
                    entry_postings(self.data(), self.entries()[i]),
                    r@.items,
                ),
            (forall|i: int| 0 <= i < self.entries().len() ==> entry_key(#[trigger] self.entries()[i]) != (xpath, term@))
                ==> r@.items.len() == 0,
    {
        match self.find(xpath, term) {
            Some(i) => {
                let r = self.read_postings(i);
                proof {
                    if dictionary_sorted(self.entries()) {
                        assert forall|j: int|
                            0 <= j < self.entries().len() && entry_key(#[trigger] self.entries()[j]) == (xpath, term@)
                            implies merged_from(entry_postings(self.data(), self.entries()[j]), r@.items) by {
                            if j != i {
                                lemma_key_less_facts(entry_key(self.entries()[j]), entry_key(self.entries()[j]), entry_key(self.entries()[j]));
                                if j < i {
                                    assert(key_less(entry_key(self.entries()[j]), entry_key(self.entries()[i as int])));
                                } else {
                                    assert(key_less(entry_key(self.entries()[i as int]), entry_key(self.entries()[j])));
                                }
                            }
                        }
                    }
                }
                r
            },
            None => empty_list(),
        }
    }

    /// The first place whose key does not come before `(xpath, term)`, found by halving; in a
    /// sorted dictionary every entry before it comes before that key and none after it does.
    fn lower_bound(&self, xpath: XPathId, term: &str) -> (r: usize)
        ensures
            r <= self.entries().len(),
            dictionary_sorted(self.entries()) ==> forall|i: int|
                0 <= i < self.entries().len() ==> (i < r <==> key_less(entry_key(#[trigger] self.entries()[i]), (xpath, term@))),
    {
        let ghost es = self.entries();
        let ghost target = (xpath, term@);
        let mut lo: usize = 0;
        let mut hi: usize = self.dictionary.len();
        while lo < hi
            invariant
                es == self.entries(),
                es.len() == self.dictionary@.len(),
                target == (xpath, term@),
                lo <= hi <= es.len(),
                dictionary_sorted(es) ==> forall|i: int| 0 <= i < lo ==> key_less(entry_key(#[trigger] es[i]), target),
                dictionary_sorted(es) ==> forall|i: int| hi <= i < es.len() ==> !key_less(entry_key(#[trigger] es[i]), target),
            decreases hi - lo,
        {
            let mid = lo + (hi - lo) / 2;
            let e = &self.dictionary[mid];
            proof {
                assert(e@ == es[mid as int]);
            }
            if entry_before(e, xpath, term) {
                proof {
                    if dictionary_sorted(es) {
                        assert forall|i: int| 0 <= i < mid + 1 implies key_less(entry_key(#[trigger] es[i]), target) by {
                            lemma_key_less_facts(entry_key(es[i]), entry_key(es[mid as int]), target);
                        }
                    }
                }
                lo = mid + 1;
            } else {
                proof {
                    if dictionary_sorted(es) {
                        assert forall|i: int| mid <= i < es.len() implies !key_less(entry_key(#[trigger] es[i]), target) by {
                            if i > mid && key_less(entry_key(es[i]), target) {
                                lemma_key_less_facts(entry_key(es[mid as int]), entry_key(es[i]), target);
                            }
                        }
                    }
                }
                hi = mid;
            }
        }
        lo
    }

    /// The postings of every term in `xpath` that starts with `prefix`, merged as `from_items`
    /// does: those of the entries from the first whose key does not come before
    /// `(xpath, prefix)` up to the first that is not such a term.
    pub fn lookup_prefix(&self, prefix: &str, xpath: XPathId) -> (r: PostingList)
        requires
            self.decodable(),
        ensures
            r.wf(),
            self.prefix_found(prefix@, xpath, r@),
            exists|start: int, end: int|
                #![trigger run_postings(self.data(), self.entries(), start, end)]
                0 <= start <= end <= self.entries().len()
                && (dictionary_sorted(self.entries()) ==> forall|i: int|
                    0 <= i < self.entries().len() ==> (i < start <==> key_less(entry_key(#[trigger] self.entries()[i]), (xpath, prefix@))))
                && (forall|i: int| start <= i < end ==> in_prefix_run(#[trigger] self.entries()[i], xpath, prefix@))
                && (end == self.entries().len() || !in_prefix_run(self.entries()[end], xpath, prefix@))
                && (run_postings(self.data(), self.entries(), start, end) matches Some(ps) ==> merged_from(ps, r@.items)),
    {
        let ghost es = self.entries();
        let ghost s = self.data();
        let start = self.lower_bound(xpath, prefix);
        let pchars = chars_of(prefix);
        let mut items: Vec<Posting> = Vec::new();
        let mut i: usize = start;
        let mut intact = true;
        while i < self.dictionary.len()
            invariant_except_break
                es == self.entries(),
                s == self.data(),
                self.decodable(),
                pchars@ == prefix@,
                es.len() == self.dictionary@.len(),
                start <= i <= es.len(),
                forall|k: int| start <= k < i ==> in_prefix_run(#[trigger] es[k], xpath, prefix@),
                intact ==> run_postings(s, es, start as int, i as int) == Some(views(items@)),
                !intact ==> run_postings(s, es, start as int, i as int) is None,
            ensures
                es == self.entries(),
                s == self.data(),
                start <= i <= es.len(),
                forall|k: int| start <= k < i ==> in_prefix_run(#[trigger] es[k], xpath, prefix@),
                i == es.len() || !in_prefix_run(es[i as int], xpath, prefix@),
                intact ==> run_postings(s, es, start as int, i as int) == Some(views(items@)),
                !intact ==> run_postings(s, es, start as int, i as int) is None,
            decreases es.len() - i,
        {
            let e = &self.dictionary[i];
            proof {
                assert(e@ == es[i as int]);
            }
            if e.xpath != xpath || !starts_with_chars(e.term.as_str(), pchars.as_slice()) {
                break;
            }
            let ghost before = views(items@);
            let ok = self.read_postings_into(i, &mut items);
            proof {
                lemma_run_postings_step(s, es, start as int, i as int);
            }
            intact = intact && ok;
            i += 1;
        }
        let ghost gathered = views(items@);
        let r = PostingList::from_items(items);
        proof {
            let st = start as int;
            let en = i as int;
            match run_postings(s, es, st, en) {
                Some(ps) => {
                    assert(intact);
                    assert(ps == gathered);
                },
                None => {},
            }
            assert(run_postings(s, es, st, en) matches Some(ps) ==> merged_from(ps, r@.items));
        }
        r
    }
}

/// The empty list.
fn empty_list() -> (r: PostingList)
    ensures
        r.wf(),
        r@.items.len() == 0,
        forall|s: Seq<PostingV>| s.len() == 0 ==> merged_from(s, r@.items),
{
    let r = PostingList::new();
    proof {
        assert forall|s: Seq<PostingV>| s.len() == 0 implies merged_from(s, r@.items) by {
            assert forall|d: u64| crate::posting::spec::has_doc(r@.items, d) <==> crate::posting::spec::has_doc(s, d) by {}
        }
    }
    r
}

} // verus!

verus! {

/// Gathering the postings of one more entry: what came before, then that entry's.
proof fn lemma_run_postings_step(s: Seq<u8>, es: Seq<TermEntryV>, start: int, i: int)
    requires
        start <= i,
    ensures
        run_postings(s, es, start, i + 1) == match (run_postings(s, es, start, i), run_postings(s, es, i, i + 1)) {
            (Some(a), Some(p)) => Some(a + p),
            _ => None::<Seq<PostingV>>,
        },
{
    assert(run_postings(s, es, i, i) == Some(Seq::<PostingV>::empty()));
    match blob(s, es[i]) {
        Some(b) => match decode_postings(b, 0, es[i].doc_freq as nat, 0) {
            Decoded::Done(ps, _) => {
                assert(Seq::<PostingV>::empty() + ps =~= ps);
            },
            _ => {},
        },
        None => {
            match run_postings(s, es, start, i) {
                Some(a) => {
                    assert(a + Seq::<PostingV>::empty() =~= a);
                },
                None => {},
            }
        },
    }
}

/// Whether the characters `prefix` start `s`.
fn starts_with_chars(s: &str, prefix: &[char]) -> (r: bool)
    ensures
        r == prefix@.is_prefix_of(s@),
{
    let cs = chars_of(s);
    if prefix.len() > cs.len() {
        return false;
    }
    let mut i: usize = 0;
    while i < prefix.len()
        invariant
            i <= prefix@.len() <= cs@.len(),
            cs@ == s@,
            forall|k: int| 0 <= k < i ==> prefix@[k] == s@[k],
        decreases prefix@.len() - i,
    {
        if prefix[i] != cs[i] {
            return false;
        }
        i += 1;
    }
    assert(prefix@ =~= s@.subrange(0, prefix@.len() as int));
    true
}

} // verus!
