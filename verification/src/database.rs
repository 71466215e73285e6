//! Routing of documents to shards, and the plain values that requests and responses carry.

use std::hash::BuildHasher;
use std::time::Duration;
use vstd::prelude::*;

verus! {

/// The hash of `s` under std's `DefaultHasher` started from its default state.
pub uninterp spec fn default_hash(s: Seq<char>) -> u64;

/// `BuildHasher::hash_one` with `BuildHasherDefault<DefaultHasher>`: hashes `s` with a
/// `DefaultHasher` created by `DefaultHasher::new`, whose keys are fixed, so the same text
/// always gives the same hash.
#[verifier::external_body]
fn hash_text(s: &str) -> (r: u64)
    ensures
        r == default_hash(s@),
{
    std::hash::BuildHasherDefault::<std::collections::hash_map::DefaultHasher>::default().hash_one(s)
}

/// The shard that holds the document `external_id` among `num_shards` shards: its hash modulo
/// the number of shards, and 0 where there are none.
pub fn shard_for(external_id: &str, num_shards: u16) -> (r: u16)
    ensures
        num_shards == 0 ==> r == 0,
        num_shards > 0 ==> r == default_hash(external_id@) % (num_shards as u64),
        num_shards > 0 ==> r < num_shards,
{
    if num_shards == 0 {
        return 0;
    }
    let h = hash_text(external_id);
    (h % (num_shards as u64)) as u16
}

/// How many groups routing among `num_shards` shards makes: one per shard, and one where there
/// are none (everything then goes to shard 0).
pub open spec fn group_count(num_shards: u16) -> nat {
    if num_shards == 0 {
        1
    } else {
        num_shards as nat
    }
}

/// The shard of the text `s` among `num_shards` shards, as `shard_for` gives it.
pub open spec fn shard_of_text(s: Seq<char>, num_shards: u16) -> nat {
    if num_shards == 0 {
        0
    } else {
        (default_hash(s) % (num_shards as u64)) as nat
    }
}

/// The places in `ids`, in increasing order, of the ids that go to shard `shard`.
pub open spec fn places_for(ids: Seq<String>, num_shards: u16, shard: nat) -> Seq<usize>
    decreases ids.len(),
{
    if ids.len() == 0 {
        Seq::empty()
    } else {
        places_for(ids.drop_last(), num_shards, shard) + if shard_of_text(ids.last()@, num_shards) == shard {
            seq![(ids.len() - 1) as usize]
        } else {
            Seq::<usize>::empty()
        }
    }
}

/// The ids grouped by the shard that holds them: for each shard, the places in `ids` of the
/// ids that go to it, in order.
pub fn group_by_shard(ids: &[String], num_shards: u16) -> (r: Vec<Vec<usize>>)
    ensures
        r@.len() == group_count(num_shards),
        forall|s: int| 0 <= s < r@.len() ==> (#[trigger] r@[s])@ == places_for(ids@, num_shards, s as nat),
{
    let n: usize = if num_shards == 0 {
        1
    } else {
        num_shards as usize
    };
    let mut groups: Vec<Vec<usize>> = Vec::new();
    let mut k: usize = 0;
    while k < n
        invariant
            k <= n,
            n == group_count(num_shards),
            groups@.len() == k,
            forall|s: int| 0 <= s < k ==> (#[trigger] groups@[s])@ == Seq::<usize>::empty(),
        decreases n - k,
    {
        groups.push(Vec::new());
        k += 1;
    }
    proof {
        assert(ids@.take(0) =~= Seq::<String>::empty());
    }
    let mut i: usize = 0;
    while i < ids.len()
        invariant
            i <= ids@.len(),
            n == group_count(num_shards),
            groups@.len() == n,
            forall|s: int| 0 <= s < n ==> (#[trigger] groups@[s])@ == places_for(ids@.take(i as int), num_shards, s as nat),
        decreases ids@.len() - i,
    {
        let sh = shard_for(ids[i].as_str(), num_shards) as usize;
        assert(sh == shard_of_text(ids@[i as int]@, num_shards));
        assert(sh < n);
        let ghost before = groups@;
        groups[sh].push(i);
        proof {
            let t = ids@.take(i + 1);
            assert(t.drop_last() =~= ids@.take(i as int));
            assert(t.last() == ids@[i as int]);
            assert forall|s: int| 0 <= s < n implies (#[trigger] groups@[s])@ == places_for(t, num_shards, s as nat) by {
                if s == sh {
                    assert(groups@[s]@ =~= before[s]@.push(i));
                } else {
                    assert(groups@[s] == before[s]);
                    assert(places_for(t, num_shards, s as nat) =~= places_for(ids@.take(i as int), num_shards, s as nat));
                }
            }
        }
        i += 1;
    }
    proof {
        assert(ids@.take(ids@.len() as int) =~= ids@);
    }
    groups
}

/// Every id goes to exactly one group: its place is among the places of the shard that
/// holds it, and of no other.
pub proof fn lemma_each_id_in_one_group(ids: Seq<String>, num_shards: u16, i: int, shard: nat)
    requires
        0 <= i < ids.len(),
        ids.len() <= usize::MAX,
    ensures
        places_for(ids, num_shards, shard).contains(i as usize) <==> shard == shard_of_text(ids[i]@, num_shards),
    decreases ids.len(),
{
    let h = ids.drop_last();
    let head = places_for(h, num_shards, shard);
    lemma_places_below(h, num_shards, shard);
    let tail = if shard_of_text(ids.last()@, num_shards) == shard {
        seq![(ids.len() - 1) as usize]
    } else {
        Seq::<usize>::empty()
    };
    assert(places_for(ids, num_shards, shard) == head + tail);
    if i < ids.len() - 1 {
        lemma_each_id_in_one_group(h, num_shards, i, shard);
        assert(h[i] == ids[i]);
        if head.contains(i as usize) {
            let x = choose|x: int| 0 <= x < head.len() && head[x] == i as usize;
            assert((head + tail)[x] == i as usize);
        }
        if (head + tail).contains(i as usize) {
            let x = choose|x: int| 0 <= x < (head + tail).len() && (head + tail)[x] == i as usize;
            if x >= head.len() {
                assert(tail[x - head.len()] == (ids.len() - 1) as usize);
            } else {
                assert(head[x] == i as usize);
            }
        }
    } else {
        if (head + tail).contains(i as usize) {
            let x = choose|x: int| 0 <= x < (head + tail).len() && (head + tail)[x] == i as usize;
            if x < head.len() {
                assert(head[x] == i as usize);
                assert((head[x] as int) < h.len());
            }
        }
        if shard == shard_of_text(ids[i]@, num_shards) {
            assert((head + tail)[head.len() as int] == i as usize);
        }
    }
}

/// The places that routing gives are all below the number of ids.
proof fn lemma_places_below(ids: Seq<String>, num_shards: u16, shard: nat)
    requires
        ids.len() <= usize::MAX,
    ensures
        forall|x: int| 0 <= x < places_for(ids, num_shards, shard).len() ==> (#[trigger] places_for(ids, num_shards, shard)[x]) < ids.len(),
    decreases ids.len(),
{
    if ids.len() > 0 {
        let h = ids.drop_last();
        lemma_places_below(h, num_shards, shard);
        let head = places_for(h, num_shards, shard);
        let tail = if shard_of_text(ids.last()@, num_shards) == shard {
            seq![(ids.len() - 1) as usize]
        } else {
            Seq::<usize>::empty()
        };
        assert(places_for(ids, num_shards, shard) == head + tail);
        assert forall|x: int| 0 <= x < (head + tail).len() implies (#[trigger] (head + tail)[x]) < ids.len() by {
            if x < head.len() {
                assert((head + tail)[x] == head[x]);
            } else {
                assert((head + tail)[x] == tail[x - head.len()]);
            }
        }
    }
}

/// Whether a database serves requests.
#[derive(Debug, Clone, Copy, PartialEq, Eq, Structural)]
pub enum DatabaseState {
    Running,
    /// The index is being swapped for a rebuilt one.
    Swapping,
    Stopped,
}

/// The name of each state.
pub open spec fn state_name(s: DatabaseState) -> Seq<char> {
    match s {
        DatabaseState::Running => "running"@,
        DatabaseState::Swapping => "swapping"@,
        DatabaseState::Stopped => "stopped"@,
    }
}

impl DatabaseState {
    /// The name of the state.
    pub fn as_str(self) -> (r: &'static str)
        ensures
            r@ == state_name(self),
    {
        match self {
            DatabaseState::Running => "running",
            DatabaseState::Swapping => "swapping",
            DatabaseState::Stopped => "stopped",
        }
    }
}

/// A request for the documents with these ids.
#[derive(Debug, Clone)]
pub struct RetrieveCommand {
    pub ids: Vec<String>,
}

/// A request to delete the documents with these ids.
#[derive(Debug, Clone)]
pub struct DeleteCommand {
    pub ids: Vec<String>,
}

/// The token handed out at login.
#[derive(Debug, Clone)]
pub struct LoginResponse {
    pub token: String,
}

/// The documents found for a retrieve request, the ids not found, and the ids skipped.
#[derive(Debug, Clone)]
pub struct RetrieveResponse {
    documents: Vec<Vec<u8>>,
    not_found: Vec<String>,
    skipped: Vec<String>,
}

impl RetrieveResponse {
    /// The stored bytes of each document found.
    pub closed spec fn document_bytes(&self) -> Seq<Vec<u8>> {
        self.documents@
    }

    /// The ids that were not found.
    pub closed spec fn not_found_ids(&self) -> Seq<String> {
        self.not_found@
    }

    /// The ids that were skipped.
    pub closed spec fn skipped_ids(&self) -> Seq<String> {
        self.skipped@
    }

    /// The response with these parts.
    pub fn new(documents: Vec<Vec<u8>>, not_found: Vec<String>, skipped: Vec<String>) -> (r: Self)
        ensures
            r.document_bytes() == documents@,
            r.not_found_ids() == not_found@,
            r.skipped_ids() == skipped@,
    {
        RetrieveResponse { documents, not_found, skipped }
    }

    /// The stored bytes of each document found.
    pub fn documents(&self) -> (r: &Vec<Vec<u8>>)
        ensures
            r@ == self.document_bytes(),
    {
        &self.documents
    }

    /// The ids that were not found.
    pub fn not_found(&self) -> (r: &Vec<String>)
        ensures
            r@ == self.not_found_ids(),
    {
        &self.not_found
    }

    /// The ids that were skipped.
    pub fn skipped(&self) -> (r: &Vec<String>)
        ensures
            r@ == self.skipped_ids(),
    {
        &self.skipped
    }
}

/// The duration `d` divided by `n`, as `Duration / u32` computes it (truncated to whole
/// nanoseconds).
pub uninterp spec fn duration_quotient(d: Duration, n: u32) -> Duration;

/// `Duration / u32`: the duration divided by `n`, which must not be 0 (the division panics
/// there). The quotient is named, not stated.
#[verifier::external_body]
fn duration_div(d: Duration, n: u32) -> (r: Duration)
    requires
        n != 0,
    ensures
        r == duration_quotient(d, n),
{
    d / n
}

/// Counts and total times of the requests a database served.
#[derive(Debug)]
pub struct DatabaseMetrics {
    pub search_requests: u64,
    pub search_errors: u64,
    pub search_total_time: Duration,
    pub indexing_requests: u64,
    pub indexing_errors: u64,
    pub indexing_total_time: Duration,
    pub reindex_requests: u64,
    pub reindex_errors: u64,
    pub reindex_total_time: Duration,
}

impl DatabaseMetrics {
    /// The mean time of a search: the total over the count taken as a `u32`; `None` where no
    /// search was served. The count taken as a `u32` may not be 0.
    pub fn average_search_time(&self) -> (r: Option<Duration>)
        requires
            self.search_requests != 0 ==> self.search_requests as u32 != 0,
        ensures
            r is None <==> self.search_requests == 0,
            self.search_requests != 0 ==> r == Some(duration_quotient(self.search_total_time, self.search_requests as u32)),
    {
        if self.search_requests == 0 {
            return None;
        }
        Some(duration_div(self.search_total_time, self.search_requests as u32))
    }

    /// The mean time of an indexing request, as `average_search_time` has it.
    pub fn average_indexing_time(&self) -> (r: Option<Duration>)
        requires
            self.indexing_requests != 0 ==> self.indexing_requests as u32 != 0,
        ensures
            r is None <==> self.indexing_requests == 0,
            self.indexing_requests != 0 ==> r == Some(
                duration_quotient(self.indexing_total_time, self.indexing_requests as u32),
            ),
    {
        if self.indexing_requests == 0 {
            return None;
        }
        Some(duration_div(self.indexing_total_time, self.indexing_requests as u32))
    }
}

/// Which of `len` ranked hits a search answers with, skipping `offset` and taking `limit`:
/// the hits from `offset` up to the first `offset + limit` (at most `usize::MAX`), or `None`
/// where that leaves nothing, also when `offset + limit` is 0.
pub fn page_bounds(len: usize, offset: usize, limit: usize) -> (r: Option<(usize, usize)>)
    ensures
        ({
            let fetch = if offset + limit > usize::MAX { usize::MAX as int } else { offset + limit };
            let end = if len < fetch { len as int } else { fetch };
            match r {
                Some((a, b)) => a == offset && b == end && a < b,
                None => offset >= end,
            }
        }),
{
    let fetch = offset.saturating_add(limit);
    if fetch == 0 {
        return None;
    }
    let end = if len < fetch {
        len
    } else {
        fetch
    };
    if offset >= end {
        return None;
    }
    Some((offset, end))
}

} // verus!
