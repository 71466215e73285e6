//! The decisions of an index's worker: what each finished command does to its counts, and
//! when the index's snapshot is published to readers. The worker loop, which runs the
//! commands and publishes, performs what these decisions say.

use vstd::prelude::*;

verus! {

/// Documents added since the last publish after which the snapshot is published.
pub const PUBLISH_DOC_THRESHOLD: u64 = 100;

/// What the worker has done so far.
#[derive(Debug, Clone, Copy, PartialEq, Eq, Structural)]
pub struct IndexingStats {
    pub total_documents_indexed: u64,
    pub total_documents_deleted: u64,
    pub segments_written: u64,
    pub compactions_completed: u64,
    pub memtable_term_count: usize,
    pub segment_count: usize,
}

impl IndexingStats {
    /// Nothing done yet.
    pub fn new() -> (r: Self)
        ensures
            r == (IndexingStats {
                total_documents_indexed: 0,
                total_documents_deleted: 0,
                segments_written: 0,
                compactions_completed: 0,
                memtable_term_count: 0,
                segment_count: 0,
            }),
    {
        IndexingStats {
            total_documents_indexed: 0,
            total_documents_deleted: 0,
            segments_written: 0,
            compactions_completed: 0,
            memtable_term_count: 0,
            segment_count: 0,
        }
    }
}

/// The worker's state: the documents added since the last publish, and its counts.
#[derive(Debug, Clone, Copy, PartialEq, Eq, Structural)]
pub struct IndexWorkerState {
    pub docs_since_publish: u64,
    pub stats: IndexingStats,
}

/// What just happened in the worker loop.
#[derive(Debug, Clone, Copy, PartialEq, Eq, Structural)]
pub enum IndexEvent {
    /// A document was added, successfully or not.
    DocumentAdded { ok: bool },
    /// A document was deleted, successfully or not.
    DocumentDeleted { ok: bool },
    /// A ready segment of `doc_count` documents was added, successfully or not.
    SegmentAdded { ok: bool, doc_count: u64 },
    /// A compaction finished; `installed` where its result replaced its inputs.
    CompactionInstalled { installed: bool },
    /// The memory table was flushed, successfully or not.
    Flushed { ok: bool },
    /// No command came within the publish interval.
    Timeout,
    /// The counts were asked for, with the index's current segment and term counts.
    StatsAsked { segment_count: usize, memtable_term_count: usize },
}

/// Documents added since the last publish, then the publish where they reach the threshold.
pub open spec fn after_adding(s: IndexWorkerState, stats: IndexingStats, n: u64) -> (IndexWorkerState, bool) {
    let d = (s.docs_since_publish + n) as u64;
    if d >= PUBLISH_DOC_THRESHOLD {
        (IndexWorkerState { docs_since_publish: 0, stats }, true)
    } else {
        (IndexWorkerState { docs_since_publish: d, stats }, false)
    }
}

/// A publish: the count of documents since the last one starts again.
pub open spec fn published(stats: IndexingStats) -> (IndexWorkerState, bool) {
    (IndexWorkerState { docs_since_publish: 0, stats }, true)
}

/// The state after `e`, and whether the snapshot is published now: a successful add counts
/// its documents and publishes once 100 have come since the last publish; a successful
/// delete or flush and an installed compaction publish at once; a timeout publishes where
/// documents came since the last publish; a failed command changes nothing.
pub open spec fn index_next(s: IndexWorkerState, e: IndexEvent) -> (IndexWorkerState, bool) {
    let st = s.stats;
    match e {
        IndexEvent::DocumentAdded { ok } => if ok {
            after_adding(s, IndexingStats { total_documents_indexed: (st.total_documents_indexed + 1) as u64, ..st }, 1)
        } else {
            (s, false)
        },
        IndexEvent::DocumentDeleted { ok } => if ok {
            published(IndexingStats { total_documents_deleted: (st.total_documents_deleted + 1) as u64, ..st })
        } else {
            (s, false)
        },
        IndexEvent::SegmentAdded { ok, doc_count } => if ok {
            after_adding(
                s,
                IndexingStats {
                    segments_written: (st.segments_written + 1) as u64,
                    total_documents_indexed: (st.total_documents_indexed + doc_count) as u64,
                    ..st
                },
                doc_count,
            )
        } else {
            (s, false)
        },
        IndexEvent::CompactionInstalled { installed } => if installed {
            published(IndexingStats { compactions_completed: (st.compactions_completed + 1) as u64, ..st })
        } else {
            (s, false)
        },
        IndexEvent::Flushed { ok } => if ok {
            published(st)
        } else {
            (s, false)
        },
        IndexEvent::Timeout => if s.docs_since_publish > 0 {
            published(st)
        } else {
            (s, false)
        },
        IndexEvent::StatsAsked { segment_count, memtable_term_count } => (
            IndexWorkerState { stats: IndexingStats { segment_count, memtable_term_count, ..st }, ..s },
            false,
        ),
    }
}

/// Whether the counts that `e` raises stay within `u64`.
pub open spec fn step_fits(s: IndexWorkerState, e: IndexEvent) -> bool {
    let st = s.stats;
    match e {
        IndexEvent::DocumentAdded { ok } => ok ==> st.total_documents_indexed < u64::MAX && s.docs_since_publish
            < u64::MAX,
        IndexEvent::DocumentDeleted { ok } => ok ==> st.total_documents_deleted < u64::MAX,
        IndexEvent::SegmentAdded { ok, doc_count } => ok ==> st.segments_written < u64::MAX
            && st.total_documents_indexed + doc_count <= u64::MAX && s.docs_since_publish + doc_count <= u64::MAX,
        IndexEvent::CompactionInstalled { installed } => installed ==> st.compactions_completed < u64::MAX,
        _ => true,
    }
}

/// The worker's next state after `e`, and whether to publish the snapshot now, as
/// `index_next` says.
pub fn index_step(s: IndexWorkerState, e: IndexEvent) -> (r: (IndexWorkerState, bool))
    requires
        step_fits(s, e),
    ensures
        r == index_next(s, e),
{
    let st = s.stats;
    match e {
        IndexEvent::DocumentAdded { ok } => {
            if ok {
                let stats = IndexingStats { total_documents_indexed: st.total_documents_indexed + 1, ..st };
                add_docs(s, stats, 1)
            } else {
                (s, false)
            }
        },
        IndexEvent::DocumentDeleted { ok } => {
            if ok {
                let stats = IndexingStats { total_documents_deleted: st.total_documents_deleted + 1, ..st };
                (IndexWorkerState { docs_since_publish: 0, stats }, true)
            } else {
                (s, false)
            }
        },
        IndexEvent::SegmentAdded { ok, doc_count } => {
            if ok {
                let stats = IndexingStats {
                    segments_written: st.segments_written + 1,
                    total_documents_indexed: st.total_documents_indexed + doc_count,
                    ..st
                };
                add_docs(s, stats, doc_count)
            } else {
                (s, false)
            }
        },
        IndexEvent::CompactionInstalled { installed } => {
            if installed {
                let stats = IndexingStats { compactions_completed: st.compactions_completed + 1, ..st };
                (IndexWorkerState { docs_since_publish: 0, stats }, true)
            } else {
                (s, false)
            }
        },
        IndexEvent::Flushed { ok } => {
            if ok {
                (IndexWorkerState { docs_since_publish: 0, stats: st }, true)
            } else {
                (s, false)
            }
        },
        IndexEvent::Timeout => {
            if s.docs_since_publish > 0 {
                (IndexWorkerState { docs_since_publish: 0, stats: st }, true)
            } else {
                (s, false)
            }
        },
        IndexEvent::StatsAsked { segment_count, memtable_term_count } => {
            let stats = IndexingStats { segment_count, memtable_term_count, ..st };
            (IndexWorkerState { docs_since_publish: s.docs_since_publish, stats }, false)
        },
    }
}

/// Counts `n` more documents since the last publish, publishing at the threshold.
fn add_docs(s: IndexWorkerState, stats: IndexingStats, n: u64) -> (r: (IndexWorkerState, bool))
    requires
        s.docs_since_publish + n <= u64::MAX,
    ensures
        r == after_adding(s, stats, n),
{
    let d = s.docs_since_publish + n;
    if d >= PUBLISH_DOC_THRESHOLD {
        (IndexWorkerState { docs_since_publish: 0, stats }, true)
    } else {
        (IndexWorkerState { docs_since_publish: d, stats }, false)
    }
}

/// Between two publishes fewer than 100 added documents are held back: after any step the
/// count since the last publish is below the threshold where it was before.
pub proof fn lemma_publish_threshold(s: IndexWorkerState, e: IndexEvent)
    requires
        s.docs_since_publish < PUBLISH_DOC_THRESHOLD,
        e matches IndexEvent::SegmentAdded { doc_count, .. } ==> doc_count <= u64::MAX - s.docs_since_publish,
    ensures
        index_next(s, e).0.docs_since_publish < PUBLISH_DOC_THRESHOLD,
        index_next(s, e).1 ==> index_next(s, e).0.docs_since_publish == 0,
{
}

/// A successful flush, delete or installed compaction always publishes the snapshot, leaves
/// nothing waiting to be published, and a flush changes no count; a failed command publishes
/// nothing and changes nothing.
pub proof fn lemma_flush_and_failures(s: IndexWorkerState, n: u64)
    ensures
        index_next(s, IndexEvent::Flushed { ok: true }).1,
        index_next(s, IndexEvent::Flushed { ok: true }).0.docs_since_publish == 0,
        index_next(s, IndexEvent::Flushed { ok: true }).0.stats == s.stats,
        index_next(s, IndexEvent::DocumentDeleted { ok: true }).1,
        index_next(s, IndexEvent::DocumentDeleted { ok: true }).0.docs_since_publish == 0,
        index_next(s, IndexEvent::CompactionInstalled { installed: true }).1,
        index_next(s, IndexEvent::CompactionInstalled { installed: true }).0.docs_since_publish == 0,
        index_next(s, IndexEvent::Flushed { ok: false }) == (s, false),
        index_next(s, IndexEvent::DocumentAdded { ok: false }) == (s, false),
        index_next(s, IndexEvent::DocumentDeleted { ok: false }) == (s, false),
        index_next(s, IndexEvent::SegmentAdded { ok: false, doc_count: n }) == (s, false),
        index_next(s, IndexEvent::CompactionInstalled { installed: false }) == (s, false),
{
}

/// Every publish empties the count of waiting documents, and a step that does not publish
/// never lowers it: documents are only forgotten by publishing them.
pub proof fn lemma_publish_resets(s: IndexWorkerState, e: IndexEvent)
    requires
        step_fits(s, e),
    ensures
        index_next(s, e).1 ==> index_next(s, e).0.docs_since_publish == 0,
        !index_next(s, e).1 ==> index_next(s, e).0.docs_since_publish >= s.docs_since_publish,
{
}

/// What each kind of step counts: an added document or segment raises the indexed count by
/// its documents and publishes once 100 are waiting, counting them as waiting otherwise; a
/// delete and a compaction raise their own counts; a timeout publishes just when documents
/// are waiting; asking for the counts records the index's and publishes nothing.
pub proof fn lemma_step_counts(s: IndexWorkerState, n: u64, segs: usize, terms: usize)
    requires
        s.stats.total_documents_indexed + n + 1 <= u64::MAX,
        s.docs_since_publish + n + 1 <= u64::MAX,
        s.stats.total_documents_deleted < u64::MAX,
        s.stats.segments_written < u64::MAX,
        s.stats.compactions_completed < u64::MAX,
    ensures
        index_next(s, IndexEvent::DocumentAdded { ok: true }).0.stats.total_documents_indexed
            == s.stats.total_documents_indexed + 1,
        index_next(s, IndexEvent::DocumentAdded { ok: true }).1 <==> s.docs_since_publish + 1 >= 100,
        !index_next(s, IndexEvent::DocumentAdded { ok: true }).1 ==> index_next(
            s,
            IndexEvent::DocumentAdded { ok: true },
        ).0.docs_since_publish == s.docs_since_publish + 1,
        index_next(s, IndexEvent::SegmentAdded { ok: true, doc_count: n }).0.stats.total_documents_indexed
            == s.stats.total_documents_indexed + n,
        index_next(s, IndexEvent::SegmentAdded { ok: true, doc_count: n }).0.stats.segments_written
            == s.stats.segments_written + 1,
        index_next(s, IndexEvent::SegmentAdded { ok: true, doc_count: n }).1 <==> s.docs_since_publish + n >= 100,
        !index_next(s, IndexEvent::SegmentAdded { ok: true, doc_count: n }).1 ==> index_next(
            s,
            IndexEvent::SegmentAdded { ok: true, doc_count: n },
        ).0.docs_since_publish == s.docs_since_publish + n,
        index_next(s, IndexEvent::DocumentDeleted { ok: true }).0.stats.total_documents_deleted
            == s.stats.total_documents_deleted + 1,
        index_next(s, IndexEvent::DocumentDeleted { ok: true }).0.stats.total_documents_indexed
            == s.stats.total_documents_indexed,
        index_next(s, IndexEvent::CompactionInstalled { installed: true }).0.stats.compactions_completed
            == s.stats.compactions_completed + 1,
        index_next(s, IndexEvent::Timeout).1 <==> s.docs_since_publish > 0,
        index_next(s, IndexEvent::Timeout).0.docs_since_publish == 0,
        index_next(s, IndexEvent::Timeout).0.stats == s.stats,
        !index_next(s, IndexEvent::StatsAsked { segment_count: segs, memtable_term_count: terms }).1,
        index_next(s, IndexEvent::StatsAsked { segment_count: segs, memtable_term_count: terms }).0.docs_since_publish
            == s.docs_since_publish,
        index_next(s, IndexEvent::StatsAsked { segment_count: segs, memtable_term_count: terms }).0.stats.segment_count
            == segs,
        index_next(s, IndexEvent::StatsAsked { segment_count: segs, memtable_term_count: terms }).0.stats.memtable_term_count
            == terms,
        index_next(s, IndexEvent::StatsAsked { segment_count: segs, memtable_term_count: terms }).0.stats.total_documents_indexed
            == s.stats.total_documents_indexed,
{
}

} // verus!
