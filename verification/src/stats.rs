//! What a database counts of the requests it serves, what its shards report of themselves, and
//! how the shards of one backup settle its phase: the last shard to finish decides whether it
//! completed or failed.

use vstd::prelude::*;

use crate::backup::progress::{phase_code, BackupPhase, BackupProgress};
use crate::reindex::{phase_number, phase_of, phase_running, Phase, ReindexProgress};

verus! {

/// Counts of requests and the nanoseconds they took, wrapping as atomic counters do.
#[derive(Debug, Clone, Copy, Default)]
pub struct RequestCounters {
    pub search_requests: u64,
    pub search_errors: u64,
    pub search_nanos: u64,
    pub indexing_requests: u64,
    pub indexing_errors: u64,
    pub indexing_nanos: u64,
    pub reindex_requests: u64,
    pub reindex_errors: u64,
    pub reindex_nanos: u64,
}

/// What one shard last reported of itself.
#[derive(Debug, Clone, Copy, Default)]
pub struct ShardGauges {
    pub documents: usize,
    pub segments: usize,
    pub memtable_terms: usize,
    pub compaction_enabled: bool,
    pub documents_indexed: u64,
    pub documents_deleted: u64,
    pub segments_written: u64,
    pub compactions_completed: u64,
}

/// The sums over all shards of what they reported.
#[derive(Debug, Clone, Copy)]
pub struct ShardTotals {
    pub documents: usize,
    pub segments: usize,
    pub memtable_terms: usize,
    pub compaction_enabled: bool,
    pub documents_indexed: u64,
    pub documents_deleted: u64,
    pub segments_written: u64,
    pub compactions_completed: u64,
}

/// `(a + b) mod 2^64`.
pub open spec fn wrap64(a: u64, b: int) -> u64 {
    ((a + b) % 0x1_0000_0000_0000_0000) as u64
}

/// The sum of `f` over the first `n` gauges.
pub open spec fn gauge_sum(g: Seq<ShardGauges>, n: int, f: spec_fn(ShardGauges) -> int) -> int
    decreases n,
{
    if n <= 0 {
        0
    } else {
        gauge_sum(g, n - 1, f) + f(g[n - 1])
    }
}

/// Whether any of the first `n` gauges has compaction on.
pub open spec fn any_compaction(g: Seq<ShardGauges>, n: int) -> bool {
    exists|i: int| 0 <= i < n && g[i].compaction_enabled
}

/// The counters, gauges and backup state of a database.
pub struct DbStats {
    pub counters: RequestCounters,
    pub shards: Vec<ShardGauges>,
    pub reindex: ReindexProgress,
    pub reindex_outstanding: usize,
    pub reindex_failed: bool,
    pub backup: BackupProgress,
    pub backup_outstanding: usize,
    pub backup_failed: bool,
    pub restore: BackupProgress,
}

impl DbStats {
    /// Zero counts, one empty gauge per shard, and no backup or restore under way.
    pub fn new(shard_count: usize) -> (r: Self)
        ensures
            r.shards@.len() == shard_count,
            r.backup.phase_value() == 0,
            r.restore.phase_value() == 0,
            r.backup_outstanding == 0,
            !r.backup_failed,
            phase_of(r.reindex.phase) == Phase::Idle,
            r.reindex_outstanding == 0,
            !r.reindex_failed,
            r.counters.search_requests == 0 && r.counters.indexing_requests == 0 && r.counters.reindex_requests == 0,
    {
        let mut shards: Vec<ShardGauges> = Vec::new();
        let mut i: usize = 0;
        while i < shard_count
            invariant
                i <= shard_count,
                shards@.len() == i,
            decreases shard_count - i,
        {
            shards.push(
                ShardGauges {
                    documents: 0,
                    segments: 0,
                    memtable_terms: 0,
                    compaction_enabled: false,
                    documents_indexed: 0,
                    documents_deleted: 0,
                    segments_written: 0,
                    compactions_completed: 0,
                },
            );
            i += 1;
        }
        DbStats {
            counters: RequestCounters {
                search_requests: 0,
                search_errors: 0,
                search_nanos: 0,
                indexing_requests: 0,
                indexing_errors: 0,
                indexing_nanos: 0,
                reindex_requests: 0,
                reindex_errors: 0,
                reindex_nanos: 0,
            },
            shards,
            reindex: ReindexProgress::new(),
            reindex_outstanding: 0,
            reindex_failed: false,
            backup: BackupProgress::new(),
            backup_outstanding: 0,
            backup_failed: false,
            restore: BackupProgress::new(),
        }
    }

    /// Counts one search that took `elapsed_nanos` (cut to 64 bits), and an error if it
    /// failed.
    pub fn record_search(&mut self, failed: bool, elapsed_nanos: u128)
        ensures
            final(self).counters.search_requests == wrap64(old(self).counters.search_requests, 1),
            final(self).counters.search_nanos == wrap64(
                old(self).counters.search_nanos,
                (elapsed_nanos % 0x1_0000_0000_0000_0000) as int,
            ),
            final(self).counters.search_errors == if failed {
                wrap64(old(self).counters.search_errors, 1)
            } else {
                old(self).counters.search_errors
            },
            final(self).counters.indexing_requests == old(self).counters.indexing_requests,
            final(self).shards == old(self).shards,
    {
        let nanos = (elapsed_nanos % 0x1_0000_0000_0000_0000u128) as u64;
        self.counters.search_requests = self.counters.search_requests.wrapping_add(1);
        self.counters.search_nanos = self.counters.search_nanos.wrapping_add(nanos);
        if failed {
            self.counters.search_errors = self.counters.search_errors.wrapping_add(1);
        }
    }

    /// Counts one indexing request that took `elapsed_nanos` (cut to 64 bits), and an error if
    /// it failed.
    pub fn record_indexing(&mut self, failed: bool, elapsed_nanos: u128)
        ensures
            final(self).counters.indexing_requests == wrap64(old(self).counters.indexing_requests, 1),
            final(self).counters.indexing_nanos == wrap64(
                old(self).counters.indexing_nanos,
                (elapsed_nanos % 0x1_0000_0000_0000_0000) as int,
            ),
            final(self).counters.indexing_errors == if failed {
                wrap64(old(self).counters.indexing_errors, 1)
            } else {
                old(self).counters.indexing_errors
            },
            final(self).counters.search_requests == old(self).counters.search_requests,
            final(self).shards == old(self).shards,
    {
        let nanos = (elapsed_nanos % 0x1_0000_0000_0000_0000u128) as u64;
        self.counters.indexing_requests = self.counters.indexing_requests.wrapping_add(1);
        self.counters.indexing_nanos = self.counters.indexing_nanos.wrapping_add(nanos);
        if failed {
            self.counters.indexing_errors = self.counters.indexing_errors.wrapping_add(1);
        }
    }

    /// Starts a reindex over `shard_count` shards unless one is under way, and counts the
    /// request; says whether it started.
    pub fn begin_reindex(&mut self, shard_count: usize) -> (r: bool)
        ensures
            r == !phase_running(phase_of(old(self).reindex.phase)),
            r ==> phase_of(final(self).reindex.phase) == Phase::Reindexing && final(self).reindex.total == 0
                && final(self).reindex_outstanding == shard_count && !final(self).reindex_failed
                && final(self).counters.reindex_requests == wrap64(old(self).counters.reindex_requests, 1),
            !r ==> final(self).reindex == old(self).reindex && final(self).reindex_outstanding
                == old(self).reindex_outstanding && final(self).counters.reindex_requests
                == old(self).counters.reindex_requests,
    {
        if !self.reindex.try_begin(0) {
            return false;
        }
        self.reindex_failed = false;
        self.reindex_outstanding = shard_count;
        self.counters.reindex_requests = self.counters.reindex_requests.wrapping_add(1);
        true
    }

    /// Adds the documents of one more shard to the reindex total.
    pub fn add_reindex_total(&mut self, documents: u64)
        ensures
            final(self).reindex.total == wrap64(old(self).reindex.total, documents as int),
            final(self).reindex.phase == old(self).reindex.phase,
    {
        self.reindex.grow_total(documents);
    }

    /// One shard finished its part of the reindex after `elapsed_nanos` (cut to 64 bits), with
    /// `ok` telling whether it succeeded. The last shard settles the phase: back to idle if the
    /// reindex was cancelled, else complete if every shard succeeded and failed otherwise.
    pub fn finish_shard_reindex(&mut self, ok: bool, elapsed_nanos: u128)
        ensures
            final(self).counters.reindex_nanos == wrap64(
                old(self).counters.reindex_nanos,
                (elapsed_nanos % 0x1_0000_0000_0000_0000) as int,
            ),
            final(self).counters.reindex_errors == if ok {
                old(self).counters.reindex_errors
            } else {
                wrap64(old(self).counters.reindex_errors, 1)
            },
            final(self).reindex_failed == (old(self).reindex_failed || !ok),
            final(self).reindex_outstanding == if old(self).reindex_outstanding == 0 {
                usize::MAX
            } else {
                (old(self).reindex_outstanding - 1) as usize
            },
            old(self).reindex_outstanding == 1 && old(self).reindex.cancel ==> phase_of(final(self).reindex.phase)
                == Phase::Idle,
            old(self).reindex_outstanding == 1 && !old(self).reindex.cancel ==> final(self).reindex.phase
                == phase_number(if final(self).reindex_failed { Phase::Failed } else { Phase::Complete }),
            old(self).reindex_outstanding != 1 ==> final(self).reindex == old(self).reindex,
    {
        let nanos = (elapsed_nanos % 0x1_0000_0000_0000_0000u128) as u64;
        self.counters.reindex_nanos = self.counters.reindex_nanos.wrapping_add(nanos);
        if !ok {
            self.counters.reindex_errors = self.counters.reindex_errors.wrapping_add(1);
            self.reindex_failed = true;
        }
        let before = self.reindex_outstanding;
        self.reindex_outstanding = if before == 0 {
            usize::MAX
        } else {
            before - 1
        };
        if before == 1 {
            if self.reindex.is_cancelled() {
                self.reindex.reset();
            } else if self.reindex_failed {
                self.reindex.set_phase(Phase::Failed);
            } else {
                self.reindex.set_phase(Phase::Complete);
            }
        }
    }

    /// Starts a backup over `shard_count` shards unless one is running; says whether it
    /// started.
    pub fn begin_backup(&mut self, shard_count: usize) -> (r: bool)
        ensures
            r == (old(self).backup.phase_value() != phase_code(BackupPhase::Running)),
            r ==> final(self).backup.phase_value() == phase_code(BackupPhase::Running)
                && final(self).backup_outstanding == shard_count && !final(self).backup_failed,
            !r ==> final(self).backup_outstanding == old(self).backup_outstanding
                && final(self).backup_failed == old(self).backup_failed
                && final(self).backup.phase_value() == old(self).backup.phase_value(),
    {
        if !self.backup.try_begin() {
            return false;
        }
        self.backup_failed = false;
        self.backup_outstanding = shard_count;
        true
    }

    /// One shard finished its part of the backup, with `ok` telling whether it succeeded. The
    /// last shard settles the phase: complete if every shard succeeded, failed otherwise. The
    /// count of shards still out goes down by one, wrapping below zero as an atomic counter does.
    pub fn finish_shard_backup(&mut self, ok: bool)
        ensures
            final(self).backup_failed == (old(self).backup_failed || !ok),
            final(self).backup_outstanding == if old(self).backup_outstanding == 0 {
                usize::MAX
            } else {
                (old(self).backup_outstanding - 1) as usize
            },
            old(self).backup_outstanding == 1 ==> final(self).backup.phase_value() == if final(self).backup_failed {
                phase_code(BackupPhase::Failed)
            } else {
                phase_code(BackupPhase::Complete)
            },
            old(self).backup_outstanding != 1 ==> final(self).backup.phase_value() == old(self).backup.phase_value(),
    {
        if !ok {
            self.backup_failed = true;
        }
        let before = self.backup_outstanding;
        self.backup_outstanding = if before == 0 {
            usize::MAX
        } else {
            before - 1
        };
        if before == 1 {
            if self.backup_failed {
                self.backup.set_phase(BackupPhase::Failed);
            } else {
                self.backup.set_phase(BackupPhase::Complete);
            }
        }
    }

    /// Gives up the backup under way: no shard is out any more and it failed.
    pub fn abort_backup(&mut self)
        ensures
            final(self).backup_outstanding == 0,
            final(self).backup.phase_value() == phase_code(BackupPhase::Failed),
            final(self).backup_failed == old(self).backup_failed,
    {
        self.backup_outstanding = 0;
        self.backup.set_phase(BackupPhase::Failed);
    }

    /// Settles the backup as complete or failed.
    pub fn finish_backup(&mut self, ok: bool)
        ensures
            final(self).backup.phase_value() == if ok {
                phase_code(BackupPhase::Complete)
            } else {
                phase_code(BackupPhase::Failed)
            },
            final(self).backup_outstanding == old(self).backup_outstanding,
    {
        if ok {
            self.backup.set_phase(BackupPhase::Complete);
        } else {
            self.backup.set_phase(BackupPhase::Failed);
        }
    }

    /// Starts a restore unless one is running; says whether it started.
    pub fn try_begin_restore(&mut self) -> (r: bool)
        ensures
            r == (old(self).restore.phase_value() != phase_code(BackupPhase::Running)),
            r ==> final(self).restore.phase_value() == phase_code(BackupPhase::Running),
    {
        self.restore.try_begin()
    }

    /// Settles the restore as complete or failed.
    pub fn finish_restore(&mut self, ok: bool)
        ensures
            final(self).restore.phase_value() == if ok {
                phase_code(BackupPhase::Complete)
            } else {
                phase_code(BackupPhase::Failed)
            },
    {
        if ok {
            self.restore.set_phase(BackupPhase::Complete);
        } else {
            self.restore.set_phase(BackupPhase::Failed);
        }
    }

    /// Stores what shard `index` reports of itself, keeping whether its compaction is on.
    pub fn publish(&mut self, index: usize, report: ShardGauges)
        requires
            index < old(self).shards@.len(),
        ensures
            final(self).shards@ == old(self).shards@.update(
                index as int,
                ShardGauges { compaction_enabled: old(self).shards@[index as int].compaction_enabled, ..report },
            ),
            final(self).counters == old(self).counters,
    {
        let on = self.shards[index].compaction_enabled;
        self.shards.set(index, ShardGauges { compaction_enabled: on, ..report });
    }

    /// Adds `n` to the documents shard `index` indexed, wrapping as an atomic counter does.
    pub fn add_documents_indexed(&mut self, index: usize, n: u64)
        requires
            index < old(self).shards@.len(),
        ensures
            final(self).shards@ == old(self).shards@.update(
                index as int,
                ShardGauges {
                    documents_indexed: wrap64(old(self).shards@[index as int].documents_indexed, n as int),
                    ..old(self).shards@[index as int]
                },
            ),
    {
        let g = self.shards[index];
        self.shards.set(index, ShardGauges { documents_indexed: g.documents_indexed.wrapping_add(n), ..g });
    }

    /// Turns compaction of shard `index` on or off.
    pub fn set_compaction_enabled(&mut self, index: usize, on: bool)
        requires
            index < old(self).shards@.len(),
        ensures
            final(self).shards@ == old(self).shards@.update(
                index as int,
                ShardGauges { compaction_enabled: on, ..old(self).shards@[index as int] },
            ),
    {
        let g = self.shards[index];
        self.shards.set(index, ShardGauges { compaction_enabled: on, ..g });
    }

    /// The sums over all shards of what they reported, which must fit their types.
    pub fn totals(&self) -> (r: ShardTotals)
        requires
            gauge_sum(self.shards@, self.shards@.len() as int, |g: ShardGauges| g.documents as int) <= usize::MAX,
            gauge_sum(self.shards@, self.shards@.len() as int, |g: ShardGauges| g.segments as int) <= usize::MAX,
            gauge_sum(self.shards@, self.shards@.len() as int, |g: ShardGauges| g.memtable_terms as int) <= usize::MAX,
            gauge_sum(self.shards@, self.shards@.len() as int, |g: ShardGauges| g.documents_indexed as int) <= u64::MAX,
            gauge_sum(self.shards@, self.shards@.len() as int, |g: ShardGauges| g.documents_deleted as int) <= u64::MAX,
            gauge_sum(self.shards@, self.shards@.len() as int, |g: ShardGauges| g.segments_written as int) <= u64::MAX,
            gauge_sum(self.shards@, self.shards@.len() as int, |g: ShardGauges| g.compactions_completed as int)
                <= u64::MAX,
        ensures
            r.documents == gauge_sum(self.shards@, self.shards@.len() as int, |g: ShardGauges| g.documents as int),
            r.segments == gauge_sum(self.shards@, self.shards@.len() as int, |g: ShardGauges| g.segments as int),
            r.memtable_terms == gauge_sum(self.shards@, self.shards@.len() as int, |g: ShardGauges| g.memtable_terms as int),
            r.compaction_enabled == any_compaction(self.shards@, self.shards@.len() as int),
            r.documents_indexed == gauge_sum(self.shards@, self.shards@.len() as int, |g: ShardGauges| g.documents_indexed as int),
            r.documents_deleted == gauge_sum(self.shards@, self.shards@.len() as int, |g: ShardGauges| g.documents_deleted as int),
            r.segments_written == gauge_sum(self.shards@, self.shards@.len() as int, |g: ShardGauges| g.segments_written as int),
            r.compactions_completed == gauge_sum(
                self.shards@,
                self.shards@.len() as int,
                |g: ShardGauges| g.compactions_completed as int,
            ),
    {
        let ghost s = self.shards@;
        let ghost fd = |g: ShardGauges| g.documents as int;
        let ghost fs = |g: ShardGauges| g.segments as int;
        let ghost fm = |g: ShardGauges| g.memtable_terms as int;
        let ghost fi = |g: ShardGauges| g.documents_indexed as int;
        let ghost fx = |g: ShardGauges| g.documents_deleted as int;
        let ghost fw = |g: ShardGauges| g.segments_written as int;
        let ghost fc = |g: ShardGauges| g.compactions_completed as int;
        let mut t = ShardTotals {
            documents: 0,
            segments: 0,
            memtable_terms: 0,
            compaction_enabled: false,
            documents_indexed: 0,
            documents_deleted: 0,
            segments_written: 0,
            compactions_completed: 0,
        };
        let mut i: usize = 0;
        while i < self.shards.len()
            invariant
                s == self.shards@,
                i <= s.len(),
                fd == (|g: ShardGauges| g.documents as int),
                fs == (|g: ShardGauges| g.segments as int),
                fm == (|g: ShardGauges| g.memtable_terms as int),
                fi == (|g: ShardGauges| g.documents_indexed as int),
                fx == (|g: ShardGauges| g.documents_deleted as int),
                fw == (|g: ShardGauges| g.segments_written as int),
                fc == (|g: ShardGauges| g.compactions_completed as int),
                t.documents == gauge_sum(s, i as int, fd),
                t.segments == gauge_sum(s, i as int, fs),
                t.memtable_terms == gauge_sum(s, i as int, fm),
                t.compaction_enabled == any_compaction(s, i as int),
                t.documents_indexed == gauge_sum(s, i as int, fi),
                t.documents_deleted == gauge_sum(s, i as int, fx),
                t.segments_written == gauge_sum(s, i as int, fw),
                t.compactions_completed == gauge_sum(s, i as int, fc),
                gauge_sum(s, s.len() as int, fd) <= usize::MAX,
                gauge_sum(s, s.len() as int, fs) <= usize::MAX,
                gauge_sum(s, s.len() as int, fm) <= usize::MAX,
                gauge_sum(s, s.len() as int, fi) <= u64::MAX,
                gauge_sum(s, s.len() as int, fx) <= u64::MAX,
                gauge_sum(s, s.len() as int, fw) <= u64::MAX,
                gauge_sum(s, s.len() as int, fc) <= u64::MAX,
            decreases s.len() - i,
        {
            let g = self.shards[i];
            proof {
                assert forall|x: ShardGauges| #[trigger] fd(x) >= 0 by {}
                lemma_gauge_sum_mono(s, i + 1, s.len() as int, fd);
                assert forall|x: ShardGauges| #[trigger] fs(x) >= 0 by {}
                lemma_gauge_sum_mono(s, i + 1, s.len() as int, fs);
                assert forall|x: ShardGauges| #[trigger] fm(x) >= 0 by {}
                lemma_gauge_sum_mono(s, i + 1, s.len() as int, fm);
                assert forall|x: ShardGauges| #[trigger] fi(x) >= 0 by {}
                lemma_gauge_sum_mono(s, i + 1, s.len() as int, fi);
                assert forall|x: ShardGauges| #[trigger] fx(x) >= 0 by {}
                lemma_gauge_sum_mono(s, i + 1, s.len() as int, fx);
                assert forall|x: ShardGauges| #[trigger] fw(x) >= 0 by {}
                lemma_gauge_sum_mono(s, i + 1, s.len() as int, fw);
                assert forall|x: ShardGauges| #[trigger] fc(x) >= 0 by {}
                lemma_gauge_sum_mono(s, i + 1, s.len() as int, fc);
            }
            t.documents = t.documents + g.documents;
            t.segments = t.segments + g.segments;
            t.memtable_terms = t.memtable_terms + g.memtable_terms;
            t.compaction_enabled = t.compaction_enabled || g.compaction_enabled;
            t.documents_indexed = t.documents_indexed + g.documents_indexed;
            t.documents_deleted = t.documents_deleted + g.documents_deleted;
            t.segments_written = t.segments_written + g.segments_written;
            t.compactions_completed = t.compactions_completed + g.compactions_completed;
            proof {
                if t.compaction_enabled && !any_compaction(s, i as int) {
                    assert(s[i as int].compaction_enabled);
                }
                if any_compaction(s, i + 1) && !g.compaction_enabled {
                    let k = choose|k: int| 0 <= k < i + 1 && s[k].compaction_enabled;
                    assert(k < i);
                }
            }
            i += 1;
        }
        t
    }
}

/// A sum of counts grows with how many gauges it takes in.
pub proof fn lemma_gauge_sum_mono(g: Seq<ShardGauges>, a: int, b: int, f: spec_fn(ShardGauges) -> int)
    requires
        0 <= a <= b <= g.len(),
        forall|x: ShardGauges| #[trigger] f(x) >= 0,
    ensures
        gauge_sum(g, a, f) <= gauge_sum(g, b, f),
    decreases b - a,
{
    if a < b {
        lemma_gauge_sum_mono(g, a, b - 1, f);
    }
}

} // verus!
