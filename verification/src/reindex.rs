//! The progress of a reindex: its phase, how many documents are done of how many, and the
//! integer part of its time estimate. The clock and the division in floating point stay in
//! app/.

use vstd::prelude::*;

verus! {

/// Where a reindex stands.
#[derive(Debug, Clone, Copy, PartialEq, Eq, Structural)]
pub enum Phase {
    Idle,
    Reindexing,
    Swapping,
    CatchUp,
    Complete,
    Failed,
}

/// The number a phase is stored as.
pub open spec fn phase_number(p: Phase) -> u8 {
    match p {
        Phase::Idle => 0,
        Phase::Reindexing => 1,
        Phase::Swapping => 2,
        Phase::CatchUp => 3,
        Phase::Complete => 4,
        Phase::Failed => 5,
    }
}

/// The phase stored as `v`; any number but those of the phases reads as idle.
pub open spec fn phase_of(v: u8) -> Phase {
    if v == 1 {
        Phase::Reindexing
    } else if v == 2 {
        Phase::Swapping
    } else if v == 3 {
        Phase::CatchUp
    } else if v == 4 {
        Phase::Complete
    } else if v == 5 {
        Phase::Failed
    } else {
        Phase::Idle
    }
}

/// The name of a phase.
pub open spec fn phase_name(p: Phase) -> Seq<char> {
    match p {
        Phase::Idle => "idle"@,
        Phase::Reindexing => "reindexing"@,
        Phase::Swapping => "swapping"@,
        Phase::CatchUp => "catch_up"@,
        Phase::Complete => "complete"@,
        Phase::Failed => "failed"@,
    }
}

/// Whether a reindex in phase `p` is under way.
pub open spec fn phase_running(p: Phase) -> bool {
    p == Phase::Reindexing || p == Phase::Swapping || p == Phase::CatchUp
}

impl Phase {
    /// The phase stored as `v`.
    pub fn from_u8(v: u8) -> (r: Self)
        ensures
            r == phase_of(v),
    {
        match v {
            1 => Phase::Reindexing,
            2 => Phase::Swapping,
            3 => Phase::CatchUp,
            4 => Phase::Complete,
            5 => Phase::Failed,
            _ => Phase::Idle,
        }
    }

    /// The number the phase is stored as.
    pub fn as_u8(self) -> (r: u8)
        ensures
            r == phase_number(self),
    {
        match self {
            Phase::Idle => 0,
            Phase::Reindexing => 1,
            Phase::Swapping => 2,
            Phase::CatchUp => 3,
            Phase::Complete => 4,
            Phase::Failed => 5,
        }
    }

    /// The name of the phase.
    pub fn as_str(self) -> (r: &'static str)
        ensures
            r@ == phase_name(self),
    {
        match self {
            Phase::Idle => "idle",
            Phase::Reindexing => "reindexing",
            Phase::Swapping => "swapping",
            Phase::CatchUp => "catch_up",
            Phase::Complete => "complete",
            Phase::Failed => "failed",
        }
    }

    /// Whether a reindex in this phase is under way.
    pub fn is_running(self) -> (r: bool)
        ensures
            r == phase_running(self),
    {
        match self {
            Phase::Reindexing | Phase::Swapping | Phase::CatchUp => true,
            _ => false,
        }
    }
}

/// A phase stored as its number reads back as itself.
pub proof fn lemma_phase_roundtrip(p: Phase)
    ensures
        phase_of(phase_number(p)) == p,
{
}

/// What a reindex reports of itself.
#[derive(Debug, Clone, Copy)]
pub struct ProgressSnapshot {
    pub phase: Phase,
    pub done: u64,
    pub total: u64,
    pub percent: u8,
    pub eta_seconds: Option<u64>,
}

/// The progress of a reindex.
#[derive(Debug)]
pub struct ReindexProgress {
    pub phase: u8,
    pub total: u64,
    pub done: u64,
    pub cancel: bool,
    /// When the first documents were counted, in milliseconds of a clock that app/ keeps.
    pub first_add_ms: Option<u64>,
}

/// The documents done as reported: no more than the total, where there is one.
pub open spec fn reported_done(done: u64, total: u64) -> u64 {
    if total > 0 && done > total {
        total
    } else {
        done
    }
}

/// The percentage reported: 100 once complete, 0 without a total, else the share done, rounded
/// down.
pub open spec fn reported_percent(p: Phase, done: u64, total: u64) -> int {
    if p == Phase::Complete {
        100
    } else if total == 0 {
        0
    } else {
        (reported_done(done, total) * 100) / total as int
    }
}

impl ReindexProgress {
    /// Nothing under way.
    pub fn new() -> (r: Self)
        ensures
            phase_of(r.phase) == Phase::Idle,
            r.total == 0 && r.done == 0 && !r.cancel && r.first_add_ms is None,
    {
        ReindexProgress { phase: 0, total: 0, done: 0, cancel: false, first_add_ms: None }
    }

    /// Claims the reindex for `total` documents unless one is under way; says whether it did.
    pub fn try_begin(&mut self, total: u64) -> (r: bool)
        ensures
            r == !phase_running(phase_of(old(self).phase)),
            r ==> phase_of(final(self).phase) == Phase::Reindexing && final(self).total == total && final(self).done
                == 0 && final(self).first_add_ms is None && final(self).cancel == old(self).cancel,
            !r ==> *final(self) == *old(self),
    {
        if Phase::from_u8(self.phase).is_running() {
            return false;
        }
        self.phase = 1;
        self.total = total;
        self.done = 0;
        self.first_add_ms = None;
        true
    }

    /// Counts `docs` more documents done, wrapping as an atomic counter does; the first time
    /// anything is counted, `now_ms` is kept as when counting began.
    pub fn add_at(&mut self, docs: u64, now_ms: u64)
        ensures
            final(self).done == ((old(self).done + docs) % 0x1_0000_0000_0000_0000) as u64,
            final(self).first_add_ms == if old(self).done == 0 && old(self).first_add_ms is None {
                Some(now_ms)
            } else {
                old(self).first_add_ms
            },
            final(self).phase == old(self).phase && final(self).total == old(self).total,
    {
        let before = self.done;
        self.done = self.done.wrapping_add(docs);
        if before == 0 && self.first_add_ms.is_none() {
            self.first_add_ms = Some(now_ms);
        }
    }

    /// Adds `extra` to the total, wrapping as an atomic counter does.
    pub fn grow_total(&mut self, extra: u64)
        ensures
            final(self).total == ((old(self).total + extra) % 0x1_0000_0000_0000_0000) as u64,
            final(self).done == old(self).done && final(self).phase == old(self).phase,
    {
        self.total = self.total.wrapping_add(extra);
    }

    /// Sets the total.
    pub fn set_total(&mut self, total: u64)
        ensures
            final(self).total == total,
            final(self).done == old(self).done && final(self).phase == old(self).phase,
    {
        self.total = total;
    }

    /// Sets the phase.
    pub fn set_phase(&mut self, phase: Phase)
        ensures
            final(self).phase == phase_number(phase),
            final(self).total == old(self).total && final(self).done == old(self).done,
    {
        self.phase = phase.as_u8();
    }

    /// Back to how `new` leaves it: nothing under way, nothing counted, no stop asked for.
    pub fn reset(&mut self)
        ensures
            phase_of(final(self).phase) == Phase::Idle,
            final(self).total == 0 && final(self).done == 0 && !final(self).cancel && final(self).first_add_ms is None,
    {
        self.phase = 0;
        self.total = 0;
        self.done = 0;
        self.cancel = false;
        self.first_add_ms = None;
    }

    /// Asks the reindex to stop.
    pub fn request_cancel(&mut self)
        ensures
            final(self).cancel,
            final(self).phase == old(self).phase,
    {
        self.cancel = true;
    }

    /// Whether the reindex was asked to stop.
    pub fn is_cancelled(&self) -> (r: bool)
        ensures
            r == self.cancel,
    {
        self.cancel
    }

    /// The phase.
    pub fn phase(&self) -> (r: Phase)
        ensures
            r == phase_of(self.phase),
    {
        Phase::from_u8(self.phase)
    }

    /// The progress now, with `eta_seconds` as app/ estimated it from the clock.
    pub fn snapshot(&self, eta_seconds: Option<u64>) -> (r: ProgressSnapshot)
        requires
            reported_done(self.done, self.total) * 100 <= u64::MAX,
        ensures
            r.phase == phase_of(self.phase),
            r.total == self.total,
            r.done == reported_done(self.done, self.total),
            r.percent == reported_percent(phase_of(self.phase), self.done, self.total),
            r.eta_seconds == eta_seconds,
    {
        let phase = self.phase();
        let total = self.total;
        let done = if total > 0 && self.done > total {
            total
        } else {
            self.done
        };
        let percent: u8 = if phase == Phase::Complete {
            100
        } else if total == 0 {
            0
        } else {
            assert((done * 100) / (total as int) <= 100) by (nonlinear_arith)
                requires
                    done <= total,
                    total > 0,
            ;
            ((done * 100) / total) as u8
        };
        ProgressSnapshot { phase, done, total, percent, eta_seconds }
    }
}

/// Whether a time estimate is given for a reindex in phase `p` with `done` of `total`
/// documents: only while documents are indexed, once some are done and some remain, and once
/// at least a fiftieth of them is done.
pub fn eta_wanted(p: Phase, done: u64, total: u64) -> (r: bool)
    ensures
        r == ((p == Phase::Reindexing || p == Phase::CatchUp) && done > 0 && total > 0 && done < total && done * 50
            >= total),
{
    if !(p == Phase::Reindexing || p == Phase::CatchUp) {
        return false;
    }
    if done == 0 || total == 0 || done >= total {
        return false;
    }
    if done > u64::MAX / 50 {
        return true;
    }
    done * 50 >= total
}

/// The seconds of an estimate, already rounded up to whole seconds, made coarser as it
/// grows: exact up to 30, in fives up to 300, in thirties beyond.
pub fn round_eta_seconds(s: u64) -> (r: u64)
    requires
        s <= u32::MAX,
    ensures
        s <= 30 ==> r == s,
        30 < s <= 300 ==> r % 5 == 0 && s <= r < s + 5,
        s > 300 ==> r % 30 == 0 && s <= r < s + 30,
{
    if s <= 30 {
        s
    } else if s <= 300 {
        let q = (s + 4) / 5;
        assert(q * 5 % 5 == 0 && s <= q * 5 < s + 5) by (nonlinear_arith)
            requires
                q == (s + 4) / 5,
        ;
        q * 5
    } else {
        let q = (s + 29) / 30;
        assert(q * 30 % 30 == 0 && s <= q * 30 < s + 30) by (nonlinear_arith)
            requires
                q == (s + 29) / 30,
        ;
        q * 30
    }
}

} // verus!
