use vstd::prelude::*;

verus! {

/// Where a backup or restore stands.
#[derive(Debug, Clone, Copy, PartialEq, Eq, Structural)]
pub enum BackupPhase {
    Idle,
    Running,
    Complete,
    Failed,
}

/// The number each phase is stored as.
pub open spec fn phase_code(p: BackupPhase) -> u8 {
    match p {
        BackupPhase::Idle => 0,
        BackupPhase::Running => 1,
        BackupPhase::Complete => 2,
        BackupPhase::Failed => 3,
    }
}

impl BackupPhase {
    /// The phase stored as `v`; an unknown number reads as idle.
    pub fn from_u8(v: u8) -> (r: Self)
        ensures
            v <= 3 ==> phase_code(r) == v,
            v > 3 ==> r == BackupPhase::Idle,
    {
        match v {
            1 => BackupPhase::Running,
            2 => BackupPhase::Complete,
            3 => BackupPhase::Failed,
            _ => BackupPhase::Idle,
        }
    }

    /// The number the phase is stored as.
    pub fn as_u8(self) -> (r: u8)
        ensures
            r == phase_code(self),
    {
        match self {
            BackupPhase::Idle => 0,
            BackupPhase::Running => 1,
            BackupPhase::Complete => 2,
            BackupPhase::Failed => 3,
        }
    }
}

/// Storing a phase as its number and reading it back gives the phase.
pub proof fn lemma_phase_code_roundtrip(p: BackupPhase)
    ensures
        phase_code(p) <= 3,
        forall|q: BackupPhase| phase_code(q) == phase_code(p) ==> q == p,
{
}

/// `chrono::Utc::now().timestamp_millis()`, taken as a `u64`: the wall clock in milliseconds
/// since the epoch. Nothing is stated of the clock.
#[verifier::external_body]
pub fn now_millis() -> u64 {
    chrono::Utc::now().timestamp_millis() as u64
}

/// What a backup's progress was at one moment.
#[derive(Debug, Clone, Copy)]
pub struct BackupProgressSnapshot {
    pub phase: BackupPhase,
    pub bytes_total: u64,
    pub bytes_done: u64,
    pub elapsed_ms: Option<u64>,
}

/// Whether a backup may begin from the phase with code `phase`: unless one is running.
pub open spec fn may_begin(phase: u8) -> bool {
    phase != phase_code(BackupPhase::Running)
}

/// Only one backup runs at a time: a begin leaves the phase running, from which no other begin
/// is allowed; once the phase is set to anything else, a begin is allowed again.
pub proof fn lemma_one_backup_at_a_time(other: BackupPhase)
    ensures
        !may_begin(phase_code(BackupPhase::Running)),
        other != BackupPhase::Running ==> may_begin(phase_code(other)),
{
}

/// A call that may write the phase of a backup's progress.
pub ghost enum PhaseCall {
    /// `set_phase` with this phase.
    SetPhase(BackupPhase),
    /// `try_begin` (or `try_begin_at`).
    TryBegin,
}

/// The stored phase number after `BackupProgress::new` and the calls `calls` in order, as
/// each call's contract has it: `set_phase` stores its phase, and `try_begin` stores running
/// where a backup may begin and leaves the phase otherwise.
pub open spec fn phase_after(calls: Seq<PhaseCall>) -> u8
    decreases calls.len(),
{
    if calls.len() == 0 {
        0
    } else {
        let v = phase_after(calls.drop_last());
        match calls.last() {
            PhaseCall::SetPhase(p) => phase_code(p),
            PhaseCall::TryBegin => if may_begin(v) {
                phase_code(BackupPhase::Running)
            } else {
                v
            },
        }
    }
}

/// The phase written by the last of the calls that wrote one: idle where there is none, and
/// running for a `try_begin` (one that fails finds a backup running and writes nothing).
pub open spec fn last_written(calls: Seq<PhaseCall>) -> BackupPhase {
    if calls.len() == 0 {
        BackupPhase::Idle
    } else {
        match calls.last() {
            PhaseCall::SetPhase(p) => p,
            PhaseCall::TryBegin => BackupPhase::Running,
        }
    }
}

/// After `new` and any sequence of `set_phase` and `try_begin` calls, the stored phase is the
/// one the last writing call wrote, so `is_running` answers whether that phase is running.
pub proof fn lemma_phase_after_calls(calls: Seq<PhaseCall>)
    ensures
        phase_after(calls) == phase_code(last_written(calls)),
        (phase_after(calls) == 1) == (last_written(calls) == BackupPhase::Running),
    decreases calls.len(),
{
    if calls.len() > 0 {
        lemma_phase_after_calls(calls.drop_last());
    }
}

/// The progress of one backup or restore: its phase, the bytes it has to copy and has copied,
/// and when it started, in milliseconds since the epoch.
#[derive(Debug)]
pub struct BackupProgress {
    phase: u8,
    bytes_total: u64,
    bytes_done: u64,
    started_at_ms: u64,
}

impl BackupProgress {
    /// The stored phase number.
    pub closed spec fn phase_value(&self) -> u8 {
        self.phase
    }

    /// The bytes to copy.
    pub closed spec fn total_bytes(&self) -> u64 {
        self.bytes_total
    }

    /// The bytes copied.
    pub closed spec fn done_bytes(&self) -> u64 {
        self.bytes_done
    }

    /// When the running backup started.
    pub closed spec fn started_ms(&self) -> u64 {
        self.started_at_ms
    }

    /// An idle progress with nothing to copy.
    pub fn new() -> (r: Self)
        ensures
            r.phase_value() == 0,
            r.total_bytes() == 0,
            r.done_bytes() == 0,
            r.started_ms() == 0,
    {
        BackupProgress { phase: 0, bytes_total: 0, bytes_done: 0, started_at_ms: 0 }
    }

    /// Starts a backup now unless one is running, as `try_begin_at` does with the clock's time.
    pub fn try_begin(&mut self) -> (r: bool)
        ensures
            r == may_begin(old(self).phase_value()),
            r ==> final(self).phase_value() == phase_code(BackupPhase::Running) && final(self).total_bytes() == 0 && final(self).done_bytes() == 0,
            !r ==> *final(self) == *old(self),
    {
        let now = now_millis();
        self.try_begin_at(now)
    }

    /// Starts a backup at `now_ms` unless one is running: the counts start from zero. Says
    /// whether it started.
    pub fn try_begin_at(&mut self, now_ms: u64) -> (r: bool)
        ensures
            r == may_begin(old(self).phase_value()),
            r ==> final(self).phase_value() == phase_code(BackupPhase::Running) && final(self).total_bytes() == 0 && final(self).done_bytes()
                == 0 && final(self).started_ms() == now_ms,
            !r ==> *final(self) == *old(self),
    {
        if self.phase == 1 {
            return false;
        }
        self.phase = 1;
        self.bytes_total = 0;
        self.bytes_done = 0;
        self.started_at_ms = now_ms;
        true
    }

    /// Adds `bytes` to the bytes to copy, wrapping around as an atomic counter does.
    pub fn grow_total(&mut self, bytes: u64)
        ensures
            final(self).total_bytes() == (old(self).total_bytes() + bytes) % 0x1_0000_0000_0000_0000,
            final(self).done_bytes() == old(self).done_bytes(),
            final(self).phase_value() == old(self).phase_value(),
            final(self).started_ms() == old(self).started_ms(),
    {
        self.bytes_total = self.bytes_total.wrapping_add(bytes);
    }

    /// Adds `bytes` to the bytes copied, wrapping around as an atomic counter does.
    pub fn add(&mut self, bytes: u64)
        ensures
            final(self).done_bytes() == (old(self).done_bytes() + bytes) % 0x1_0000_0000_0000_0000,
            final(self).total_bytes() == old(self).total_bytes(),
            final(self).phase_value() == old(self).phase_value(),
            final(self).started_ms() == old(self).started_ms(),
    {
        self.bytes_done = self.bytes_done.wrapping_add(bytes);
    }

    /// Sets the phase.
    pub fn set_phase(&mut self, phase: BackupPhase)
        ensures
            final(self).phase_value() == phase_code(phase),
            final(self).total_bytes() == old(self).total_bytes(),
            final(self).done_bytes() == old(self).done_bytes(),
            final(self).started_ms() == old(self).started_ms(),
    {
        self.phase = phase.as_u8();
    }

    /// Whether a backup is running.
    pub fn is_running(&self) -> (r: bool)
        ensures
            r == (self.phase_value() == 1),
    {
        self.phase == 1
    }

    /// The progress now, as `snapshot_at` gives it with the clock's time.
    pub fn snapshot(&self) -> (r: BackupProgressSnapshot)
        ensures
            self.phase_value() <= 3 ==> phase_code(r.phase) == self.phase_value(),
            self.phase_value() > 3 ==> r.phase == BackupPhase::Idle,
            r.bytes_total == self.total_bytes(),
            r.bytes_done == self.done_bytes(),
            (r.elapsed_ms is Some) == (r.phase == BackupPhase::Running),
    {
        let now = now_millis();
        self.snapshot_at(now)
    }

    /// The progress at `now_ms`: the elapsed time while running (never below zero), none
    /// otherwise.
    pub fn snapshot_at(&self, now_ms: u64) -> (r: BackupProgressSnapshot)
        ensures
            self.phase_value() <= 3 ==> phase_code(r.phase) == self.phase_value(),
            self.phase_value() > 3 ==> r.phase == BackupPhase::Idle,
            r.bytes_total == self.total_bytes(),
            r.bytes_done == self.done_bytes(),
            r.elapsed_ms == (if r.phase == BackupPhase::Running {
                Some(if now_ms >= self.started_ms() {
                    (now_ms - self.started_ms()) as u64
                } else {
                    0u64
                })
            } else {
                None::<u64>
            }),
    {
        let phase = BackupPhase::from_u8(self.phase);
        let elapsed_ms = if phase == BackupPhase::Running {
            Some(now_ms.saturating_sub(self.started_at_ms))
        } else {
            None
        };
        BackupProgressSnapshot {
            phase,
            bytes_total: self.bytes_total,
            bytes_done: self.bytes_done,
            elapsed_ms,
        }
    }
}

} // verus!
