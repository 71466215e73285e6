//! The decisions of a shard's worker loop: which status flags a command raises while it runs,
//! what they are after it, and whether the loop ends. app/ receives the commands, runs them on
//! the shard and stores the flags.

use vstd::prelude::*;

verus! {

/// The most commands the worker takes from its queue at once.
pub const MAX_BATCH: usize = 32;

/// The kinds of command a shard's worker runs.
#[derive(Debug, Clone, Copy, PartialEq, Eq, Structural)]
pub enum ShardCommandKind {
    Insert,
    Flush,
    SetConfig,
    SetPolicy,
    Upsert,
    Replace,
    Delete,
    PrepareReindex,
    CommitReindex,
    Start,
    Stop,
    Shutdown,
    Clear,
    BackupFull,
    BackupIncremental,
    Restore,
    ListBackups,
}

/// What a shard reports of itself to readers on other threads.
#[derive(Debug, Clone, Copy, PartialEq, Eq, Structural)]
pub struct ShardFlags {
    pub is_running: bool,
    pub is_clearing: bool,
    pub is_backing_up: bool,
    pub is_restoring: bool,
}

/// A new shard: nothing running or under way.
pub fn idle_flags() -> (r: ShardFlags)
    ensures
        !r.is_running && !r.is_clearing && !r.is_backing_up && !r.is_restoring,
{
    ShardFlags { is_running: false, is_clearing: false, is_backing_up: false, is_restoring: false }
}

/// The flags while a command of `kind` runs: clearing, backing up and restoring are raised for
/// the duration of their commands.
pub open spec fn flags_during(kind: ShardCommandKind, f: ShardFlags) -> ShardFlags {
    match kind {
        ShardCommandKind::Clear => ShardFlags { is_clearing: true, ..f },
        ShardCommandKind::BackupFull => ShardFlags { is_backing_up: true, ..f },
        ShardCommandKind::BackupIncremental => ShardFlags { is_backing_up: true, ..f },
        ShardCommandKind::Restore => ShardFlags { is_restoring: true, ..f },
        _ => f,
    }
}

/// The flags after a command of `kind` ended, `ok` telling whether it succeeded: a start sets
/// the shard running exactly when it succeeded, a stop or shutdown sets it not running, and
/// the flag raised for the command is lowered again whatever the outcome.
pub open spec fn flags_after(kind: ShardCommandKind, f: ShardFlags, ok: bool) -> ShardFlags {
    match kind {
        ShardCommandKind::Start => ShardFlags { is_running: ok, ..f },
        ShardCommandKind::Stop => ShardFlags { is_running: false, ..f },
        ShardCommandKind::Shutdown => ShardFlags { is_running: false, ..f },
        ShardCommandKind::Clear => ShardFlags { is_clearing: false, ..f },
        ShardCommandKind::BackupFull => ShardFlags { is_backing_up: false, ..f },
        ShardCommandKind::BackupIncremental => ShardFlags { is_backing_up: false, ..f },
        ShardCommandKind::Restore => ShardFlags { is_restoring: false, ..f },
        _ => f,
    }
}

/// Raises the flag of a command of `kind` before it runs.
pub fn begin_command(kind: ShardCommandKind, flags: ShardFlags) -> (r: ShardFlags)
    ensures
        r == flags_during(kind, flags),
{
    match kind {
        ShardCommandKind::Clear => ShardFlags { is_clearing: true, ..flags },
        ShardCommandKind::BackupFull | ShardCommandKind::BackupIncremental => ShardFlags { is_backing_up: true, ..flags },
        ShardCommandKind::Restore => ShardFlags { is_restoring: true, ..flags },
        _ => flags,
    }
}

/// The flags after a command of `kind` ended with `ok`, and whether the worker stops.
pub fn end_command(kind: ShardCommandKind, flags: ShardFlags, ok: bool) -> (r: (ShardFlags, bool))
    ensures
        r.0 == flags_after(kind, flags, ok),
        r.1 == (kind == ShardCommandKind::Shutdown),
{
    match kind {
        ShardCommandKind::Start => (ShardFlags { is_running: ok, ..flags }, false),
        ShardCommandKind::Stop => (ShardFlags { is_running: false, ..flags }, false),
        ShardCommandKind::Shutdown => (ShardFlags { is_running: false, ..flags }, true),
        ShardCommandKind::Clear => (ShardFlags { is_clearing: false, ..flags }, false),
        ShardCommandKind::BackupFull | ShardCommandKind::BackupIncremental => (
            ShardFlags { is_backing_up: false, ..flags },
            false,
        ),
        ShardCommandKind::Restore => (ShardFlags { is_restoring: false, ..flags }, false),
        _ => (flags, false),
    }
}

/// Whether a full backup's outcome is recorded as the shard's last backup: only when it
/// succeeded. An incremental one is recorded when it succeeded and copied something.
pub fn records_backup(kind: ShardCommandKind, ok: bool, copied: bool) -> (r: bool)
    ensures
        r == (ok && (kind == ShardCommandKind::BackupFull || (kind == ShardCommandKind::BackupIncremental
            && copied))),
{
    match kind {
        ShardCommandKind::BackupFull => ok,
        ShardCommandKind::BackupIncremental => ok && copied,
        _ => false,
    }
}

/// A command leaves no flag of its own raised: the flags after it are those before it, but for
/// whether the shard runs, which only start, stop and shutdown change.
pub proof fn lemma_flags_restored(kind: ShardCommandKind, f: ShardFlags, ok: bool)
    requires
        !f.is_clearing && !f.is_backing_up && !f.is_restoring,
    ensures
        !flags_after(kind, flags_during(kind, f), ok).is_clearing,
        !flags_after(kind, flags_during(kind, f), ok).is_backing_up,
        !flags_after(kind, flags_during(kind, f), ok).is_restoring,
        kind != ShardCommandKind::Start && kind != ShardCommandKind::Stop && kind != ShardCommandKind::Shutdown
            ==> flags_after(kind, flags_during(kind, f), ok).is_running == f.is_running,
{
}

} // verus!
