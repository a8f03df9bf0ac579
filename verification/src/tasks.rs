//! The periodic backup task's decision step.
//!
//! The loop that sleeps, locks the session, and talks to the browser runs
//! outside the crate; each iteration it calls `backup_tick` with the save
//! code it managed to read, if any. An idle session is the expected steady
//! state between sessions, never an error here: the tick skips it and the
//! store is untouched. A failed read or a failed store is reported in the
//! outcome for logging, and never stops the loop: the tick is total and
//! leaves the session state alone.

use vstd::prelude::*;

use crate::backup::valid_code;
use crate::cookie_clicker::{pushed_code, CookieClicker};

verus! {

/// What one scheduled iteration did, for the log.
#[derive(Debug, PartialEq, Eq, Clone, Copy)]
pub enum SchedulerOutcome {
    /// No session was active; nothing was read or written.
    Idle,
    /// A snapshot of the observed save code was stored.
    BackedUp,
    /// The session was active but no save code could be read from it.
    ReadFailed,
    /// The observed save code could not be framed as a record.
    StoreFailed,
}

/// One iteration of the periodic backup task, over the save code observed on
/// the session this tick, if the session was active and the read succeeded.
pub fn backup_tick(clicker: &mut CookieClicker, observed: Option<String>) -> (o: SchedulerOutcome)
    requires
        old(clicker).wf(),
    ensures
        final(clicker).wf(),
        final(clicker).active() == old(clicker).active(),
        final(clicker).loaded_code() == old(clicker).loaded_code(),
        final(clicker).store_cap() == old(clicker).store_cap(),
        !old(clicker).active() ==> o == SchedulerOutcome::Idle && final(clicker).snapshots()
            == old(clicker).snapshots(),
        old(clicker).active() ==> match observed {
            None => o == SchedulerOutcome::ReadFailed && final(clicker).snapshots() == old(clicker).snapshots(),
            Some(code) => if valid_code(code@) {
                o == SchedulerOutcome::BackedUp && pushed_code(
                    old(clicker).snapshots(),
                    final(clicker).snapshots(),
                    old(clicker).store_cap(),
                    code@,
                )
            } else {
                o == SchedulerOutcome::StoreFailed && final(clicker).snapshots() == old(clicker).snapshots()
            },
        },
{
    if !clicker.is_started() {
        return SchedulerOutcome::Idle;
    }
    match observed {
        None => SchedulerOutcome::ReadFailed,
        Some(code) => match clicker.backup_save_code(code) {
            Ok(()) => SchedulerOutcome::BackedUp,
            Err(_) => SchedulerOutcome::StoreFailed,
        },
    }
}

} // verus!
