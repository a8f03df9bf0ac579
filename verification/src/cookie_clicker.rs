//! The session: the single exclusive automation handle and its lifecycle.
//!
//! The session is a two-state machine, inactive or active, that owns the
//! record of the automation handle: present exactly while the session is
//! active, and carrying the save code it was started from. The code that
//! drives the real browser lives outside the crate; it consults this state
//! machine first and hands observed values (save codes read from the game)
//! in as plain arguments.

use vstd::prelude::*;

use crate::backup::{Backup, BackupError, BackupModel, Backups, valid_code};

verus! {

#[derive(Debug, PartialEq, Eq)]
pub enum CookieClickerError {
    /// `start` on a session that is already active.
    AlreadyActive,
    /// `stop` or a query on a session that is not active.
    NotActive,
    /// An opaque failure of the automation transport, reported by the caller
    /// that drives it.
    DriverError(String),
    BackupError(BackupError),
}

pub type CookieClickerResult<T> = Result<T, CookieClickerError>;

/// The two session operations, for stating lifecycle laws.
#[derive(Debug, PartialEq, Eq, Clone, Copy)]
pub enum SessionOp {
    Start,
    Stop,
}

/// Whether the operation is accepted in the given state.
pub open spec fn op_allowed(active: bool, op: SessionOp) -> bool {
    match op {
        SessionOp::Start => !active,
        SessionOp::Stop => active,
    }
}

/// The state after the operation is attempted: an accepted operation moves
/// the machine, a refused one leaves it.
pub open spec fn op_next(active: bool, op: SessionOp) -> bool {
    if op_allowed(active, op) {
        match op {
            SessionOp::Start => true,
            SessionOp::Stop => false,
        }
    } else {
        active
    }
}

pub open spec fn opposite(op: SessionOp) -> SessionOp {
    match op {
        SessionOp::Start => SessionOp::Stop,
        SessionOp::Stop => SessionOp::Start,
    }
}

/// Law: the session alternates strictly between its two states. An accepted
/// operation cannot be accepted again before the opposite one; the opposite
/// one is then accepted; a refused operation moves nothing. `start` is
/// refused exactly when active, `stop` exactly when inactive.
pub proof fn lemma_session_alternates(active: bool, op: SessionOp)
    ensures
        op_allowed(active, SessionOp::Start) == !active,
        op_allowed(active, SessionOp::Stop) == active,
        op_allowed(active, op) ==> !op_allowed(op_next(active, op), op),
        op_allowed(active, op) ==> op_allowed(op_next(active, op), opposite(op)),
        !op_allowed(active, op) ==> op_next(active, op) == active,
{
}

/// The state after the first `k` of a sequence of attempted operations.
pub open spec fn state_after(active0: bool, ops: Seq<SessionOp>, k: int) -> bool
    decreases k,
{
    if k <= 0 {
        active0
    } else {
        op_next(state_after(active0, ops, k - 1), ops[k - 1])
    }
}

/// Whether the `k`-th attempted operation is accepted.
pub open spec fn accepted_at(active0: bool, ops: Seq<SessionOp>, k: int) -> bool {
    op_allowed(state_after(active0, ops, k), ops[k])
}

proof fn lemma_state_stuck(active0: bool, ops: Seq<SessionOp>, a: int, j: int)
    requires
        0 <= a < j <= ops.len(),
        accepted_at(active0, ops, a),
        forall|k: int|
            a < k < j ==> !(#[trigger] accepted_at(active0, ops, k) && ops[k] == opposite(
                ops[a],
            )),
    ensures
        state_after(active0, ops, j) == op_next(state_after(active0, ops, a), ops[a]),
    decreases j,
{
    let s1 = op_next(state_after(active0, ops, a), ops[a]);
    if j > a + 1 {
        lemma_state_stuck(active0, ops, a, j - 1);
        assert(state_after(active0, ops, j - 1) == s1);
        if ops[j - 1] == opposite(ops[a]) {
            assert(!accepted_at(active0, ops, j - 1));
        } else {
            assert(ops[j - 1] == ops[a]) by {
                lemma_opposite_cases(ops[j - 1], ops[a]);
            }
            assert(!op_allowed(s1, ops[a]));
        }
    }
}

proof fn lemma_opposite_cases(x: SessionOp, y: SessionOp)
    ensures
        x == y || x == opposite(y),
{
}

/// Law: over any sequence of attempted operations, accepted operations
/// alternate strictly: between two accepted operations of the same kind
/// there is an accepted operation of the opposite kind.
pub proof fn lemma_session_alternation_seq(active0: bool, ops: Seq<SessionOp>, a: int, b: int)
    requires
        0 <= a < b < ops.len(),
        ops[a] == ops[b],
        accepted_at(active0, ops, a),
        accepted_at(active0, ops, b),
    ensures
        exists|k: int|
            a < k < b && #[trigger] accepted_at(active0, ops, k) && ops[k] == opposite(ops[a]),
{
    if forall|k: int|
        a < k < b ==> !(#[trigger] accepted_at(active0, ops, k) && ops[k] == opposite(ops[a])) {
        lemma_state_stuck(active0, ops, a, b);
        assert(!op_allowed(op_next(state_after(active0, ops, a), ops[a]), ops[a]));
        assert(false);
    }
}

/// The store changed by exactly one accepted push of `code`: the new entry is
/// last, everything older kept under the bound-and-evict rule. The capture
/// time of the new entry is whatever the clock gave.
pub open spec fn pushed_code(
    pre: Seq<BackupModel>,
    post: Seq<BackupModel>,
    cap: nat,
    code: Seq<char>,
) -> bool {
    &&& post.len() > 0
    &&& post.last().save_code == code
    &&& post.drop_last() == (if pre.len() < cap {
        pre
    } else {
        pre.subrange(pre.len() - cap + 1, pre.len() as int)
    })
}

/// The session and the backup store it feeds, as the dispatcher sees them.
#[derive(Debug)]
pub struct CookieClicker {
    pub driver: Option<String>,
    pub backups: Backups,
}

impl CookieClicker {
    /// Whether a session is active: exactly when the handle record is held.
    pub open spec fn active(&self) -> bool {
        self.driver is Some
    }

    /// The save code the active session was started from, if any.
    pub open spec fn loaded_code(&self) -> Option<Seq<char>> {
        match self.driver {
            Some(code) => Some(code@),
            None => None,
        }
    }

    /// The snapshots currently held, oldest first.
    pub open spec fn snapshots(&self) -> Seq<BackupModel> {
        self.backups@
    }

    /// The retention bound of the backup store.
    pub open spec fn store_cap(&self) -> nat {
        self.backups.cap()
    }

    pub open spec fn wf(&self) -> bool {
        self.backups.wf()
    }

    /// An inactive session over the given backup store.
    pub fn new(backups: Backups) -> (c: CookieClicker)
        ensures
            !c.active(),
            c.loaded_code() is None,
            c.snapshots() == backups@,
            c.store_cap() == backups.cap(),
            c.wf() == backups.wf(),
    {
        CookieClicker { driver: None, backups }
    }

    pub fn is_started(&self) -> (r: bool)
        ensures
            r == self.active(),
    {
        self.driver.is_some()
    }

    /// Accepts a start with the given save code, or refuses it on an active
    /// session. The caller then loads the code into the real browser.
    pub fn start(&mut self, initial_save: String) -> (r: CookieClickerResult<()>)
        ensures
            r is Ok <==> op_allowed(old(self).active(), SessionOp::Start),
            final(self).active() == op_next(old(self).active(), SessionOp::Start),
            final(self).snapshots() == old(self).snapshots(),
            final(self).store_cap() == old(self).store_cap(),
            final(self).wf() == old(self).wf(),
            r is Ok ==> final(self).loaded_code() == Some(initial_save@),
            r is Err ==> r == Err::<(), CookieClickerError>(CookieClickerError::AlreadyActive)
                && final(self).loaded_code() == old(self).loaded_code(),
    {
        if self.driver.is_some() {
            return Err(CookieClickerError::AlreadyActive);
        }
        self.driver = Some(initial_save);
        Ok(())
    }

    /// Releases the session, or refuses on an inactive one. The caller then
    /// quits the real browser.
    pub fn exit(&mut self) -> (r: CookieClickerResult<()>)
        ensures
            r is Ok <==> op_allowed(old(self).active(), SessionOp::Stop),
            final(self).active() == op_next(old(self).active(), SessionOp::Stop),
            final(self).snapshots() == old(self).snapshots(),
            final(self).store_cap() == old(self).store_cap(),
            final(self).wf() == old(self).wf(),
            r is Ok ==> final(self).loaded_code() is None,
            r is Err ==> r == Err::<(), CookieClickerError>(CookieClickerError::NotActive)
                && final(self).loaded_code() == old(self).loaded_code(),
    {
        if self.driver.is_none() {
            return Err(CookieClickerError::NotActive);
        }
        self.driver = None;
        Ok(())
    }

    /// Stores one snapshot of the save code observed on the active session,
    /// captured now. Refused on an inactive session; fails with an encode
    /// error, storing nothing, exactly when the code cannot be framed as a
    /// record.
    pub fn backup_save_code(&mut self, save_code: String) -> (r: CookieClickerResult<()>)
        requires
            old(self).wf(),
        ensures
            final(self).wf(),
            final(self).active() == old(self).active(),
            final(self).loaded_code() == old(self).loaded_code(),
            final(self).store_cap() == old(self).store_cap(),
            !old(self).active() ==> r == Err::<(), CookieClickerError>(
                CookieClickerError::NotActive,
            ) && final(self).snapshots() == old(self).snapshots(),
            old(self).active() && valid_code(save_code@) ==> r is Ok && pushed_code(
                old(self).snapshots(),
                final(self).snapshots(),
                old(self).store_cap(),
                save_code@,
            ),
            old(self).active() && !valid_code(save_code@) ==> r == Err::<(), CookieClickerError>(
                CookieClickerError::BackupError(BackupError::EncodeError),
            ) && final(self).snapshots() == old(self).snapshots(),
    {
        if self.driver.is_none() {
            return Err(CookieClickerError::NotActive);
        }
        let snapshot = Backup::new(save_code);
        let ghost pre = self.backups@;
        let ghost cap = self.backups.cap();
        let ghost pushed = snapshot@;
        let result = match self.backups.add(snapshot) {
            Ok(()) => Ok(()),
            Err(e) => Err(CookieClickerError::BackupError(e)),
        };
        proof {
            if result is Ok {
                if pre.len() < cap {
                    assert(self.backups@.drop_last() =~= pre);
                } else {
                    assert(self.backups@.drop_last() =~= pre.subrange(
                        pre.len() - cap + 1,
                        pre.len() as int,
                    ));
                }
                assert(self.backups@.last() == pushed);
            }
        }
        result
    }
}

/// The verdict of one readiness poll of the loading page.
#[derive(Debug, PartialEq, Eq, Clone, Copy)]
pub enum PollVerdict {
    Ready,
    Retry,
    TimedOut,
}

/// A bounded budget for polling the page until it is ready: the caller polls
/// the real page, feeds each observation in, and must stop on `TimedOut`, so
/// waiting for readiness cannot spin forever.
pub struct PagePoll {
    remaining: u32,
}

impl PagePoll {
    pub closed spec fn budget(&self) -> nat {
        self.remaining as nat
    }

    pub fn new(max_attempts: u32) -> (p: PagePoll)
        requires
            max_attempts >= 1,
        ensures
            p.budget() == max_attempts as nat,
    {
        PagePoll { remaining: max_attempts }
    }

    /// Feeds one readiness observation. A ready page ends the wait; an
    /// unready one consumes budget, and an exhausted budget times out.
    pub fn observe(&mut self, ready: bool) -> (v: PollVerdict)
        ensures
            ready ==> v == PollVerdict::Ready && final(self).budget() == old(self).budget(),
            !ready && old(self).budget() > 1 ==> v == PollVerdict::Retry && final(self).budget()
                == old(self).budget() - 1,
            !ready && old(self).budget() <= 1 ==> v == PollVerdict::TimedOut
                && final(self).budget() == 0,
    {
        if ready {
            PollVerdict::Ready
        } else if self.remaining > 1 {
            self.remaining = self.remaining - 1;
            PollVerdict::Retry
        } else {
            self.remaining = 0;
            PollVerdict::TimedOut
        }
    }
}

} // verus!
