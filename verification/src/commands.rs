//! The command dispatcher's rules: decoding a command message into the
//! closed command set, and the per-command guards and state transitions.
//!
//! Each handler here is the decision half of one chat command: it checks the
//! session state, applies the transition, and returns what the caller must
//! relay or load. The chat replies themselves, and every browser read these
//! handlers consume (a save code, a screenshot), are produced outside and
//! passed in as plain values.

use vstd::prelude::*;
use vstd::string::*;

use crate::backup::{BackupError, valid_code};
use crate::codec::{find_char, find_char_in, lemma_find_char_at};
use crate::cookie_clicker::{pushed_code, CookieClicker, CookieClickerError};

verus! {

/// The closed set of commands the dispatcher understands.
#[derive(Debug, PartialEq, Eq)]
pub enum Command {
    Start(String),
    Resume,
    Screenshot,
    Details,
    Backup,
    Stop,
}

#[derive(Debug, PartialEq, Eq)]
pub enum CommandHandlerError {
    CookieClicker(CookieClickerError),
    InvalidCommand,
    InstanceNotStarted,
    InstanceAlreadyStarted,
    NoBackupsFound,
}

pub type CommandHandlerResult<T> = Result<T, CommandHandlerError>;

/// The verb of a command message: everything before the first space, or the
/// whole message if it has none.
pub open spec fn verb_of(msg: Seq<char>) -> Seq<char> {
    msg.take(find_char(msg, ' ') as int)
}

/// The argument of a command message: everything after the first space, or
/// empty if it has none.
pub open spec fn arg_of(msg: Seq<char>) -> Seq<char> {
    if (find_char(msg, ' ') as int) < msg.len() {
        msg.subrange(find_char(msg, ' ') as int + 1, msg.len() as int)
    } else {
        Seq::empty()
    }
}

/// Nothing about the session or the store changed.
pub open spec fn same_state(pre: CookieClicker, post: CookieClicker) -> bool {
    &&& post.active() == pre.active()
    &&& post.loaded_code() == pre.loaded_code()
    &&& post.snapshots() == pre.snapshots()
    &&& post.store_cap() == pre.store_cap()
}

/// Character-by-character string equality.
fn str_eq(a: &str, b: &str) -> (r: bool)
    ensures
        r == (a@ == b@),
{
    let n = a.unicode_len();
    let m = b.unicode_len();
    if n != m {
        return false;
    }
    let mut i: usize = 0;
    while i < n
        invariant
            i <= n,
            n as int == a@.len(),
            n as int == b@.len(),
            forall|j: int| 0 <= j < i as int ==> a@[j] == b@[j],
        decreases n - i,
    {
        if a.get_char(i) != b.get_char(i) {
            return false;
        }
        i = i + 1;
    }
    proof {
        assert(a@ =~= b@);
    }
    true
}

/// Decodes the text of a command message into the closed command set,
/// splitting the verb from its argument at the first space. Any other verb
/// is an invalid command.
#[verifier::loop_isolation(false)]
pub fn handle_command(message: &str) -> (r: CommandHandlerResult<Command>)
    ensures
        verb_of(message@) == "/start"@ ==> (r matches Ok(c) && c matches Command::Start(code)
            && code@ == arg_of(message@)),
        verb_of(message@) == "/resume"@ ==> r == Ok::<Command, CommandHandlerError>(
            Command::Resume,
        ),
        verb_of(message@) == "/screenshot"@ ==> r == Ok::<Command, CommandHandlerError>(
            Command::Screenshot,
        ),
        verb_of(message@) == "/details"@ ==> r == Ok::<Command, CommandHandlerError>(
            Command::Details,
        ),
        verb_of(message@) == "/backup"@ ==> r == Ok::<Command, CommandHandlerError>(
            Command::Backup,
        ),
        verb_of(message@) == "/stop"@ ==> r == Ok::<Command, CommandHandlerError>(Command::Stop),
        (verb_of(message@) != "/start"@ && verb_of(message@) != "/resume"@ && verb_of(message@)
            != "/screenshot"@ && verb_of(message@) != "/details"@ && verb_of(message@)
            != "/backup"@ && verb_of(message@) != "/stop"@) ==> r == Err::<
            Command,
            CommandHandlerError,
        >(CommandHandlerError::InvalidCommand),
{
    proof {
        reveal_strlit("/start");
        reveal_strlit("/resume");
        reveal_strlit("/screenshot");
        reveal_strlit("/details");
        reveal_strlit("/backup");
        reveal_strlit("/stop");
        assert("/resume"@[1] != "/backup"@[1]);
    }
    let n = message.unicode_len();
    let sp = find_char_in(message, 0, ' ');
    proof {
        lemma_find_char_at(message@, ' ', sp as int);
    }
    let verb = message.substring_char(0, sp);
    proof {
        assert(verb@ =~= verb_of(message@));
    }
    let arg: &str = if sp < n {
        message.substring_char(sp + 1, n)
    } else {
        ""
    };
    proof {
        reveal_strlit("");
        assert(arg@ =~= arg_of(message@));
    }
    if str_eq(verb, "/start") {
        Ok(Command::Start(arg.to_owned()))
    } else if str_eq(verb, "/resume") {
        Ok(Command::Resume)
    } else if str_eq(verb, "/screenshot") {
        Ok(Command::Screenshot)
    } else if str_eq(verb, "/details") {
        Ok(Command::Details)
    } else if str_eq(verb, "/backup") {
        Ok(Command::Backup)
    } else if str_eq(verb, "/stop") {
        Ok(Command::Stop)
    } else {
        Err(CommandHandlerError::InvalidCommand)
    }
}

/// Starts a fresh session with the given save code: refused if one is
/// already active, otherwise the session becomes active and the caller loads
/// the code into the browser.
pub fn command_start(clicker: &mut CookieClicker, save_code: String) -> (r: CommandHandlerResult<
    (),
>)
    ensures
        final(clicker).wf() == old(clicker).wf(),
        r is Ok <==> !old(clicker).active(),
        r is Ok ==> final(clicker).active() && final(clicker).loaded_code() == Some(save_code@)
            && final(clicker).snapshots() == old(clicker).snapshots() && final(clicker).store_cap() == old(clicker).store_cap(),
        r is Err ==> r == Err::<(), CommandHandlerError>(
            CommandHandlerError::InstanceAlreadyStarted,
        ) && same_state(*old(clicker), *final(clicker)),
{
    if clicker.is_started() {
        return Err(CommandHandlerError::InstanceAlreadyStarted);
    }
    match clicker.start(save_code) {
        Ok(()) => Ok(()),
        Err(_) => {
            proof {
                assert(false);
            }
            Err(CommandHandlerError::InstanceAlreadyStarted)
        },
    }
}

/// Resumes from the most recent snapshot: refused if a session is active;
/// fails with `NoBackupsFound`, moving nothing, if the store is empty;
/// otherwise the session becomes active and the returned code, the latest
/// snapshot's, is what the caller loads into the browser.
pub fn command_resume(clicker: &mut CookieClicker) -> (r: CommandHandlerResult<String>)
    ensures
        final(clicker).wf() == old(clicker).wf(),
        old(clicker).active() ==> r == Err::<String, CommandHandlerError>(
            CommandHandlerError::InstanceAlreadyStarted,
        ) && same_state(*old(clicker), *final(clicker)),
        !old(clicker).active() && old(clicker).snapshots().len() == 0 ==> r == Err::<
            String,
            CommandHandlerError,
        >(CommandHandlerError::NoBackupsFound) && same_state(*old(clicker), *final(clicker)),
        !old(clicker).active() && old(clicker).snapshots().len() > 0 ==> (r matches Ok(code)
            && code@ == old(clicker).snapshots().last().save_code && final(clicker).active()
            && final(clicker).loaded_code() == Some(code@) && final(clicker).snapshots() == old(clicker).snapshots() && final(clicker).store_cap() == old(clicker).store_cap()),
{
    if clicker.is_started() {
        return Err(CommandHandlerError::InstanceAlreadyStarted);
    }
    let code: String = match clicker.backups.latest_code() {
        None => {
            return Err(CommandHandlerError::NoBackupsFound);
        },
        Some(code) => code,
    };
    let loaded = code.clone();
    match clicker.start(loaded) {
        Ok(()) => Ok(code),
        Err(_) => {
            proof {
                assert(false);
            }
            Err(CommandHandlerError::InstanceAlreadyStarted)
        },
    }
}

/// The guard of the screenshot command: allowed exactly on an active
/// session. The caller then fetches and sends the image.
pub fn command_screenshot(clicker: &CookieClicker) -> (r: CommandHandlerResult<()>)
    ensures
        r is Ok <==> clicker.active(),
        r is Err ==> r == Err::<(), CommandHandlerError>(CommandHandlerError::InstanceNotStarted),
{
    if !clicker.is_started() {
        return Err(CommandHandlerError::InstanceNotStarted);
    }
    Ok(())
}

/// The guard of the details command: allowed exactly on an active session.
/// The caller then reads the counters and sends the reply.
pub fn command_details(clicker: &CookieClicker) -> (r: CommandHandlerResult<()>)
    ensures
        r is Ok <==> clicker.active(),
        r is Err ==> r == Err::<(), CommandHandlerError>(CommandHandlerError::InstanceNotStarted),
{
    if !clicker.is_started() {
        return Err(CommandHandlerError::InstanceNotStarted);
    }
    Ok(())
}

/// Stores a snapshot of the save code read from the active session. Unlike
/// the scheduled path, an explicit request on an inactive session is an
/// error reported to the requester.
pub fn command_backup(clicker: &mut CookieClicker, save_code: String) -> (r: CommandHandlerResult<
    (),
>)
    requires
        old(clicker).wf(),
    ensures
        final(clicker).wf(),
        final(clicker).active() == old(clicker).active(),
        final(clicker).loaded_code() == old(clicker).loaded_code(),
        final(clicker).store_cap() == old(clicker).store_cap(),
        !old(clicker).active() ==> r == Err::<(), CommandHandlerError>(
            CommandHandlerError::InstanceNotStarted,
        ) && final(clicker).snapshots() == old(clicker).snapshots(),
        old(clicker).active() && valid_code(save_code@) ==> r is Ok && pushed_code(
            old(clicker).snapshots(),
            final(clicker).snapshots(),
            old(clicker).store_cap(),
            save_code@,
        ),
        old(clicker).active() && !valid_code(save_code@) ==> r == Err::<(), CommandHandlerError>(
            CommandHandlerError::CookieClicker(
                CookieClickerError::BackupError(BackupError::EncodeError),
            ),
        ) && final(clicker).snapshots() == old(clicker).snapshots(),
{
    if !clicker.is_started() {
        return Err(CommandHandlerError::InstanceNotStarted);
    }
    match clicker.backup_save_code(save_code) {
        Ok(()) => Ok(()),
        Err(e) => Err(CommandHandlerError::CookieClicker(e)),
    }
}

/// Stops the active session and relays the save code just read from it, so
/// the requester can keep it. Refused on an inactive session. The caller
/// reads the code before calling and quits the browser after: a failed read
/// never reaches this point, so a live session is not discarded on a read
/// error.
pub fn command_stop(clicker: &mut CookieClicker, save_code: String) -> (r: CommandHandlerResult<
    String,
>)
    ensures
        final(clicker).wf() == old(clicker).wf(),
        final(clicker).snapshots() == old(clicker).snapshots(),
        final(clicker).store_cap() == old(clicker).store_cap(),
        !old(clicker).active() ==> r == Err::<String, CommandHandlerError>(
            CommandHandlerError::InstanceNotStarted,
        ) && same_state(*old(clicker), *final(clicker)),
        old(clicker).active() ==> (r matches Ok(code) && code@ == save_code@ && !final(clicker).active() && final(clicker).loaded_code() is None),
{
    if !clicker.is_started() {
        return Err(CommandHandlerError::InstanceNotStarted);
    }
    match clicker.exit() {
        Ok(()) => Ok(save_code),
        Err(_) => {
            proof {
                assert(false);
            }
            Err(CommandHandlerError::InstanceNotStarted)
        },
    }
}

/// Whether the sender of a message is the configured administrator.
pub fn is_user_admin(user_id: i64, admin_id: i64) -> (r: bool)
    ensures
        r == (user_id == admin_id),
{
    user_id == admin_id
}

} // verus!
