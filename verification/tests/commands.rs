use cookie_bot::backup::{BackupError, Backups};
use cookie_bot::commands::{
    command_backup, command_details, command_resume, command_screenshot, command_start,
    command_stop, handle_command, is_user_admin, Command, CommandHandlerError,
};
use cookie_bot::cookie_clicker::{CookieClicker, CookieClickerError};
use cookie_bot::tasks::{backup_tick, SchedulerOutcome};

fn fresh_clicker(capacity: usize) -> CookieClicker {
    CookieClicker::new(Backups::new(capacity))
}

#[test]
fn commands_decode_to_the_closed_set() {
    assert_eq!(
        handle_command("/start ABC"),
        Ok(Command::Start("ABC".to_string()))
    );
    assert_eq!(handle_command("/start"), Ok(Command::Start("".to_string())));
    assert_eq!(
        handle_command("/start two words"),
        Ok(Command::Start("two words".to_string()))
    );
    assert_eq!(handle_command("/resume"), Ok(Command::Resume));
    assert_eq!(handle_command("/screenshot"), Ok(Command::Screenshot));
    assert_eq!(handle_command("/details"), Ok(Command::Details));
    assert_eq!(handle_command("/backup"), Ok(Command::Backup));
    assert_eq!(handle_command("/stop"), Ok(Command::Stop));
    // extra arguments do not change the verb
    assert_eq!(handle_command("/stop now"), Ok(Command::Stop));
}

#[test]
fn unknown_commands_are_invalid() {
    for bad in ["", "/nope", "start", "/Start", "/ start", "hello there"] {
        assert_eq!(
            handle_command(bad),
            Err(CommandHandlerError::InvalidCommand),
            "accepted: {:?}",
            bad
        );
    }
}

#[test]
fn start_is_refused_while_active() {
    let mut clicker = fresh_clicker(4);
    assert_eq!(command_start(&mut clicker, "ABC".to_string()), Ok(()));
    assert!(clicker.is_started());
    assert_eq!(
        command_start(&mut clicker, "DEF".to_string()),
        Err(CommandHandlerError::InstanceAlreadyStarted)
    );
}

#[test]
fn queries_are_refused_while_inactive() {
    let mut clicker = fresh_clicker(4);
    assert_eq!(
        command_screenshot(&clicker),
        Err(CommandHandlerError::InstanceNotStarted)
    );
    assert_eq!(
        command_details(&clicker),
        Err(CommandHandlerError::InstanceNotStarted)
    );
    assert_eq!(
        command_backup(&mut clicker, "X".to_string()),
        Err(CommandHandlerError::InstanceNotStarted)
    );
    assert_eq!(
        command_stop(&mut clicker, "X".to_string()),
        Err(CommandHandlerError::InstanceNotStarted)
    );
}

#[test]
fn resume_with_empty_store_moves_nothing() {
    let mut clicker = fresh_clicker(4);
    assert_eq!(
        command_resume(&mut clicker),
        Err(CommandHandlerError::NoBackupsFound)
    );
    // no session mutation at all
    assert!(!clicker.is_started());
    assert_eq!(clicker.backups.len(), 0);
}

#[test]
fn resume_is_refused_while_active() {
    let mut clicker = fresh_clicker(4);
    command_start(&mut clicker, "ABC".to_string()).unwrap();
    assert_eq!(
        command_resume(&mut clicker),
        Err(CommandHandlerError::InstanceAlreadyStarted)
    );
}

#[test]
fn explicit_backup_reports_encode_failures() {
    let mut clicker = fresh_clicker(4);
    command_start(&mut clicker, "ABC".to_string()).unwrap();
    assert_eq!(
        command_backup(&mut clicker, "".to_string()),
        Err(CommandHandlerError::CookieClicker(
            CookieClickerError::BackupError(BackupError::EncodeError)
        ))
    );
    assert_eq!(clicker.backups.len(), 0);
}

#[test]
fn stop_returns_the_observed_code() {
    let mut clicker = fresh_clicker(4);
    command_start(&mut clicker, "ABC".to_string()).unwrap();
    let stopped = command_stop(&mut clicker, "FINAL".to_string()).unwrap();
    assert_eq!(stopped, "FINAL");
    assert!(!clicker.is_started());
}

#[test]
fn concurrent_backup_and_stop_serialize() {
    // two requests race for the same active session; the coordinator's lock
    // admits them in one order or the other, never interleaved: each outcome
    // must equal one of the two serial executions
    let observed = "TOK";

    // order one: the backup acquires first, then the stop
    let mut clicker = fresh_clicker(4);
    command_start(&mut clicker, observed.to_string()).unwrap();
    assert_eq!(command_backup(&mut clicker, observed.to_string()), Ok(()));
    let stopped = command_stop(&mut clicker, observed.to_string()).unwrap();
    assert_eq!(stopped, observed);
    assert_eq!(clicker.backups.len(), 1);
    assert_eq!(clicker.backups.latest_code().unwrap(), observed);

    // order two: the stop acquires first; the backup then finds no session
    let mut clicker = fresh_clicker(4);
    command_start(&mut clicker, observed.to_string()).unwrap();
    let stopped = command_stop(&mut clicker, observed.to_string()).unwrap();
    assert_eq!(stopped, observed);
    assert_eq!(
        command_backup(&mut clicker, observed.to_string()),
        Err(CommandHandlerError::InstanceNotStarted)
    );
    assert_eq!(clicker.backups.len(), 0);
}

#[test]
fn scheduler_skips_an_idle_session_forever() {
    let mut clicker = fresh_clicker(4);
    for _ in 0..100 {
        assert_eq!(backup_tick(&mut clicker, None), SchedulerOutcome::Idle);
    }
    assert!(!clicker.is_started());
    assert_eq!(clicker.backups.len(), 0);
}

#[test]
fn scheduler_backs_up_an_active_session_and_survives_failures() {
    let mut clicker = fresh_clicker(4);
    command_start(&mut clicker, "S0".to_string()).unwrap();
    assert_eq!(
        backup_tick(&mut clicker, Some("S1".to_string())),
        SchedulerOutcome::BackedUp
    );
    assert_eq!(clicker.backups.latest_code().unwrap(), "S1");
    // a failed read is reported and changes nothing
    assert_eq!(backup_tick(&mut clicker, None), SchedulerOutcome::ReadFailed);
    assert_eq!(clicker.backups.len(), 1);
    // an unframable code is reported and changes nothing
    assert_eq!(
        backup_tick(&mut clicker, Some("".to_string())),
        SchedulerOutcome::StoreFailed
    );
    assert_eq!(clicker.backups.len(), 1);
    assert!(clicker.is_started());
}

#[test]
fn start_backup_resume_across_a_restart() {
    // first process: start with a known code, back it up, persist
    let mut clicker = CookieClicker::new(Backups::load(None, 16).unwrap());
    command_start(&mut clicker, "ABC".to_string()).unwrap();
    assert_eq!(command_backup(&mut clicker, "ABC".to_string()), Ok(()));
    let persisted = clicker.backups.encode();

    // an independent restart: reload the store from what was persisted
    let reloaded = Backups::load(Some(persisted.as_str()), 16).unwrap();
    let mut clicker = CookieClicker::new(reloaded);
    let resumed = command_resume(&mut clicker).unwrap();
    assert_eq!(resumed, "ABC");
    assert!(clicker.is_started());
}

#[test]
fn only_the_admin_matches() {
    assert!(is_user_admin(42, 42));
    assert!(!is_user_admin(41, 42));
}
