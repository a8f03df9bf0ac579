use cookie_bot::backup::{BackupError, Backups};
use cookie_bot::cookie_clicker::{
    CookieClicker, CookieClickerError, PagePoll, PollVerdict,
};

fn fresh(capacity: usize) -> CookieClicker {
    CookieClicker::new(Backups::new(capacity))
}

#[test]
fn session_alternates_between_the_two_states() {
    let mut clicker = fresh(4);
    assert!(!clicker.is_started());

    assert_eq!(clicker.start("A".to_string()), Ok(()));
    assert!(clicker.is_started());

    // a second start without an intervening stop is refused
    assert_eq!(
        clicker.start("B".to_string()),
        Err(CookieClickerError::AlreadyActive)
    );
    assert!(clicker.is_started());

    assert_eq!(clicker.exit(), Ok(()));
    assert!(!clicker.is_started());

    // a second stop is refused
    assert_eq!(clicker.exit(), Err(CookieClickerError::NotActive));
    assert!(!clicker.is_started());

    // and the machine loops for the whole process lifetime
    assert_eq!(clicker.start("C".to_string()), Ok(()));
    assert!(clicker.is_started());
    assert_eq!(clicker.exit(), Ok(()));
}

#[test]
fn queries_on_an_inactive_session_are_refused() {
    let mut clicker = fresh(4);
    assert_eq!(
        clicker.backup_save_code("X".to_string()),
        Err(CookieClickerError::NotActive)
    );
    assert_eq!(clicker.backups.len(), 0);
}

#[test]
fn backup_stores_the_observed_code() {
    let mut clicker = fresh(4);
    clicker.start("INIT".to_string()).unwrap();
    assert_eq!(clicker.backup_save_code("OBSERVED".to_string()), Ok(()));
    assert_eq!(clicker.backups.len(), 1);
    assert_eq!(clicker.backups.latest_code().unwrap(), "OBSERVED");
    // the session stays active and the store error path moves nothing
    assert!(clicker.is_started());
    assert_eq!(
        clicker.backup_save_code("".to_string()),
        Err(CookieClickerError::BackupError(BackupError::EncodeError))
    );
    assert_eq!(clicker.backups.len(), 1);
}

#[test]
fn driver_failures_are_reportable() {
    // the error the driver loop reports when the transport itself fails
    let e = CookieClickerError::DriverError("connection refused".to_string());
    assert!(e != CookieClickerError::NotActive);
    let io = BackupError::IoError;
    assert!(io != BackupError::EncodeError);
}

#[test]
fn page_poll_is_bounded() {
    let mut poll = PagePoll::new(3);
    assert_eq!(poll.observe(false), PollVerdict::Retry);
    assert_eq!(poll.observe(false), PollVerdict::Retry);
    assert_eq!(poll.observe(false), PollVerdict::TimedOut);

    let mut poll = PagePoll::new(3);
    assert_eq!(poll.observe(false), PollVerdict::Retry);
    assert_eq!(poll.observe(true), PollVerdict::Ready);

    let mut poll = PagePoll::new(1);
    assert_eq!(poll.observe(false), PollVerdict::TimedOut);
}
