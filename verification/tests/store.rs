use cookie_bot::backup::{BackupError, Backups};

/// Codes of the store's entries, oldest first, read back through the
/// persisted text.
fn codes_of(store: &Backups) -> Vec<String> {
    let text = store.encode();
    text.lines()
        .map(|line| line.splitn(2, ' ').nth(1).unwrap().to_string())
        .collect()
}

#[test]
fn empty_store() {
    let store = Backups::new(4);
    assert_eq!(store.len(), 0);
    assert_eq!(store.capacity(), 4);
    assert!(store.latest_backup().is_none());
    assert!(store.latest_code().is_none());
    assert_eq!(store.encode(), "");
}

#[test]
fn add_and_latest() {
    let mut store = Backups::new(4);
    store.add(cookie_bot::backup::Backup::new("one".to_string())).unwrap();
    store.add(cookie_bot::backup::Backup::new("two".to_string())).unwrap();
    assert_eq!(store.len(), 2);
    assert_eq!(store.latest_backup().unwrap().save_code, "two");
    assert_eq!(store.latest_code().unwrap(), "two");
    assert_eq!(codes_of(&store), vec!["one".to_string(), "two".to_string()]);
}

#[test]
fn bound_evicts_oldest_first() {
    // pushing capacity + k snapshots keeps exactly the capacity most recent,
    // oldest evicted first, insertion order preserved
    let mut store = Backups::new(3);
    for code in ["c1", "c2", "c3", "c4", "c5"] {
        store.add(cookie_bot::backup::Backup::new(code.to_string())).unwrap();
    }
    assert_eq!(store.len(), 3);
    assert_eq!(
        codes_of(&store),
        vec!["c3".to_string(), "c4".to_string(), "c5".to_string()]
    );
    assert_eq!(store.latest_code().unwrap(), "c5");
}

#[test]
fn capacity_one_keeps_only_the_newest() {
    let mut store = Backups::new(1);
    for code in ["a", "b", "c"] {
        store.add(cookie_bot::backup::Backup::new(code.to_string())).unwrap();
    }
    assert_eq!(store.len(), 1);
    assert_eq!(store.latest_code().unwrap(), "c");
}

#[test]
fn add_rejects_unframable_codes() {
    let mut store = Backups::new(2);
    store.add(cookie_bot::backup::Backup::new("good".to_string())).unwrap();
    let r = store.add(cookie_bot::backup::Backup::new("".to_string()));
    assert_eq!(r, Err(BackupError::EncodeError));
    let r = store.add(cookie_bot::backup::Backup::new("bad\ncode".to_string()));
    assert_eq!(r, Err(BackupError::EncodeError));
    // the store is unchanged by the refused pushes
    assert_eq!(store.len(), 1);
    assert_eq!(store.latest_code().unwrap(), "good");
}

#[test]
fn load_absent_storage_gives_empty_store() {
    let store = Backups::load(None, 7).unwrap();
    assert_eq!(store.len(), 0);
    assert_eq!(store.capacity(), 7);
}

#[test]
fn load_is_inverse_of_encode() {
    let mut store = Backups::new(5);
    for code in ["alpha", "beta with spaces", "gamma!END!"] {
        store.add(cookie_bot::backup::Backup::new(code.to_string())).unwrap();
    }
    let text = store.encode();
    let reloaded = Backups::load(Some(text.as_str()), 5).unwrap();
    assert_eq!(reloaded.encode(), text);
    assert_eq!(reloaded.len(), 3);
    assert_eq!(reloaded.latest_code().unwrap(), "gamma!END!");
    assert_eq!(codes_of(&reloaded), codes_of(&store));
}

#[test]
fn load_exact_text_round_trips() {
    // timestamps parse exactly, negative ones included, and a code may hold
    // spaces
    let text = "12 abc\n-5 xy z\n1431648000 tail\n";
    let store = Backups::load(Some(text), 10).unwrap();
    assert_eq!(store.len(), 3);
    assert_eq!(store.latest_code().unwrap(), "tail");
    assert_eq!(store.encode(), text);
}

#[test]
fn load_keeps_newest_when_over_capacity() {
    let text = "1 a\n2 b\n3 c\n4 d\n";
    let store = Backups::load(Some(text), 2).unwrap();
    assert_eq!(store.len(), 2);
    assert_eq!(codes_of(&store), vec!["c".to_string(), "d".to_string()]);
}

#[test]
fn load_rejects_malformed_text() {
    for bad in [
        "\n",                 // an empty record
        "garbage\n",          // no space-separated timestamp
        "12 code",            // record not terminated
        "x1 code\n",          // not a number
        "007 code\n",         // non-canonical numeral
        "12 \n",              // empty save code
        " code\n",            // empty numeral
        "99999999999999999999 code\n", // numeral beyond the timestamp range
        "-0 code\n",          // not a canonical negative numeral
    ] {
        let r = Backups::load(Some(bad), 4);
        assert!(
            matches!(r, Err(BackupError::DecodeError)),
            "accepted: {:?}",
            bad
        );
    }
}

#[test]
fn saved_at_renders_in_the_named_zone() {
    // a fixed instant read back from persisted text, rendered by the
    // timezone machinery: the rendering must reflect the instant
    let store = Backups::load(Some("1431648000 code\n"), 2).unwrap();
    let snap = store.latest_backup().unwrap();
    let shown = snap.saved_at("UTC").unwrap();
    assert!(shown.contains("2015-05-15"), "got: {}", shown);
    let rome = snap.saved_at("Europe/Rome").unwrap();
    assert!(rome.contains("2015-05-15"), "got: {}", rome);
    assert!(rome != shown, "zone made no difference: {}", rome);
    assert!(snap.saved_at("Not/AZone").is_none());
}

#[test]
fn backup_new_captures_the_code() {
    let b = cookie_bot::backup::Backup::new("somecode".to_string());
    assert_eq!(b.save_code, "somecode");
    // the capture time is whatever the clock gave; it must render in UTC
    assert!(b.saved_at("UTC").is_some());
}
