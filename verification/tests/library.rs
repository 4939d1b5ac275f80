use keyrot::audit;
use keyrot::util;
use keyrot::util::{lock_step, LockAction, LockAttempt, LOCK_ATTEMPTS};
use keyrot::vault::{Disk, Error, Store};

fn ready_store(pass: &str) -> Store {
    let mut store = Store::new("keyrot-test.vault".to_string());
    store.init(pass).unwrap();
    store
}

#[test]
fn store_paths() {
    let store = Store::new("data/keyrot.vault".to_string());
    assert_eq!(store.path(), "data/keyrot.vault");
    assert_eq!(store.audit_path(), "data/keyrot.vault.audit");
    assert!(!store.vault_exists());
    assert!(store.log().is_empty());
}

#[test]
fn digest_has_the_documented_layout() {
    let hash = audit::digest(1, 100, "init", "", audit::GENESIS);
    assert_eq!(hash, "f501dd8cf62d046590ac5c2628ea5c9ee9feafc78f207095cf9fd8054f4c9683");
}

#[test]
fn append_chains_entries() {
    let mut log = Vec::new();
    let first = audit::append(&mut log, "init", "", 100);
    assert_eq!(first.seq, 1);
    assert_eq!(first.prev, audit::GENESIS);
    assert_eq!(first.hash, "f501dd8cf62d046590ac5c2628ea5c9ee9feafc78f207095cf9fd8054f4c9683");
    let second = audit::append(&mut log, "put", "api", 200);
    assert_eq!(second.seq, 2);
    assert_eq!(second.prev, first.hash);
    assert_eq!(second.hash, audit::digest(2, 200, "put", "api", &first.hash));
    assert_eq!(log.len(), 2);
}

#[test]
fn verify_messages_name_the_broken_entry() {
    let mut log = Vec::new();
    audit::append(&mut log, "init", "", 100);
    audit::append(&mut log, "put", "a", 200);
    audit::append(&mut log, "put", "b", 300);
    assert_eq!(audit::verify(&log), Ok(3));

    let empty: Vec<audit::Entry> = Vec::new();
    assert_eq!(
        audit::verify(&empty),
        Err("audit log is empty or missing (expected at least the init entry)".to_string())
    );

    let mut removed = log.clone();
    removed.remove(1);
    assert_eq!(audit::verify(&removed), Err("entry 2: bad sequence 3".to_string()));

    let mut relinked = log.clone();
    relinked[2].prev = "0000".to_string();
    assert_eq!(audit::verify(&relinked), Err("entry 3: broken chain link".to_string()));

    let mut renumbered = log.clone();
    renumbered[1].seq = 7;
    assert_eq!(audit::verify(&renumbered), Err("entry 2: bad sequence 7".to_string()));

    let mut edited = log.clone();
    edited[0].ts = 101;
    assert_eq!(audit::verify(&edited), Err("entry 1: hash mismatch (tampered)".to_string()));

    let mut rehashed = log.clone();
    rehashed[1].hash = "ff".to_string();
    assert!(audit::verify(&rehashed).is_err());

    let truncated: Vec<audit::Entry> = log[..2].to_vec();
    assert_eq!(audit::verify(&truncated), Ok(2));
}

#[test]
fn base64_of_known_bytes() {
    assert_eq!(util::b64(b"hello"), "aGVsbG8=");
    assert_eq!(util::unb64("aGVsbG8="), Some(b"hello".to_vec()));
    assert_eq!(util::unb64("not base64!"), None);
}

#[test]
fn line_endings_are_trimmed() {
    let mut value = b"secret\r\n\n".to_vec();
    util::trim_line_endings(&mut value);
    assert_eq!(value, b"secret");
    let mut only = b"\n\r".to_vec();
    util::trim_line_endings(&mut only);
    assert!(only.is_empty());
    let mut inner = b"a\nb".to_vec();
    util::trim_line_endings(&mut inner);
    assert_eq!(inner, b"a\nb");
}

#[test]
fn clock_readings_before_the_epoch_count_as_zero() {
    assert_eq!(util::epoch_seconds(Some(1_700_000_000)), 1_700_000_000);
    assert_eq!(util::epoch_seconds(None), 0);
}

#[test]
fn clock_is_after_the_epoch() {
    assert!(util::now() > 1_600_000_000);
}

#[test]
fn missing_unreadable_and_malformed_files() {
    let mut missing = Store::new("m.vault".to_string());
    assert!(matches!(missing.get("p", "x", None), Err(Error::NotInitialized)));

    let mut unreadable = Store::open("u.vault".to_string(), Disk::Unreadable, Vec::new());
    assert!(unreadable.vault_exists());
    assert!(matches!(unreadable.list("p"), Err(Error::NotInitialized)));
    assert!(matches!(unreadable.init("p"), Err(Error::AlreadyInitialized)));

    let mut malformed = Store::open("b.vault".to_string(), Disk::Malformed("expected value".to_string()), Vec::new());
    match malformed.remove("p", "x") {
        Err(Error::Corrupt(what)) => assert_eq!(what, "expected value"),
        other => panic!("unexpected {other:?}"),
    }
}

#[test]
fn init_records_one_entry_and_writes_record_more() {
    let mut store = ready_store("pw");
    assert_eq!(store.log().len(), 1);
    assert_eq!(store.log()[0].action, "init");
    assert_eq!(store.log()[0].target, "");
    store.put("pw", "db", b"one").unwrap();
    store.list("pw").unwrap();
    store.history("pw", "db").unwrap();
    assert!(store.history("pw", "other").is_err());
    store.get("pw", "db", None).unwrap();
    assert!(store.get("pw", "other", None).is_err());
    store.rotate("pw", "db", b"two").unwrap();
    store.remove("pw", "db").unwrap();
    let actions: Vec<&str> = store.log().iter().map(|e| e.action.as_str()).collect();
    assert_eq!(actions, vec!["init", "put", "ls", "history", "get", "rotate", "rm"]);
    assert_eq!(store.log()[3].target, "db");
    assert_eq!(audit::verify(store.log()), Ok(7));
}

#[test]
fn failed_operations_change_nothing() {
    let mut store = ready_store("pw");
    store.put("pw", "db", b"one").unwrap();
    assert!(matches!(store.put("wrong", "db", b"two"), Err(Error::WrongPassphrase)));
    assert!(matches!(store.remove("pw", "nothing"), Err(Error::NotFound(_))));
    assert_eq!(store.log().len(), 2);
    assert_eq!(store.history("pw", "db").unwrap().len(), 1);
    assert_eq!(store.log().len(), 3);
    assert_eq!(store.get("pw", "db", None).unwrap(), b"one");
}

#[test]
fn listing_follows_name_order() {
    let mut store = ready_store("pw");
    store.put("pw", "zeta", b"z").unwrap();
    store.put("pw", "alpha", b"a").unwrap();
    store.put("pw", "mid", b"m").unwrap();
    let names: Vec<String> = store.list("pw").unwrap().into_iter().map(|(n, _, _)| n).collect();
    assert_eq!(names, vec!["alpha", "mid", "zeta"]);
}

#[test]
fn earlier_versions_stay_readable() {
    let mut store = ready_store("pw");
    assert_eq!(store.put("pw", "k", b"first").unwrap(), 1);
    assert_eq!(store.put("pw", "k", b"second").unwrap(), 2);
    assert_eq!(store.rotate("pw", "k", b"third").unwrap(), 3);
    assert_eq!(store.get("pw", "k", Some(1)).unwrap(), b"first");
    assert_eq!(store.get("pw", "k", Some(2)).unwrap(), b"second");
    assert_eq!(store.get("pw", "k", None).unwrap(), b"third");
    let rows: Vec<u32> = store.history("pw", "k").unwrap().into_iter().map(|(v, _)| v).collect();
    assert_eq!(rows, vec![1, 2, 3]);
    match store.get("pw", "k", Some(7)) {
        Err(Error::NotFound(what)) => assert_eq!(what, "k@7"),
        other => panic!("unexpected {other:?}"),
    }
    match store.history("pw", "nope") {
        Err(Error::NotFound(what)) => assert_eq!(what, "nope"),
        other => panic!("unexpected {other:?}"),
    }
}

#[test]
fn wrong_passphrase_is_refused_everywhere() {
    let mut store = ready_store("right");
    store.put("right", "a", b"1").unwrap();
    assert!(matches!(store.list("wrong"), Err(Error::WrongPassphrase)));
    assert!(matches!(store.history("wrong", "a"), Err(Error::WrongPassphrase)));
    assert!(matches!(store.rotate("wrong", "a", b"2"), Err(Error::WrongPassphrase)));
    assert!(matches!(store.remove("wrong", "a"), Err(Error::WrongPassphrase)));
}

#[test]
fn unsupported_format_and_damaged_fields() {
    let store = ready_store("pw");
    let (path, disk, log) = store.into_parts();
    let vault = match disk {
        Disk::Parsed(v) => v,
        _ => panic!("the vault was just written"),
    };

    let mut old_format = vault.clone();
    old_format.format = 1;
    let mut store = Store::open(path.clone(), Disk::Parsed(old_format), log.clone());
    match store.list("pw") {
        Err(Error::Corrupt(what)) => assert_eq!(what, "unsupported vault format 1 (re-init required)"),
        other => panic!("unexpected {other:?}"),
    }

    let mut bad_salt = vault.clone();
    bad_salt.kdf.salt = "AAAA".to_string();
    let mut store = Store::open(path.clone(), Disk::Parsed(bad_salt), log.clone());
    match store.list("pw") {
        Err(Error::Corrupt(what)) => assert_eq!(what, "salt"),
        other => panic!("unexpected {other:?}"),
    }

    let mut bad_nonce = vault.clone();
    bad_nonce.dek.nonce = "%".to_string();
    let mut store = Store::open(path.clone(), Disk::Parsed(bad_nonce), log.clone());
    match store.list("pw") {
        Err(Error::Corrupt(what)) => assert_eq!(what, "dek nonce"),
        other => panic!("unexpected {other:?}"),
    }
}

#[test]
fn version_counter_overflow_is_reported() {
    let mut store = ready_store("pw");
    store.put("pw", "k", b"v").unwrap();
    let (path, disk, log) = store.into_parts();
    let mut vault = match disk {
        Disk::Parsed(v) => v,
        _ => panic!("the vault was just written"),
    };
    vault.secrets[0].1.current = u32::MAX;
    let mut store = Store::open(path, Disk::Parsed(vault), log);
    match store.rotate("pw", "k", b"w") {
        Err(Error::Corrupt(what)) => assert_eq!(what, "version counter overflow"),
        other => panic!("unexpected {other:?}"),
    }
}

#[test]
fn unordered_secrets_are_reported() {
    let mut store = ready_store("pw");
    store.put("pw", "a", b"1").unwrap();
    store.put("pw", "b", b"2").unwrap();
    let (path, disk, log) = store.into_parts();
    let mut vault = match disk {
        Disk::Parsed(v) => v,
        _ => panic!("the vault was just written"),
    };
    vault.secrets.swap(0, 1);
    let mut store = Store::open(path, Disk::Parsed(vault), log);
    match store.list("pw") {
        Err(Error::Corrupt(what)) => assert_eq!(what, "secret names out of order"),
        other => panic!("unexpected {other:?}"),
    }
}

#[test]
fn error_messages() {
    assert_eq!(Error::Io("disk full".to_string()).message(), "io error: disk full");
    assert_eq!(Error::NotInitialized.message(), "vault not initialized (run `keyrot init`)");
    assert_eq!(Error::AlreadyInitialized.message(), "vault already exists");
    assert_eq!(Error::WrongPassphrase.message(), "wrong passphrase");
    assert_eq!(Error::Corrupt("salt".to_string()).message(), "corrupt vault: salt");
    assert_eq!(Error::NotFound("db".to_string()).message(), "secret not found: db");
}

#[test]
fn sealing_adds_a_tag_and_hides_the_value() {
    let key = keyrot::crypto::derive_key("pw", &[7u8; 16]);
    assert_eq!(key.len(), keyrot::crypto::KEY_LEN);
    assert_eq!(key, keyrot::crypto::derive_key("pw", &[7u8; 16]));
    assert_ne!(key, keyrot::crypto::derive_key("pw", &[8u8; 16]));
    let (nonce, ct) = keyrot::crypto::seal(&key, b"value", b"aad").expect("a nonce was drawn");
    assert_eq!(nonce.len(), keyrot::crypto::NONCE_LEN);
    assert_eq!(ct.len(), 5 + keyrot::crypto::TAG_LEN);
    assert_ne!(&ct[..5], b"value");
    assert_eq!(keyrot::crypto::open(&key, &nonce, &ct, b"aad"), Some(b"value".to_vec()));
    assert!(keyrot::crypto::open(&key, &nonce[..11], &ct, b"aad").is_none());
    assert!(keyrot::crypto::open(&key[..31], &nonce, &ct, b"aad").is_none());
    assert_eq!(keyrot::crypto::random(40).map(|b| b.len()), Some(40));
}

#[test]
fn lock_steps() {
    assert!(matches!(lock_step(1, LockAttempt::Created, "v"), LockAction::Hold));
    assert!(matches!(lock_step(1, LockAttempt::Busy, "v"), LockAction::WaitAndRetry));
    match lock_step(LOCK_ATTEMPTS, LockAttempt::Busy, "v") {
        LockAction::WaitAndGiveUp(m) => assert_eq!(m, "v is locked by another process"),
        _ => panic!("expected to give up"),
    }
    match lock_step(3, LockAttempt::Failed("denied".to_string()), "v") {
        LockAction::GiveUp(m) => assert_eq!(m, "denied"),
        _ => panic!("expected to give up"),
    }
}

#[test]
fn a_data_key_of_the_wrong_length_still_opens_but_cannot_seal() {
    let store = ready_store("pw");
    let (path, disk, log) = store.into_parts();
    let mut vault = match disk {
        Disk::Parsed(v) => v,
        _ => panic!("the vault was just written"),
    };
    let salt = util::unb64(&vault.kdf.salt).unwrap();
    let kek = keyrot::crypto::derive_key("pw", &salt);
    let (nonce, ct) = keyrot::crypto::seal(&kek, b"short", b"keyrot/dek").expect("a nonce was drawn");
    vault.dek.nonce = util::b64(&nonce);
    vault.dek.ct = util::b64(&ct);
    let mut store = Store::open(path, Disk::Parsed(vault), log);
    assert!(store.list("pw").unwrap().is_empty());
    match store.put("pw", "k", b"v") {
        Err(Error::Corrupt(what)) => assert_eq!(what, "dek"),
        other => panic!("unexpected {other:?}"),
    }
}

#[test]
fn base64_length_follows_groups_of_three() {
    assert_eq!(util::b64(b"hi"), "aGk=");
    assert_eq!(util::b64(b""), "");
    assert_eq!(util::b64(b"abcd").len(), 8);
}

#[test]
fn a_new_vault_takes_its_first_write() {
    let mut store = ready_store("pw");
    match store.rotate("pw", "fresh", b"v") {
        Err(Error::NotFound(name)) => assert_eq!(name, "fresh"),
        other => panic!("unexpected {other:?}"),
    }
    assert_eq!(store.put("pw", "fresh", b"v").unwrap(), 1);
    assert_eq!(store.get("pw", "fresh", Some(1)).unwrap(), b"v".to_vec());
}

#[test]
fn a_missing_random_source_reads_as_an_io_error() {
    let e = Error::Io("random source unavailable".to_string());
    assert_eq!(e.message(), "io error: random source unavailable");
}
