use keyrot::audit;
use keyrot::crypto;
use keyrot::vault::{Disk, Error, Store};

fn new_store(tag: &str) -> Store {
    Store::new(format!("keyrot-{tag}.vault"))
}

#[test]
fn crypto_roundtrip_and_wrong_key() {
    let salt = crypto::random(crypto::SALT_LEN).expect("random bytes");
    let key = crypto::derive_key("correct horse", &salt);
    let (nonce, ct) = crypto::seal(&key[..], b"top secret", b"ctx").expect("a nonce was drawn");
    assert_eq!(
        crypto::open(&key[..], &nonce, &ct, b"ctx").as_deref(),
        Some(&b"top secret"[..])
    );
    assert!(crypto::open(&key[..], &nonce, &ct, b"other").is_none());

    let wrong = crypto::derive_key("battery staple", &salt);
    assert!(crypto::open(&wrong[..], &nonce, &ct, b"ctx").is_none());
}

#[test]
fn vault_put_get_rotate_versions() {
    let mut store = new_store("rt");
    let pass = "hunter2";

    store.init(pass).unwrap();
    assert!(matches!(store.init(pass), Err(Error::AlreadyInitialized)));

    assert_eq!(store.put(pass, "api", b"v1").unwrap(), 1);
    assert_eq!(store.get(pass, "api", None).unwrap(), b"v1");
    assert_eq!(store.rotate(pass, "api", b"v2").unwrap(), 2);
    assert_eq!(store.get(pass, "api", None).unwrap(), b"v2");
    assert_eq!(store.get(pass, "api", Some(1)).unwrap(), b"v1");

    assert!(matches!(
        store.get("nope", "api", None),
        Err(Error::WrongPassphrase)
    ));
    assert!(matches!(
        store.rotate(pass, "ghost", b"x"),
        Err(Error::NotFound(_))
    ));
}

#[test]
fn list_history_remove_and_missing_version() {
    let mut store = new_store("ops");
    let pass = "hunter2";

    store.init(pass).unwrap();
    store.put(pass, "alpha", b"a1").unwrap();
    store.put(pass, "beta", b"b1").unwrap();
    store.rotate(pass, "alpha", b"a2").unwrap();

    let mut listed = store.list(pass).unwrap();
    listed.sort();
    assert_eq!(
        listed,
        vec![("alpha".to_string(), 2, 2), ("beta".to_string(), 1, 1)]
    );

    let versions: Vec<u32> = store
        .history(pass, "alpha")
        .unwrap()
        .into_iter()
        .map(|(v, _ts)| v)
        .collect();
    assert_eq!(versions, vec![1, 2]);

    assert!(matches!(
        store.get(pass, "alpha", Some(9)),
        Err(Error::NotFound(_))
    ));

    store.remove(pass, "alpha").unwrap();
    assert!(store
        .list(pass)
        .unwrap()
        .iter()
        .all(|(n, _, _)| n != "alpha"));
    assert!(matches!(
        store.get(pass, "alpha", None),
        Err(Error::NotFound(_))
    ));
}

#[test]
fn get_rejects_cross_slot_ciphertext_swap() {
    let mut store = new_store("swap");
    let pass = "hunter2";

    store.init(pass).unwrap();
    store.put(pass, "alpha", b"AAAA").unwrap();
    store.put(pass, "beta", b"BBBB").unwrap();

    let (path, disk, log) = store.into_parts();
    let mut vault = match disk {
        Disk::Parsed(v) => v,
        _ => panic!("the vault was just written"),
    };
    let a = vault.secrets[0].1.versions[0].clone();
    let b = vault.secrets[1].1.versions[0].clone();
    assert_eq!(vault.secrets[0].0, "alpha");
    vault.secrets[0].1.versions[0].nonce = b.nonce.clone();
    vault.secrets[0].1.versions[0].ct = b.ct.clone();
    vault.secrets[1].1.versions[0].nonce = a.nonce.clone();
    vault.secrets[1].1.versions[0].ct = a.ct.clone();
    let mut store = Store::open(path, Disk::Parsed(vault), log);

    assert!(matches!(
        store.get(pass, "alpha", None),
        Err(Error::Corrupt(_))
    ));
}

#[test]
fn verify_rejects_empty_or_missing_log() {
    let log: Vec<audit::Entry> = Vec::new();
    assert!(audit::verify(&log).is_err());
}

#[test]
fn audit_chain_detects_tampering() {
    let mut log = Vec::new();
    audit::append(&mut log, "init", "", 100);
    audit::append(&mut log, "put", "api", 200);
    assert_eq!(audit::verify(&log).unwrap(), 2);

    log[1].target = "evil".to_string();
    assert!(audit::verify(&log).is_err());
}
