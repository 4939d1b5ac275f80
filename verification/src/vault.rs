//! The vault: envelope encryption of a data key under a passphrase, versioned
//! secrets sealed with that key, and an audit entry for every change.
//!
//! A `Store` holds what was read from the vault file and the audit log of one vault;
//! its operations work on that content and leave in it what should be written back.
use vstd::bytes::{
    spec_u32_from_le_bytes, spec_u32_to_le_bytes, spec_u64_from_le_bytes, spec_u64_to_le_bytes, u32_to_le_bytes, u64_to_le_bytes,
};
use vstd::prelude::*;
use vstd::string::StringExecFns;
use vstd::utf8::encode_utf8;

use crate::audit::{append, append_keeps_the_chain_valid, has_room, log_view, next_entry, verify_spec, Entry, EntryV};
use crate::crypto::{
    aes256gcm_seal, argon2id_key, derive_key, open, open_spec, random, seal, wipe, KEY_LEN, MAX_SEALED_LEN, NONCE_LEN,
    SALT_LEN, TAG_LEN,
};
use crate::model::{
    all_consecutive, lemma_consecutive_find, versions_consecutive, bytes_lt, check_names_sorted, find_name, find_secret, find_version, find_version_index, insert_pos,
    insert_position, lemma_find_after_insert, lemma_find_after_remove, lemma_find_name, lemma_find_version,
    lemma_find_version_push, lemma_name_key_injective, lemma_sorted_find, lemma_sorted_insert, lemma_sorted_remove, lemma_sorted_update,
    name_key, names_sorted, secrets_view, versions_numbered, Kdf, KdfV, Sealed, SealedV, Secret, SecretV, Vault,
    VaultV, Version, VersionV,
};
use crate::text::{decimal_chars, extend_bytes, push_decimal};
use crate::util::{b64, base64_decode, base64_encode, now, unb64};

verus! {

/// The vault file format that this library reads and writes.
pub const FORMAT: u32 = 2;

/// Associated data that binds the sealed data key to its role.
pub const DEK_AAD: &'static str = "keyrot/dek";

/// The associated data of the sealed data key.
pub open spec fn dek_aad() -> Seq<u8> {
    encode_utf8(DEK_AAD@)
}

/// Why an operation on the vault failed.
#[derive(Debug)]
pub enum Error {
    Io(String),
    NotInitialized,
    AlreadyInitialized,
    WrongPassphrase,
    Corrupt(String),
    NotFound(String),
}

/// An error as a value.
pub enum Fault {
    Io(Seq<char>),
    NotInitialized,
    AlreadyInitialized,
    WrongPassphrase,
    Corrupt(Seq<char>),
    NotFound(Seq<char>),
}

impl View for Error {
    type V = Fault;

    open spec fn view(&self) -> Fault {
        match self {
            Error::Io(e) => Fault::Io(e@),
            Error::NotInitialized => Fault::NotInitialized,
            Error::AlreadyInitialized => Fault::AlreadyInitialized,
            Error::WrongPassphrase => Fault::WrongPassphrase,
            Error::Corrupt(what) => Fault::Corrupt(what@),
            Error::NotFound(name) => Fault::NotFound(name@),
        }
    }
}

/// The message that describes an error to a person.
pub open spec fn fault_message(f: Fault) -> Seq<char> {
    match f {
        Fault::Io(e) => "io error: "@ + e,
        Fault::NotInitialized => "vault not initialized (run `keyrot init`)"@,
        Fault::AlreadyInitialized => "vault already exists"@,
        Fault::WrongPassphrase => "wrong passphrase"@,
        Fault::Corrupt(what) => "corrupt vault: "@ + what,
        Fault::NotFound(name) => "secret not found: "@ + name,
    }
}

impl Error {
    /// The message that describes this error to a person.
    pub fn message(&self) -> (msg: String)
        ensures
            msg@ == fault_message(self@),
    {
        match self {
            Error::Io(e) => {
                let mut msg = String::from_str("io error: ");
                msg.append(e.as_str());
                msg
            },
            Error::NotInitialized => String::from_str("vault not initialized (run `keyrot init`)"),
            Error::AlreadyInitialized => String::from_str("vault already exists"),
            Error::WrongPassphrase => String::from_str("wrong passphrase"),
            Error::Corrupt(what) => {
                let mut msg = String::from_str("corrupt vault: ");
                msg.append(what.as_str());
                msg
            },
            Error::NotFound(name) => {
                let mut msg = String::from_str("secret not found: ");
                msg.append(name.as_str());
                msg
            },
        }
    }
}

/// An outcome with its error taken as a value.
pub open spec fn outcome<T>(r: Result<T, Error>) -> Result<T, Fault> {
    match r {
        Ok(x) => Ok(x),
        Err(e) => Err(e@),
    }
}

/// Associated data for version `version` of secret `name`: the name's byte length
/// (8 bytes, little-endian), the name's bytes, and the version (4 bytes, little-endian).
/// It binds a sealed value to its slot, so that it opens nowhere else.
pub open spec fn context_spec(name: Seq<char>, version: u32) -> Seq<u8> {
    spec_u64_to_le_bytes(encode_utf8(name).len() as u64) + encode_utf8(name) + spec_u32_to_le_bytes(version)
}

fn context(name: &str, version: u32) -> (aad: Vec<u8>)
    ensures
        aad@ == context_spec(name@, version),
        aad@.len() == encode_utf8(name@).len() + 12,
{
    let bytes = name.as_bytes();
    let mut aad = u64_to_le_bytes(bytes.len() as u64);
    extend_bytes(&mut aad, bytes);
    let mut tail = u32_to_le_bytes(version);
    aad.append(&mut tail);
    aad
}

/// The associated data of version `version` of `name`, the layout that every vault
/// seals its values under: its first 8 bytes read, little-endian, as the byte length of
/// the name's UTF-8 encoding; the next bytes, that many, are the encoding; the last 4
/// bytes read, little-endian, as the version; nothing else.
pub proof fn slot_context_layout(name: Seq<char>, version: u32)
    requires
        encode_utf8(name).len() <= u64::MAX,
    ensures
        ({
            let aad = context_spec(name, version);
            let n = encode_utf8(name).len();
            &&& aad.len() == n + 12
            &&& spec_u64_from_le_bytes(aad.subrange(0, 8)) == n
            &&& aad.subrange(8, 8 + n as int) == encode_utf8(name)
            &&& spec_u32_from_le_bytes(aad.subrange(8 + n as int, 12 + n as int)) == version
        }),
{
    vstd::bytes::lemma_auto_spec_u64_to_from_le_bytes();
    vstd::bytes::lemma_auto_spec_u32_to_from_le_bytes();
    let e = encode_utf8(name);
    let aad = context_spec(name, version);
    let n = e.len() as int;
    assert(aad.subrange(0, 8) == spec_u64_to_le_bytes(e.len() as u64));
    assert(aad.subrange(8, 8 + n) == e);
    assert(aad.subrange(8 + n, 12 + n) == spec_u32_to_le_bytes(version));
}

/// The associated data of a slot names exactly one slot: two slots with the same
/// context have the same name and version, so a sealed value opens in its own slot only
/// (as far as AES-GCM's tag binds the associated data).
pub proof fn slot_contexts_are_distinct(name1: Seq<char>, version1: u32, name2: Seq<char>, version2: u32)
    requires
        encode_utf8(name1).len() <= u64::MAX,
        encode_utf8(name2).len() <= u64::MAX,
        context_spec(name1, version1) == context_spec(name2, version2),
    ensures
        name1 == name2,
        version1 == version2,
{
    vstd::bytes::lemma_auto_spec_u64_to_from_le_bytes();
    vstd::bytes::lemma_auto_spec_u32_to_from_le_bytes();
    let e1 = encode_utf8(name1);
    let e2 = encode_utf8(name2);
    let c1 = context_spec(name1, version1);
    let c2 = context_spec(name2, version2);
    assert(c1.subrange(0, 8) == spec_u64_to_le_bytes(e1.len() as u64));
    assert(c2.subrange(0, 8) == spec_u64_to_le_bytes(e2.len() as u64));
    assert(e1.len() == e2.len());
    let n = e1.len() as int;
    assert(c1.subrange(8, 8 + n) == e1);
    assert(c2.subrange(8, 8 + n) == e2);
    lemma_name_key_injective(name1, name2);
    assert(c1.subrange(8 + n, 12 + n) == spec_u32_to_le_bytes(version1));
    assert(c2.subrange(8 + n, 12 + n) == spec_u32_to_le_bytes(version2));
}

/// What reading the vault file gave.
pub enum Disk {
    /// There is no file.
    Missing,
    /// There is a file, but it could not be read.
    Unreadable,
    /// The file does not hold a vault; the parser's message.
    Malformed(String),
    /// The vault the file holds.
    Parsed(Vault),
}

pub enum DiskV {
    Missing,
    Unreadable,
    Malformed(Seq<char>),
    Parsed(VaultV),
}

impl View for Disk {
    type V = DiskV;

    open spec fn view(&self) -> DiskV {
        match self {
            Disk::Missing => DiskV::Missing,
            Disk::Unreadable => DiskV::Unreadable,
            Disk::Malformed(m) => DiskV::Malformed(m@),
            Disk::Parsed(v) => DiskV::Parsed(v@),
        }
    }
}

/// The vault that the file gives, or why it gives none. A vault whose secrets are not
/// listed in increasing name order is reported corrupt (a parsed file lists them so).
pub open spec fn opened_vault(disk: DiskV) -> Result<VaultV, Fault> {
    match disk {
        DiskV::Missing => Err(Fault::NotInitialized),
        DiskV::Unreadable => Err(Fault::NotInitialized),
        DiskV::Malformed(m) => Err(Fault::Corrupt(m)),
        DiskV::Parsed(v) => if names_sorted(v.secrets) {
            Ok(v)
        } else {
            Err(Fault::Corrupt("secret names out of order"@))
        },
    }
}

/// A passphrase that the key derivation accepts (at most `u32::MAX` bytes).
pub open spec fn passphrase_fits(passphrase: Seq<char>) -> bool {
    encode_utf8(passphrase).len() <= 0xFFFF_FFFF
}

/// Opening the vault with `passphrase`: the vault and its data key, or why not.
/// The key-encryption key is Argon2id of the passphrase and the decoded salt; the data
/// key is what it opens from the sealed `dek`.
pub open spec fn unlock_spec(disk: DiskV, passphrase: Seq<char>) -> Result<(VaultV, Seq<u8>), Fault> {
    match opened_vault(disk) {
        Err(e) => Err(e),
        Ok(v) => if v.format != FORMAT {
            Err(Fault::Corrupt("unsupported vault format "@ + decimal_chars(v.format as nat) + " (re-init required)"@))
        } else {
            match base64_decode(v.kdf.salt) {
                None => Err(Fault::Corrupt("salt"@)),
                Some(salt) => if salt.len() != SALT_LEN {
                    Err(Fault::Corrupt("salt"@))
                } else {
                    match base64_decode(v.dek.nonce) {
                        None => Err(Fault::Corrupt("dek nonce"@)),
                        Some(nonce) => match base64_decode(v.dek.ct) {
                            None => Err(Fault::Corrupt("dek"@)),
                            Some(ct) => match open_spec(argon2id_key(passphrase, salt), nonce, ct, dek_aad()) {
                                None => Err(Fault::WrongPassphrase),
                                Some(dek) => Ok((v, dek)),
                            },
                        },
                    }
                },
            }
        },
    }
}

fn corrupt(what: &str) -> (e: Error)
    ensures
        e@ == Fault::Corrupt(what@),
{
    Error::Corrupt(String::from_str(what))
}

/// Opens the vault in `disk` with `passphrase` and returns its data key.
fn unlock(disk: &Disk, passphrase: &str) -> (dek: Result<Vec<u8>, Error>)
    requires
        passphrase_fits(passphrase@),
    ensures
        match dek {
            Ok(k) => unlock_spec(disk@, passphrase@) is Ok && unlock_spec(disk@, passphrase@)->Ok_0.1 == k@,
            Err(e) => unlock_spec(disk@, passphrase@) == Err::<(VaultV, Seq<u8>), Fault>(e@),
        },
{
    let vault = match disk {
        Disk::Missing => return Err(Error::NotInitialized),
        Disk::Unreadable => return Err(Error::NotInitialized),
        Disk::Malformed(m) => return Err(Error::Corrupt(m.clone())),
        Disk::Parsed(v) => v,
    };
    if !check_names_sorted(&vault.secrets) {
        return Err(corrupt("secret names out of order"));
    }
    if vault.format != FORMAT {
        let mut msg = String::from_str("unsupported vault format ");
        push_decimal(&mut msg, vault.format as u64);
        msg.append(" (re-init required)");
        return Err(Error::Corrupt(msg));
    }
    let salt = match unb64(vault.kdf.salt.as_str()) {
        Some(s) => s,
        None => return Err(corrupt("salt")),
    };
    if salt.len() != SALT_LEN {
        return Err(corrupt("salt"));
    }
    let nonce = match unb64(vault.dek.nonce.as_str()) {
        Some(n) => n,
        None => return Err(corrupt("dek nonce")),
    };
    let ct = match unb64(vault.dek.ct.as_str()) {
        Some(c) => c,
        None => return Err(corrupt("dek")),
    };
    let mut kek = derive_key(passphrase, salt.as_slice());
    let opened = open(kek.as_slice(), nonce.as_slice(), ct.as_slice(), DEK_AAD.as_bytes());
    wipe(&mut kek);
    match opened {
        None => Err(Error::WrongPassphrase),
        Some(dek) => Ok(dek),
    }
}

/// One vault and its audit log, as read from their files.
pub struct Store {
    path: String,
    audit_path: String,
    disk: Disk,
    log: Vec<Entry>,
}

/// A store as a value.
pub struct StoreV {
    pub path: Seq<char>,
    pub audit_path: Seq<char>,
    pub disk: DiskV,
    pub log: Seq<EntryV>,
}

impl View for Store {
    type V = StoreV;

    closed spec fn view(&self) -> StoreV {
        StoreV { path: self.path@, audit_path: self.audit_path@, disk: self.disk@, log: log_view(self.log@) }
    }
}

/// The audit log's path for the vault at `path`: the vault's path with `.audit` appended.
pub open spec fn audit_path_for(path: Seq<char>) -> Seq<char> {
    path + ".audit"@
}

/// The largest value that can be stored: AES-GCM's limit, with room for its base64 text.
pub open spec fn value_fits(len: nat) -> bool {
    len <= MAX_SEALED_LEN && len + TAG_LEN <= usize::MAX / 2
}

/// A name whose slot context AES-GCM accepts as associated data.
pub open spec fn name_fits(name: Seq<char>) -> bool {
    encode_utf8(name).len() + 12 <= MAX_SEALED_LEN
}

/// The version that writing `value` as version `version` of `name` stores.
pub open spec fn sealed_version(
    dek: Seq<u8>,
    name: Seq<char>,
    value: Seq<u8>,
    version: u32,
    nonce: Seq<u8>,
    created_at: u64,
) -> VersionV {
    VersionV {
        version,
        created_at,
        nonce: base64_encode(nonce),
        ct: base64_encode(aes256gcm_seal(dek, nonce, value, context_spec(name, version))),
    }
}

/// Writing `value` as the next version of `name` in vault `v`: the new version's number
/// and the vault after it, or why not. A new name (refused where `require_existing`)
/// starts at version 1 and takes its place in name order; an existing one gets the
/// version after its current one, which becomes current. A data key of the wrong
/// length cannot seal the value, and the write is then refused as corrupt.
pub open spec fn written(
    v: VaultV,
    dek: Seq<u8>,
    name: Seq<char>,
    value: Seq<u8>,
    require_existing: bool,
    nonce: Seq<u8>,
    created_at: u64,
) -> Result<(u32, VaultV), Fault> {
    match find_name(v.secrets, name) {
        None => if require_existing {
            Err(Fault::NotFound(name))
        } else if dek.len() != KEY_LEN {
            Err(Fault::Corrupt("dek"@))
        } else {
            let secret = SecretV {
                current: 1,
                versions: seq![sealed_version(dek, name, value, 1, nonce, created_at)],
            };
            Ok((1u32, VaultV { secrets: v.secrets.insert(insert_pos(v.secrets, name), (name, secret)), ..v }))
        },
        Some(i) => {
            let old = v.secrets[i].1;
            if old.current == u32::MAX {
                Err(Fault::Corrupt("version counter overflow"@))
            } else if dek.len() != KEY_LEN {
                Err(Fault::Corrupt("dek"@))
            } else {
                let version = (old.current + 1) as u32;
                let secret = SecretV {
                    current: version,
                    versions: old.versions.push(sealed_version(dek, name, value, version, nonce, created_at)),
                };
                Ok((version, VaultV { secrets: v.secrets.update(i, (v.secrets[i].0, secret)), ..v }))
            }
        },
    }
}

/// A store after a write of `value` to `name` recorded as `action`: the outcome and
/// the store. The write is recorded in the audit log only where it succeeds.
pub open spec fn write_outcome(
    s: StoreV,
    passphrase: Seq<char>,
    name: Seq<char>,
    value: Seq<u8>,
    require_existing: bool,
    action: Seq<char>,
    nonce: Seq<u8>,
    created_at: u64,
    ts: u64,
) -> (Result<u32, Fault>, StoreV) {
    match unlock_spec(s.disk, passphrase) {
        Err(e) => (Err(e), s),
        Ok((v, dek)) => match written(v, dek, name, value, require_existing, nonce, created_at) {
            Err(e) => (Err(e), s),
            Ok((version, after)) => (
                Ok(version),
                StoreV { disk: DiskV::Parsed(after), log: s.log.push(next_entry(s.log, action, name, ts)), ..s },
            ),
        },
    }
}

/// Why a change that needs random bytes failed where the generator gave none.
pub open spec fn random_failure() -> Fault {
    Fault::Io("random source unavailable"@)
}

/// The error for a change that got no random bytes.
fn no_randomness() -> (e: Error)
    ensures
        e@ == random_failure(),
{
    Error::Io(String::from_str("random source unavailable"))
}

/// A write as `write_outcome` gives it, for what the random generator gave: the
/// nonce it drew, or nothing. Without a nonce a write that would succeed is refused
/// with `random_failure()` and the store stays as it was; any other refusal stands.
pub open spec fn write_with_draw(
    s: StoreV,
    passphrase: Seq<char>,
    name: Seq<char>,
    value: Seq<u8>,
    require_existing: bool,
    action: Seq<char>,
    nonce: Option<Seq<u8>>,
    created_at: u64,
    ts: u64,
) -> (Result<u32, Fault>, StoreV) {
    match nonce {
        Some(n) => write_outcome(s, passphrase, name, value, require_existing, action, n, created_at, ts),
        None => match write_outcome(s, passphrase, name, value, require_existing, action, Seq::empty(), created_at, ts) {
            (Ok(_), _) => (Err(random_failure()), s),
            refused => refused,
        },
    }
}

/// Reading version `version` (the current one where `None`) of `name` from vault `v`
/// with data key `dek`: the value, or why not.
pub open spec fn read_spec(v: VaultV, dek: Seq<u8>, name: Seq<char>, version: Option<u32>) -> Result<Seq<u8>, Fault> {
    match find_name(v.secrets, name) {
        None => Err(Fault::NotFound(name)),
        Some(i) => {
            let secret = v.secrets[i].1;
            let want = match version {
                Some(w) => w,
                None => secret.current,
            };
            match find_version(secret.versions, want) {
                None => Err(Fault::NotFound(name + "@"@ + decimal_chars(want as nat))),
                Some(j) => {
                    let chosen = secret.versions[j];
                    match base64_decode(chosen.nonce) {
                        None => Err(Fault::Corrupt("nonce"@)),
                        Some(nonce) => match base64_decode(chosen.ct) {
                            None => Err(Fault::Corrupt("ciphertext"@)),
                            Some(ct) => match open_spec(dek, nonce, ct, context_spec(name, want)) {
                                None => Err(Fault::Corrupt("secret"@)),
                                Some(plaintext) => Ok(plaintext),
                            },
                        },
                    }
                },
            }
        },
    }
}

/// What `get` returns: the value of version `version` (the current one where `None`)
/// of `name`, or why not.
pub open spec fn get_spec(s: StoreV, passphrase: Seq<char>, name: Seq<char>, version: Option<u32>) -> Result<Seq<u8>, Fault> {
    match unlock_spec(s.disk, passphrase) {
        Err(e) => Err(e),
        Ok((v, dek)) => read_spec(v, dek, name, version),
    }
}

/// The versions of `name` in the store carry no number above its current one.
pub open spec fn numbered_at(s: StoreV, name: Seq<char>) -> bool {
    match opened_vault(s.disk) {
        Ok(v) => match find_name(v.secrets, name) {
            Some(i) => versions_numbered(v.secrets[i].1),
            None => true,
        },
        Err(_) => true,
    }
}

/// A store after `get` of `name`: a successful read is recorded in the audit log at
/// time `ts`; a failed one changes nothing.
pub open spec fn get_record(s: StoreV, passphrase: Seq<char>, name: Seq<char>, version: Option<u32>, ts: u64) -> StoreV {
    if get_spec(s, passphrase, name, version) is Ok {
        StoreV { log: s.log.push(next_entry(s.log, "get"@, name, ts)), ..s }
    } else {
        s
    }
}

/// The vault that `init` creates: format `FORMAT`, the base64 salt, and the data key
/// `dek` sealed with nonce `nonce` under the key that Argon2id derives from the
/// passphrase and the salt; no secrets.
pub open spec fn initial_vault(passphrase: Seq<char>, salt: Seq<u8>, dek: Seq<u8>, nonce: Seq<u8>) -> VaultV {
    VaultV {
        format: FORMAT,
        kdf: KdfV { algo: "argon2id"@, salt: base64_encode(salt) },
        dek: SealedV {
            nonce: base64_encode(nonce),
            ct: base64_encode(aes256gcm_seal(argon2id_key(passphrase, salt), nonce, dek, dek_aad())),
        },
        secrets: Seq::empty(),
    }
}

/// A store after `init`: refused where a vault file exists; otherwise the new vault,
/// recorded in the audit log at time `ts`.
pub open spec fn init_outcome(
    s: StoreV,
    passphrase: Seq<char>,
    salt: Seq<u8>,
    dek: Seq<u8>,
    nonce: Seq<u8>,
    ts: u64,
) -> (Result<(), Fault>, StoreV) {
    if !(s.disk is Missing) {
        (Err(Fault::AlreadyInitialized), s)
    } else {
        (
            Ok(()),
            StoreV {
                disk: DiskV::Parsed(initial_vault(passphrase, salt, dek, nonce)),
                log: s.log.push(next_entry(s.log, "init"@, ""@, ts)),
                ..s
            },
        )
    }
}

/// `init` as `init_outcome` gives it, for what the random generator gave: the salt,
/// data key and nonce it drew, or nothing. Without them a vault that would be created
/// is not, the refusal is `random_failure()` and the store stays as it was.
pub open spec fn init_with_draw(
    s: StoreV,
    passphrase: Seq<char>,
    drawn: Option<(Seq<u8>, Seq<u8>, Seq<u8>)>,
    ts: u64,
) -> (Result<(), Fault>, StoreV) {
    match drawn {
        Some((salt, dek, nonce)) => init_outcome(s, passphrase, salt, dek, nonce, ts),
        None => match init_outcome(s, passphrase, Seq::empty(), Seq::empty(), Seq::empty(), ts) {
            (Ok(_), _) => (Err(random_failure()), s),
            refused => refused,
        },
    }
}

/// A store after removing `name` with all its versions, recorded in the audit log at
/// time `ts`; refused where the vault does not open or has no such secret.
pub open spec fn remove_outcome(s: StoreV, passphrase: Seq<char>, name: Seq<char>, ts: u64) -> (Result<(), Fault>, StoreV) {
    match unlock_spec(s.disk, passphrase) {
        Err(e) => (Err(e), s),
        Ok((v, _)) => match find_name(v.secrets, name) {
            None => (Err(Fault::NotFound(name)), s),
            Some(i) => (
                Ok(()),
                StoreV {
                    disk: DiskV::Parsed(VaultV { secrets: v.secrets.remove(i), ..v }),
                    log: s.log.push(next_entry(s.log, "rm"@, name, ts)),
                    ..s
                },
            ),
        },
    }
}

/// Each secret's name, current version and number of versions, in name order.
pub open spec fn listing(v: VaultV) -> Seq<(Seq<char>, u32, nat)> {
    v.secrets.map_values(|p: (Seq<char>, SecretV)| (p.0, p.1.current, p.1.versions.len()))
}

/// Each version's number and creation time, oldest first.
pub open spec fn version_rows(secret: SecretV) -> Seq<(u32, u64)> {
    secret.versions.map_values(|v: VersionV| (v.version, v.created_at))
}

/// What `history` returns: the rows of `name`'s versions, or why not.
pub open spec fn history_spec(s: StoreV, passphrase: Seq<char>, name: Seq<char>) -> Result<Seq<(u32, u64)>, Fault> {
    match unlock_spec(s.disk, passphrase) {
        Err(e) => Err(e),
        Ok((v, _)) => match find_name(v.secrets, name) {
            None => Err(Fault::NotFound(name)),
            Some(i) => Ok(version_rows(v.secrets[i].1)),
        },
    }
}

/// The listing of the vault that `disk` holds.
fn list_secrets(disk: &Disk) -> (items: Vec<(String, u32, usize)>)
    requires
        opened_vault(disk@) is Ok,
    ensures
        items@.map_values(|t: (String, u32, usize)| (t.0@, t.1, t.2 as nat)) == listing(opened_vault(disk@)->Ok_0),
        forall|i: int, j: int|
            0 <= i < j < items@.len() ==> bytes_lt(#[trigger] name_key(items@[i].0@), #[trigger] name_key(items@[j].0@)),
{
    let vault = match disk {
        Disk::Parsed(v) => v,
        _ => {
            assert(false);
            return Vec::new();
        },
    };
    assert(names_sorted(vault@.secrets));
    let ghost target = listing(vault@);
    let mut items: Vec<(String, u32, usize)> = Vec::new();
    let mut i: usize = 0;
    while i < vault.secrets.len()
        invariant
            i <= vault.secrets@.len(),
            target == listing(vault@),
            items@.len() == i,
            forall|k: int| 0 <= k < i ==> (#[trigger] items@[k].0@, items@[k].1, items@[k].2 as nat) == target[k],
        decreases vault.secrets@.len() - i,
    {
        let (name, secret) = &vault.secrets[i];
        assert(target[i as int] == (name@, secret.current, secret.versions@.len()));
        items.push((name.clone(), secret.current, secret.versions.len()));
        i = i + 1;
    }
    assert(items@.map_values(|t: (String, u32, usize)| (t.0@, t.1, t.2 as nat)) =~= target);
    assert forall|a: int, b: int| 0 <= a < b < items@.len() implies bytes_lt(
        #[trigger] name_key(items@[a].0@),
        #[trigger] name_key(items@[b].0@),
    ) by {
        assert(items@[a].0@ == vault@.secrets[a].0);
        assert(items@[b].0@ == vault@.secrets[b].0);
    }
    items
}

/// The version rows of `name` in the vault that `disk` holds, if it has such a secret.
fn history_rows(disk: &Disk, name: &str) -> (rows: Option<Vec<(u32, u64)>>)
    requires
        opened_vault(disk@) is Ok,
    ensures
        match rows {
            Some(r) => find_name(opened_vault(disk@)->Ok_0.secrets, name@) matches Some(i)
                && r@ == version_rows(opened_vault(disk@)->Ok_0.secrets[i].1),
            None => find_name(opened_vault(disk@)->Ok_0.secrets, name@) is None,
        },
{
    let vault = match disk {
        Disk::Parsed(v) => v,
        _ => {
            assert(false);
            return None;
        },
    };
    let i = match find_secret(&vault.secrets, name) {
        Some(i) => i,
        None => return None,
    };
    let secret = &vault.secrets[i].1;
    assert(vault@.secrets[i as int].1 == secret@);
    let ghost target = version_rows(secret@);
    let mut rows: Vec<(u32, u64)> = Vec::new();
    let mut j: usize = 0;
    while j < secret.versions.len()
        invariant
            j <= secret.versions@.len(),
            target == version_rows(secret@),
            rows@ == target.subrange(0, j as int),
        decreases secret.versions@.len() - j,
    {
        let v = &secret.versions[j];
        rows.push((v.version, v.created_at));
        assert(rows@ =~= target.subrange(0, j + 1));
        j = j + 1;
    }
    assert(target.subrange(0, j as int) == target);
    Some(rows)
}

/// A store with `action` on `target` recorded in its audit log at time `ts`.
pub open spec fn recorded(s: StoreV, action: Seq<char>, target: Seq<char>, ts: u64) -> StoreV {
    StoreV { log: s.log.push(next_entry(s.log, action, target, ts)), ..s }
}

/// The data key's associated data has ten bytes.
proof fn lemma_dek_aad_len()
    ensures
        dek_aad().len() == 10,
{
    reveal_strlit("keyrot/dek");
    assert(vstd::utf8::is_ascii_chars(DEK_AAD@));
    vstd::utf8::is_ascii_chars_encode_utf8(DEK_AAD@);
}

/// Opening a vault whose secrets were replaced by sorted ones gives the same data key.
proof fn lemma_unlock_with_secrets(v: VaultV, secrets: Seq<(Seq<char>, SecretV)>, passphrase: Seq<char>)
    requires
        names_sorted(v.secrets),
        names_sorted(secrets),
    ensures
        unlock_spec(DiskV::Parsed(VaultV { secrets, ..v }), passphrase) == match unlock_spec(DiskV::Parsed(v), passphrase) {
            Ok((_, dek)) => Ok::<(VaultV, Seq<u8>), Fault>((VaultV { secrets, ..v }, dek)),
            Err(e) => Err(e),
        },
{
}

/// Reading back a write: given that the stored nonce and ciphertext decode to what was
/// sealed and the ciphertext opens to the value (facts of base64 and AES-GCM), a
/// successful write of `value` to `name` as version `k` is what a read of `name`, both
/// of its current version and of version `k`, returns.
proof fn lemma_read_back(
    s: StoreV,
    passphrase: Seq<char>,
    name: Seq<char>,
    value: Seq<u8>,
    require_existing: bool,
    action: Seq<char>,
    nonce: Seq<u8>,
    created_at: u64,
    ts: u64,
)
    requires
        write_outcome(s, passphrase, name, value, require_existing, action, nonce, created_at, ts).0 is Ok,
        numbered_at(s, name),
        ({
            let dek = unlock_spec(s.disk, passphrase)->Ok_0.1;
            let k = write_outcome(s, passphrase, name, value, require_existing, action, nonce, created_at, ts).0->Ok_0;
            let ct = aes256gcm_seal(dek, nonce, value, context_spec(name, k));
            &&& base64_decode(base64_encode(nonce)) == Some(nonce)
            &&& base64_decode(base64_encode(ct)) == Some(ct)
            &&& open_spec(dek, nonce, ct, context_spec(name, k)) == Some(value)
        }),
    ensures
        ({
            let (r, after) = write_outcome(s, passphrase, name, value, require_existing, action, nonce, created_at, ts);
            &&& get_spec(after, passphrase, name, None) == Ok::<Seq<u8>, Fault>(value)
            &&& get_spec(after, passphrase, name, Some(r->Ok_0)) == Ok::<Seq<u8>, Fault>(value)
        }),
{
    let (v, dek) = unlock_spec(s.disk, passphrase)->Ok_0;
    assert(s.disk == DiskV::Parsed(v));
    let (k, after) = written(v, dek, name, value, require_existing, nonce, created_at)->Ok_0;
    lemma_find_name(v.secrets, name, 0);
    let i: int;
    match find_name(v.secrets, name) {
        None => {
            let secret = SecretV { current: 1, versions: seq![sealed_version(dek, name, value, 1, nonce, created_at)] };
            lemma_sorted_insert(v.secrets, name, secret);
            lemma_unlock_with_secrets(v, after.secrets, passphrase);
            i = insert_pos(v.secrets, name);
            assert(after.secrets[i].1 == secret);
            lemma_find_version(secret.versions, k, 0);
            assert(find_version(secret.versions, k) == Some(0int));
        },
        Some(j) => {
            let old = v.secrets[j].1;
            let secret = SecretV {
                current: k,
                versions: old.versions.push(sealed_version(dek, name, value, k, nonce, created_at)),
            };
            lemma_sorted_update(v.secrets, j, secret);
            lemma_unlock_with_secrets(v, after.secrets, passphrase);
            i = j;
            assert(find_name(after.secrets, name) == Some(j));
            assert(after.secrets[j].1 == secret);
            assert(versions_numbered(old));
            assert(old.current < u32::MAX);
            assert(k == old.current + 1);
            assert(secret.versions[secret.versions.len() - 1].version == k);
            assert forall|m: int| 0 <= m < secret.versions.len() - 1 implies #[trigger] secret.versions[m].version != k by {
                assert(secret.versions[m] == old.versions[m]);
                assert(old.versions[m].version <= old.current);
            }
            lemma_find_version(secret.versions, k, 0);
            assert(find_version(secret.versions, k) == Some(secret.versions.len() - 1));
        },
    }
}

/// A vault as `init` leaves it (it opens with a data key of `KEY_LEN` bytes and holds
/// no secrets) takes a first `put` of any name as version 1, and refuses a `rotate`
/// of it as not found: whatever the nonce and times, where the generator gave a nonce;
/// without one the `put` is refused with `random_failure()`.
pub proof fn a_new_vault_takes_its_first_write(
    s: StoreV,
    passphrase: Seq<char>,
    name: Seq<char>,
    value: Seq<u8>,
    action: Seq<char>,
    nonce: Option<Seq<u8>>,
    created_at: u64,
    ts: u64,
)
    requires
        unlock_spec(s.disk, passphrase) matches Ok((v, k)) && v.secrets.len() == 0 && k.len() == KEY_LEN,
    ensures
        write_with_draw(s, passphrase, name, value, false, action, nonce, created_at, ts).0 == if nonce is Some {
            Ok::<u32, Fault>(1)
        } else {
            Err::<u32, Fault>(random_failure())
        },
        write_with_draw(s, passphrase, name, value, true, action, nonce, created_at, ts).0 == Err::<u32, Fault>(
            Fault::NotFound(name),
        ),
{
    let v = unlock_spec(s.disk, passphrase)->Ok_0.0;
    assert(find_name(v.secrets, name) is None);
}

/// The store holds a vault that lists a secret called `name`.
pub open spec fn has_secret(s: StoreV, name: Seq<char>) -> bool {
    match opened_vault(s.disk) {
        Ok(v) => find_name(v.secrets, name) is Some,
        Err(_) => false,
    }
}

/// On a secret that exists, rotating is putting: the same outcome and the same vault
/// afterwards (for the same nonce and times), only recorded as `rotate` instead of `put`.
pub proof fn rotate_is_put_on_an_existing_secret(
    s: StoreV,
    passphrase: Seq<char>,
    name: Seq<char>,
    value: Seq<u8>,
    nonce: Option<Seq<u8>>,
    created_at: u64,
    ts: u64,
)
    requires
        has_secret(s, name),
    ensures
        ({
            let (rotated, after_rotate) = write_with_draw(s, passphrase, name, value, true, "rotate"@, nonce, created_at, ts);
            let (put, after_put) = write_with_draw(s, passphrase, name, value, false, "put"@, nonce, created_at, ts);
            &&& rotated == put
            &&& after_rotate.disk == after_put.disk
            &&& after_rotate.path == after_put.path && after_rotate.audit_path == after_put.audit_path
            &&& after_rotate.log == if rotated is Ok { s.log.push(next_entry(s.log, "rotate"@, name, ts)) } else { s.log }
            &&& after_put.log == if put is Ok { s.log.push(next_entry(s.log, "put"@, name, ts)) } else { s.log }
        }),
{
}

/// The store's vault numbers the versions of every secret 1, 2, ... up to its current
/// one (a store whose vault does not open holds no such vault and counts as numbered).
pub open spec fn numbered_store(s: StoreV) -> bool {
    match opened_vault(s.disk) {
        Ok(v) => all_consecutive(v.secrets),
        Err(_) => true,
    }
}

/// Every vault this library writes numbers each secret's versions 1, 2, ... up to the
/// current one: a new vault does, and a write or a removal keeps it so, whatever the
/// random generator gave and whether the change succeeds or is refused.
pub proof fn changes_keep_versions_numbered(
    s: StoreV,
    passphrase: Seq<char>,
    name: Seq<char>,
    value: Seq<u8>,
    require_existing: bool,
    action: Seq<char>,
    nonce: Option<Seq<u8>>,
    created_at: u64,
    ts: u64,
    drawn: Option<(Seq<u8>, Seq<u8>, Seq<u8>)>,
)
    ensures
        numbered_store(init_with_draw(s, passphrase, drawn, ts).1) || init_with_draw(s, passphrase, drawn, ts).1 == s,
        numbered_store(s) ==> numbered_store(
            write_with_draw(s, passphrase, name, value, require_existing, action, nonce, created_at, ts).1,
        ),
        numbered_store(s) ==> numbered_store(remove_outcome(s, passphrase, name, ts).1),
{
    if let Some((salt, dek, first_nonce)) = drawn {
        let fresh = initial_vault(passphrase, salt, dek, first_nonce);
        assert(names_sorted(fresh.secrets));
    }
    if numbered_store(s) && unlock_spec(s.disk, passphrase) is Ok {
        let (v, key) = unlock_spec(s.disk, passphrase)->Ok_0;
        assert(s.disk == DiskV::Parsed(v));
        lemma_find_name(v.secrets, name, 0);
        if let Some(n) = nonce {
            if written(v, key, name, value, require_existing, n, created_at) is Ok {
                let (k, after) = written(v, key, name, value, require_existing, n, created_at)->Ok_0;
                match find_name(v.secrets, name) {
                    None => {
                        let secret = SecretV { current: 1, versions: seq![sealed_version(key, name, value, 1, n, created_at)] };
                        let pos = insert_pos(v.secrets, name);
                        lemma_sorted_insert(v.secrets, name, secret);
                        assert forall|j: int| 0 <= j < after.secrets.len() implies versions_consecutive(#[trigger] after.secrets[j].1) by {
                            if j < pos {
                                assert(after.secrets[j] == v.secrets[j]);
                            } else if j > pos {
                                assert(after.secrets[j] == v.secrets[j - 1]);
                            }
                        }
                    },
                    Some(i) => {
                        let old = v.secrets[i].1;
                        let secret = SecretV {
                            current: k,
                            versions: old.versions.push(sealed_version(key, name, value, k, n, created_at)),
                        };
                        lemma_sorted_update(v.secrets, i, secret);
                        assert(versions_consecutive(old));
                        assert forall|j: int| 0 <= j < secret.versions.len() implies #[trigger] secret.versions[j].version == j + 1 by {
                            if j < old.versions.len() {
                                assert(secret.versions[j] == old.versions[j]);
                            }
                        }
                        assert forall|j: int| 0 <= j < after.secrets.len() implies versions_consecutive(#[trigger] after.secrets[j].1) by {
                            if j != i {
                                assert(after.secrets[j] == v.secrets[j]);
                            }
                        }
                    },
                }
            }
        }
        if let Some(i) = find_name(v.secrets, name) {
            let shrunk = v.secrets.remove(i);
            lemma_sorted_remove(v.secrets, i);
            assert forall|j: int| 0 <= j < shrunk.len() implies versions_consecutive(#[trigger] shrunk[j].1) by {
                if j < i {
                    assert(shrunk[j] == v.secrets[j]);
                } else {
                    assert(shrunk[j] == v.secrets[j + 1]);
                }
            }
        }
    }
}

/// Every write adds a version and earlier versions stay retrievable: where `name` was
/// absent and writes of `values[0]`, `values[1]`, ... to it then returned versions
/// 1, 2, ... in turn, each reading back its value (as `put` and `rotate` ensure), every
/// version `k` from 1 to the last reads as `values[k - 1]`, the current one as the last
/// value, and every other number (0, or above the last) is not found.
pub proof fn every_written_version_stays_readable(
    states: Seq<StoreV>,
    passphrase: Seq<char>,
    name: Seq<char>,
    values: Seq<Seq<u8>>,
    require_existing: Seq<bool>,
    actions: Seq<Seq<char>>,
    nonces: Seq<Option<Seq<u8>>>,
    created: Seq<u64>,
    times: Seq<u64>,
)
    requires
        values.len() > 0,
        states.len() == values.len() + 1,
        require_existing.len() == values.len(),
        actions.len() == values.len(),
        nonces.len() == values.len(),
        created.len() == values.len(),
        times.len() == values.len(),
        opened_vault(states[0].disk) is Ok,
        !has_secret(states[0], name),
        forall|j: int|
            0 <= j < values.len() ==> #[trigger] write_with_draw(
                states[j],
                passphrase,
                name,
                values[j],
                require_existing[j],
                actions[j],
                nonces[j],
                created[j],
                times[j],
            ) == (Ok::<u32, Fault>((j + 1) as u32), states[j + 1]),
        forall|j: int|
            0 <= j < values.len() ==> #[trigger] get_spec(states[j + 1], passphrase, name, Some((j + 1) as u32))
                == Ok::<Seq<u8>, Fault>(values[j]),
    ensures
        forall|k: int|
            1 <= k <= values.len() ==> #[trigger] get_spec(states[values.len() as int], passphrase, name, Some(k as u32))
                == Ok::<Seq<u8>, Fault>(values[k - 1]),
        get_spec(states[values.len() as int], passphrase, name, None) == Ok::<Seq<u8>, Fault>(values.last()),
        forall|w: u32|
            w == 0 || w > values.len() ==> #[trigger] get_spec(states[values.len() as int], passphrase, name, Some(w))
                == Err::<Seq<u8>, Fault>(Fault::NotFound(name + "@"@ + decimal_chars(w as nat))),
    decreases values.len(),
{
    let n = values.len() as int;
    let prev = states[n - 1];
    let last = states[n];
    assert(write_with_draw(prev, passphrase, name, values[n - 1], require_existing[n - 1], actions[n - 1], nonces[n - 1], created[n - 1], times[n - 1])
        == (Ok::<u32, Fault>(n as u32), last));
    if n > 1 {
        every_written_version_stays_readable(
            states.take(n),
            passphrase,
            name,
            values.take(n - 1),
            require_existing.take(n - 1),
            actions.take(n - 1),
            nonces.take(n - 1),
            created.take(n - 1),
            times.take(n - 1),
        );
    }
    lemma_secret_after_writes(states, passphrase, name, values, require_existing, actions, nonces, created, times, n);
    let (v, dek) = unlock_spec(last.disk, passphrase)->Ok_0;
    let i = find_name(v.secrets, name)->Some_0;
    let secret = v.secrets[i].1;
    assert forall|k: int| 1 <= k <= values.len() implies #[trigger] get_spec(last, passphrase, name, Some(k as u32))
        == Ok::<Seq<u8>, Fault>(values[k - 1]) by {
        if k < n {
            assert(get_spec(prev, passphrase, name, Some(k as u32)) == Ok::<Seq<u8>, Fault>(values[k - 1])) by {
                assert(states.take(n)[n - 1] == prev);
                assert(values.take(n - 1)[k - 1] == values[k - 1]);
            }
            lemma_secret_after_writes(states, passphrase, name, values, require_existing, actions, nonces, created, times, n - 1);
            a_write_leaves_other_reads_unchanged(
                prev,
                passphrase,
                name,
                values[n - 1],
                require_existing[n - 1],
                actions[n - 1],
                nonces[n - 1],
                created[n - 1],
                times[n - 1],
                name,
                Some(k as u32),
            );
        }
    }
    assert(get_spec(last, passphrase, name, None) == get_spec(last, passphrase, name, Some(n as u32)));
    assert forall|w: u32| w == 0 || w > values.len() implies #[trigger] get_spec(last, passphrase, name, Some(w))
        == Err::<Seq<u8>, Fault>(Fault::NotFound(name + "@"@ + decimal_chars(w as nat))) by {
        lemma_consecutive_find(secret, w);
    }
}

/// After `m` of the writes of `every_written_version_stays_readable`, the vault opens
/// and holds `name` with consecutive versions, the last being `m`.
proof fn lemma_secret_after_writes(
    states: Seq<StoreV>,
    passphrase: Seq<char>,
    name: Seq<char>,
    values: Seq<Seq<u8>>,
    require_existing: Seq<bool>,
    actions: Seq<Seq<char>>,
    nonces: Seq<Option<Seq<u8>>>,
    created: Seq<u64>,
    times: Seq<u64>,
    m: int,
)
    requires
        states.len() == values.len() + 1,
        require_existing.len() == values.len(),
        actions.len() == values.len(),
        nonces.len() == values.len(),
        created.len() == values.len(),
        times.len() == values.len(),
        opened_vault(states[0].disk) is Ok,
        !has_secret(states[0], name),
        forall|j: int|
            0 <= j < values.len() ==> #[trigger] write_with_draw(
                states[j],
                passphrase,
                name,
                values[j],
                require_existing[j],
                actions[j],
                nonces[j],
                created[j],
                times[j],
            ) == (Ok::<u32, Fault>((j + 1) as u32), states[j + 1]),
        1 <= m <= values.len(),
    ensures
        unlock_spec(states[m].disk, passphrase) is Ok,
        has_secret(states[m], name),
        ({
            let v = unlock_spec(states[m].disk, passphrase)->Ok_0.0;
            let secret = v.secrets[find_name(v.secrets, name)->Some_0].1;
            &&& versions_consecutive(secret)
            &&& secret.current == m
        }),
    decreases m,
{
    let j = m - 1;
    let s = states[j];
    assert(write_with_draw(s, passphrase, name, values[j], require_existing[j], actions[j], nonces[j], created[j], times[j])
        == (Ok::<u32, Fault>(m as u32), states[m]));
    let nonce = nonces[j]->Some_0;
    assert(write_outcome(s, passphrase, name, values[j], require_existing[j], actions[j], nonce, created[j], times[j])
        == (Ok::<u32, Fault>(m as u32), states[m]));
    if m > 1 {
        lemma_secret_after_writes(states, passphrase, name, values, require_existing, actions, nonces, created, times, m - 1);
    }
    let (v, dek) = unlock_spec(s.disk, passphrase)->Ok_0;
    assert(s.disk == DiskV::Parsed(v));
    let (k, after) = written(v, dek, name, values[j], require_existing[j], nonce, created[j])->Ok_0;
    lemma_find_name(v.secrets, name, 0);
    match find_name(v.secrets, name) {
        None => {
            let secret = SecretV { current: 1, versions: seq![sealed_version(dek, name, values[j], 1, nonce, created[j])] };
            lemma_sorted_insert(v.secrets, name, secret);
            lemma_unlock_with_secrets(v, after.secrets, passphrase);
            assert(after.secrets[insert_pos(v.secrets, name)].1 == secret);
        },
        Some(i) => {
            let old = v.secrets[i].1;
            let secret = SecretV {
                current: k,
                versions: old.versions.push(sealed_version(dek, name, values[j], k, nonce, created[j])),
            };
            lemma_sorted_update(v.secrets, i, secret);
            lemma_unlock_with_secrets(v, after.secrets, passphrase);
            assert(after.secrets[i].1 == secret);
            assert forall|q: int| 0 <= q < secret.versions.len() implies #[trigger] secret.versions[q].version == q + 1 by {
                if q < old.versions.len() {
                    assert(secret.versions[q] == old.versions[q]);
                }
            }
        },
    }
}

/// The data key never changes after the vault is created: after a successful write or
/// removal, the passphrase opens the changed vault to the same data key.
pub proof fn changes_keep_the_data_key(
    s: StoreV,
    passphrase: Seq<char>,
    name: Seq<char>,
    value: Seq<u8>,
    require_existing: bool,
    action: Seq<char>,
    nonce: Option<Seq<u8>>,
    created_at: u64,
    ts: u64,
)
    ensures
        write_with_draw(s, passphrase, name, value, require_existing, action, nonce, created_at, ts).0 is Ok ==> unlock_spec(
            write_with_draw(s, passphrase, name, value, require_existing, action, nonce, created_at, ts).1.disk,
            passphrase,
        )->Ok_0.1 == unlock_spec(s.disk, passphrase)->Ok_0.1 && unlock_spec(
            write_with_draw(s, passphrase, name, value, require_existing, action, nonce, created_at, ts).1.disk,
            passphrase,
        ) is Ok,
        remove_outcome(s, passphrase, name, ts).0 is Ok ==> unlock_spec(remove_outcome(s, passphrase, name, ts).1.disk, passphrase)
            is Ok && unlock_spec(remove_outcome(s, passphrase, name, ts).1.disk, passphrase)->Ok_0.1 == unlock_spec(
            s.disk,
            passphrase,
        )->Ok_0.1,
{
    if unlock_spec(s.disk, passphrase) is Ok {
        let (v, dek) = unlock_spec(s.disk, passphrase)->Ok_0;
        assert(s.disk == DiskV::Parsed(v));
        lemma_find_name(v.secrets, name, 0);
        if let Some(nonce) = nonce {
            if written(v, dek, name, value, require_existing, nonce, created_at) is Ok {
                let (k, after) = written(v, dek, name, value, require_existing, nonce, created_at)->Ok_0;
                match find_name(v.secrets, name) {
                    None => {
                        let secret = SecretV { current: 1, versions: seq![sealed_version(dek, name, value, 1, nonce, created_at)] };
                        lemma_sorted_insert(v.secrets, name, secret);
                    },
                    Some(i) => {
                        let old = v.secrets[i].1;
                        let secret = SecretV {
                            current: k,
                            versions: old.versions.push(sealed_version(dek, name, value, k, nonce, created_at)),
                        };
                        lemma_sorted_update(v.secrets, i, secret);
                    },
                }
                lemma_unlock_with_secrets(v, after.secrets, passphrase);
            }
        }
        if let Some(i) = find_name(v.secrets, name) {
            lemma_sorted_remove(v.secrets, i);
            lemma_unlock_with_secrets(v, v.secrets.remove(i), passphrase);
        }
    }
}

/// A successful write of `name` leaves every other read as it was: reads of other
/// secrets, and reads of other versions of `name` where `name` already existed.
/// Earlier versions stay retrievable.
pub proof fn a_write_leaves_other_reads_unchanged(
    s: StoreV,
    passphrase: Seq<char>,
    name: Seq<char>,
    value: Seq<u8>,
    require_existing: bool,
    action: Seq<char>,
    nonce: Option<Seq<u8>>,
    created_at: u64,
    ts: u64,
    other: Seq<char>,
    version: Option<u32>,
)
    requires
        write_with_draw(s, passphrase, name, value, require_existing, action, nonce, created_at, ts).0 is Ok,
        other != name || (has_secret(s, name) && (version matches Some(w) && w != write_with_draw(
            s,
            passphrase,
            name,
            value,
            require_existing,
            action,
            nonce,
            created_at,
            ts,
        ).0->Ok_0)),
    ensures
        get_spec(
            write_with_draw(s, passphrase, name, value, require_existing, action, nonce, created_at, ts).1,
            passphrase,
            other,
            version,
        ) == get_spec(s, passphrase, other, version),
{
    let nonce = nonce->Some_0;
    let (v, dek) = unlock_spec(s.disk, passphrase)->Ok_0;
    assert(s.disk == DiskV::Parsed(v));
    let (k, after) = written(v, dek, name, value, require_existing, nonce, created_at)->Ok_0;
    lemma_find_name(v.secrets, name, 0);
    match find_name(v.secrets, name) {
        None => {
            let secret = SecretV { current: 1, versions: seq![sealed_version(dek, name, value, 1, nonce, created_at)] };
            let pos = insert_pos(v.secrets, name);
            lemma_sorted_insert(v.secrets, name, secret);
            lemma_unlock_with_secrets(v, after.secrets, passphrase);
            lemma_find_after_insert(v.secrets, pos, (name, secret), other);
            match find_name(v.secrets, other) {
                Some(m) => {
                    lemma_find_name(v.secrets, other, 0);
                    let m2 = if m < pos { m } else { m + 1 };
                    assert(after.secrets[m2] == v.secrets[m]);
                },
                None => {},
            }
        },
        Some(i) => {
            let old = v.secrets[i].1;
            let added = sealed_version(dek, name, value, k, nonce, created_at);
            let secret = SecretV { current: k, versions: old.versions.push(added) };
            lemma_sorted_update(v.secrets, i, secret);
            lemma_unlock_with_secrets(v, after.secrets, passphrase);
            if other == name {
                let w = version->Some_0;
                lemma_find_version_push(old.versions, added, w);
                assert(after.secrets[i].1 == secret);
                lemma_find_version(old.versions, w, 0);
                match find_version(old.versions, w) {
                    Some(j) => {
                        assert(secret.versions[j] == old.versions[j]);
                    },
                    None => {},
                }
            } else {
                lemma_find_name(v.secrets, other, 0);
                match find_name(v.secrets, other) {
                    Some(m) => {
                        assert(m != i);
                        assert(after.secrets[m] == v.secrets[m]);
                    },
                    None => {},
                }
            }
        },
    }
}

/// After a secret is removed, reading it finds nothing, and reads of every other
/// secret are as they were.
pub proof fn a_removed_secret_is_gone(s: StoreV, passphrase: Seq<char>, name: Seq<char>, ts: u64, other: Seq<char>, version: Option<u32>)
    requires
        remove_outcome(s, passphrase, name, ts).0 is Ok,
    ensures
        get_spec(remove_outcome(s, passphrase, name, ts).1, passphrase, name, version) == Err::<Seq<u8>, Fault>(Fault::NotFound(name)),
        other != name ==> get_spec(remove_outcome(s, passphrase, name, ts).1, passphrase, other, version)
            == get_spec(s, passphrase, other, version),
{
    let (v, dek) = unlock_spec(s.disk, passphrase)->Ok_0;
    assert(s.disk == DiskV::Parsed(v));
    let i = find_name(v.secrets, name)->Some_0;
    lemma_find_name(v.secrets, name, 0);
    let shrunk = v.secrets.remove(i);
    lemma_sorted_remove(v.secrets, i);
    lemma_unlock_with_secrets(v, shrunk, passphrase);
    lemma_find_name(shrunk, name, 0);
    assert forall|j: int| 0 <= j < shrunk.len() implies shrunk[j].0 != name by {
        let oj = if j < i { j } else { j + 1 };
        assert(shrunk[j] == v.secrets[oj]);
        if oj != i {
            lemma_sorted_find(v.secrets, oj);
        }
    }
    if other != name {
        lemma_find_after_remove(v.secrets, i, other);
        lemma_find_name(v.secrets, other, 0);
        match find_name(v.secrets, other) {
            Some(m) => {
                let m2 = if m < i { m } else { m - 1 };
                assert(shrunk[m2] == v.secrets[m]);
            },
            None => {},
        }
    }
}

/// Every change that the store records keeps its audit log verifying: a log that
/// verified (or was empty) before a successful write verifies after it, one entry
/// longer.
pub proof fn a_write_keeps_the_audit_chain_valid(
    s: StoreV,
    passphrase: Seq<char>,
    name: Seq<char>,
    value: Seq<u8>,
    require_existing: bool,
    action: Seq<char>,
    nonce: Option<Seq<u8>>,
    created_at: u64,
    ts: u64,
)
    requires
        write_with_draw(s, passphrase, name, value, require_existing, action, nonce, created_at, ts).0 is Ok,
        s.log.len() == 0 || verify_spec(s.log) is Ok,
        has_room(s.log),
    ensures
        verify_spec(write_with_draw(s, passphrase, name, value, require_existing, action, nonce, created_at, ts).1.log)
            == Ok::<nat, Seq<char>>(s.log.len() + 1),
{
    append_keeps_the_chain_valid(s.log, action, name, ts);
}

/// Creating the vault, as the first change to its store, leaves an audit log of one
/// entry that verifies; and so does every later change the store records.
pub proof fn init_starts_a_valid_audit_chain(s: StoreV, passphrase: Seq<char>, drawn: Option<(Seq<u8>, Seq<u8>, Seq<u8>)>, ts: u64)
    requires
        init_with_draw(s, passphrase, drawn, ts).0 is Ok,
        s.log.len() == 0,
    ensures
        verify_spec(init_with_draw(s, passphrase, drawn, ts).1.log) == Ok::<nat, Seq<char>>(1),
{
    append_keeps_the_chain_valid(s.log, "init"@, ""@, ts);
}

/// A successful read keeps the audit log verifying, one entry longer.
pub proof fn a_read_keeps_the_audit_chain_valid(s: StoreV, passphrase: Seq<char>, name: Seq<char>, version: Option<u32>, ts: u64)
    requires
        get_spec(s, passphrase, name, version) is Ok,
        s.log.len() == 0 || verify_spec(s.log) is Ok,
        has_room(s.log),
    ensures
        verify_spec(get_record(s, passphrase, name, version, ts).log) == Ok::<nat, Seq<char>>(s.log.len() + 1),
{
    append_keeps_the_chain_valid(s.log, "get"@, name, ts);
}

/// A removal keeps the audit log verifying, one entry longer.
pub proof fn a_removal_keeps_the_audit_chain_valid(s: StoreV, passphrase: Seq<char>, name: Seq<char>, ts: u64)
    requires
        remove_outcome(s, passphrase, name, ts).0 is Ok,
        s.log.len() == 0 || verify_spec(s.log) is Ok,
        has_room(s.log),
    ensures
        verify_spec(remove_outcome(s, passphrase, name, ts).1.log) == Ok::<nat, Seq<char>>(s.log.len() + 1),
{
    append_keeps_the_chain_valid(s.log, "rm"@, name, ts);
}

/// A write keeps the written secret's history: its versions are the earlier ones,
/// in order, followed by the new one; and where they carried no number above the
/// current one, they still do not.
pub proof fn a_write_keeps_the_history(
    s: StoreV,
    passphrase: Seq<char>,
    name: Seq<char>,
    value: Seq<u8>,
    require_existing: bool,
    action: Seq<char>,
    nonce: Option<Seq<u8>>,
    created_at: u64,
    ts: u64,
)
    requires
        write_with_draw(s, passphrase, name, value, require_existing, action, nonce, created_at, ts).0 is Ok,
    ensures
        ({
            let (r, after) = write_with_draw(s, passphrase, name, value, require_existing, action, nonce, created_at, ts);
            &&& history_spec(after, passphrase, name) == Ok::<Seq<(u32, u64)>, Fault>(
                match history_spec(s, passphrase, name) {
                    Ok(rows) => rows,
                    Err(_) => Seq::<(u32, u64)>::empty(),
                }.push((r->Ok_0, created_at)),
            )
            &&& numbered_at(s, name) ==> numbered_at(after, name)
        }),
{
    let nonce = nonce->Some_0;
    let (v, dek) = unlock_spec(s.disk, passphrase)->Ok_0;
    assert(s.disk == DiskV::Parsed(v));
    let (k, after) = written(v, dek, name, value, require_existing, nonce, created_at)->Ok_0;
    lemma_find_name(v.secrets, name, 0);
    match find_name(v.secrets, name) {
        None => {
            let secret = SecretV { current: 1, versions: seq![sealed_version(dek, name, value, 1, nonce, created_at)] };
            lemma_sorted_insert(v.secrets, name, secret);
            lemma_unlock_with_secrets(v, after.secrets, passphrase);
            let pos = insert_pos(v.secrets, name);
            assert(after.secrets[pos].1 == secret);
            assert(version_rows(secret) =~= Seq::<(u32, u64)>::empty().push((1u32, created_at)));
        },
        Some(i) => {
            let old = v.secrets[i].1;
            let secret = SecretV {
                current: k,
                versions: old.versions.push(sealed_version(dek, name, value, k, nonce, created_at)),
            };
            lemma_sorted_update(v.secrets, i, secret);
            lemma_unlock_with_secrets(v, after.secrets, passphrase);
            assert(after.secrets[i].1 == secret);
            assert(version_rows(secret) =~= version_rows(old).push((k, created_at)));
            if versions_numbered(old) {
                assert forall|j: int| 0 <= j < secret.versions.len() implies #[trigger] secret.versions[j].version <= secret.current by {
                    if j < old.versions.len() {
                        assert(secret.versions[j] == old.versions[j]);
                    }
                }
            }
        },
    }
}


/// A successful write stamps the version it adds with the time it was made at, the
/// reading that also stamps its audit entry: the written secret's history is then its
/// earlier rows followed by the new version's number and that time, and the audit log
/// has one more entry, carrying that time.
pub proof fn a_write_is_stamped_with_its_time(
    s: StoreV,
    passphrase: Seq<char>,
    name: Seq<char>,
    value: Seq<u8>,
    require_existing: bool,
    action: Seq<char>,
    nonce: Option<Seq<u8>>,
    at: u64,
)
    requires
        write_with_draw(s, passphrase, name, value, require_existing, action, nonce, at, at).0 is Ok,
    ensures
        ({
            let (r, after) = write_with_draw(s, passphrase, name, value, require_existing, action, nonce, at, at);
            &&& history_spec(after, passphrase, name) matches Ok(rows)
            &&& rows.len() >= 1
            &&& rows.last() == (r->Ok_0, at)
            &&& rows.drop_last() == match history_spec(s, passphrase, name) {
                Ok(earlier) => earlier,
                Err(_) => Seq::<(u32, u64)>::empty(),
            }
            &&& after.log.len() == s.log.len() + 1
            &&& after.log.last().ts == at
        }),
{
    a_write_keeps_the_history(s, passphrase, name, value, require_existing, action, nonce, at, at);
}

impl Store {
    /// A store for the vault at `path`, with no vault file and an empty audit log.
    pub fn new(path: String) -> (store: Store)
        ensures
            store@.path == path@,
            store@.audit_path == audit_path_for(path@),
            store@.disk == DiskV::Missing,
            store@.log == Seq::<EntryV>::empty(),
    {
        let mut audit_path = path.clone();
        audit_path.append(".audit");
        Store { path, audit_path, disk: Disk::Missing, log: Vec::new() }
    }

    /// A store for the vault at `path`, holding what reading the vault file gave and the
    /// entries read from its audit log.
    pub fn open(path: String, disk: Disk, log: Vec<Entry>) -> (store: Store)
        ensures
            store@.path == path@,
            store@.audit_path == audit_path_for(path@),
            store@.disk == disk@,
            store@.log == log_view(log@),
    {
        let mut audit_path = path.clone();
        audit_path.append(".audit");
        Store { path, audit_path, disk, log }
    }

    /// The vault file's path.
    pub fn path(&self) -> (p: &str)
        ensures
            p@ == self@.path,
    {
        self.path.as_str()
    }

    /// The audit log's path.
    pub fn audit_path(&self) -> (p: &str)
        ensures
            p@ == self@.audit_path,
    {
        self.audit_path.as_str()
    }

    /// Whether there is a vault file.
    pub fn vault_exists(&self) -> (present: bool)
        ensures
            present == !(self@.disk is Missing),
    {
        match self.disk {
            Disk::Missing => false,
            _ => true,
        }
    }

    /// What the vault file holds, to be written back after a change.
    pub fn disk(&self) -> (d: &Disk)
        ensures
            d@ == self@.disk,
    {
        &self.disk
    }

    /// The audit log's entries, the new ones last.
    pub fn log(&self) -> (entries: &Vec<Entry>)
        ensures
            log_view(entries@) == self@.log,
    {
        &self.log
    }

    /// The store's parts: the vault's path, what the vault file holds, and the audit
    /// log's entries, for writing back.
    pub fn into_parts(self) -> (parts: (String, Disk, Vec<Entry>))
        ensures
            parts.0@ == self@.path,
            parts.1@ == self@.disk,
            log_view(parts.2@) == self@.log,
    {
        (self.path, self.disk, self.log)
    }

    /// Records `action` on `target` in the audit log, chained to its last entry and
    /// stamped with the current time.
    fn record(&mut self, action: &str, target: &str) -> (ts: Ghost<u64>)
        requires
            has_room(old(self)@.log),
        ensures
            final(self)@ == (StoreV { log: old(self)@.log.push(next_entry(old(self)@.log, action@, target@, ts@)), ..old(self)@ }),
    {
        let ts = now();
        append(&mut self.log, action, target, ts);
        Ghost(ts)
    }

    /// Records `action` on `target` in the audit log, chained to its last entry and
    /// stamped with `ts`.
    fn record_at(&mut self, action: &str, target: &str, ts: u64)
        requires
            has_room(old(self)@.log),
        ensures
            final(self)@ == (StoreV { log: old(self)@.log.push(next_entry(old(self)@.log, action@, target@, ts)), ..old(self)@ }),
    {
        append(&mut self.log, action, target, ts);
    }

    /// Writes `value` as the next version of `name`, created at time `at`, and records
    /// `action` on it at that time.
    fn write_version(&mut self, passphrase: &str, name: &str, value: &[u8], action: &str, require_existing: bool, at: u64) -> (r: Result<u32, Error>)
        requires
            passphrase_fits(passphrase@),
            name_fits(name@),
            value_fits(value@.len()),
            has_room(old(self)@.log),
        ensures
            exists|nonce: Option<Seq<u8>>|
                (nonce matches Some(n) ==> n.len() == NONCE_LEN) && #[trigger] write_with_draw(
                    old(self)@,
                    passphrase@,
                    name@,
                    value@,
                    require_existing,
                    action@,
                    nonce,
                    at,
                    at,
                ) == (outcome(r), final(self)@),
            r matches Ok(k) ==> (numbered_at(old(self)@, name@) || numbered_store(old(self)@) ==> {
                &&& get_spec(final(self)@, passphrase@, name@, None) == Ok::<Seq<u8>, Fault>(value@)
                &&& get_spec(final(self)@, passphrase@, name@, Some(k)) == Ok::<Seq<u8>, Fault>(value@)
            }),
            numbered_store(old(self)@) ==> numbered_store(final(self)@),
    {
        let ghost before = self@;
        let ghost no_draw: Option<Seq<u8>> = None;
        let mut dek = match unlock(&self.disk, passphrase) {
            Ok(d) => d,
            Err(e) => {
                assert(write_with_draw(before, passphrase@, name@, value@, require_existing, action@, no_draw, at, at) == (outcome::<u32>(Err(e)), self@));
                return Err(e);
            },
        };
        let mut disk = Disk::Missing;
        std::mem::swap(&mut disk, &mut self.disk);
        let mut vault = match disk {
            Disk::Parsed(v) => v,
            _ => {
                assert(false);
                return Err(Error::NotInitialized);
            },
        };
        let ghost v0 = vault@;
        assert(v0 == unlock_spec(before.disk, passphrase@)->Ok_0.0);
        proof {
            if numbered_store(before) {
                lemma_find_name(v0.secrets, name@, 0);
                if let Some(i) = find_name(v0.secrets, name@) {
                    assert(versions_consecutive(v0.secrets[i].1));
                }
            }
        }
        match find_secret(&vault.secrets, name) {
            None => {
                if require_existing {
                    wipe(&mut dek);
                    self.disk = Disk::Parsed(vault);
                    let e = Error::NotFound(String::from_str(name));
                    assert(write_with_draw(before, passphrase@, name@, value@, require_existing, action@, no_draw, at, at) == (outcome::<u32>(Err(e)), self@));
                    return Err(e);
                }
                if dek.len() != KEY_LEN {
                    wipe(&mut dek);
                    self.disk = Disk::Parsed(vault);
                    let e = corrupt("dek");
                    assert(write_with_draw(before, passphrase@, name@, value@, require_existing, action@, no_draw, at, at) == (outcome::<u32>(Err(e)), self@));
                    return Err(e);
                }
                let aad = context(name, 1);
                let sealed = seal(dek.as_slice(), value, aad.as_slice());
                let ghost dek_v = dek@;
                wipe(&mut dek);
                let (nonce, ct) = match sealed {
                    Some(pair) => pair,
                    None => {
                        self.disk = Disk::Parsed(vault);
                        let e = no_randomness();
                        assert(write_outcome(before, passphrase@, name@, value@, require_existing, action@, Seq::empty(), at, at).0 is Ok);
                        assert(write_with_draw(before, passphrase@, name@, value@, require_existing, action@, no_draw, at, at) == (outcome::<u32>(Err(e)), self@));
                        return Err(e);
                    },
                };
                let created_at = at;
                let first = Version { version: 1, created_at, nonce: b64(nonce.as_slice()), ct: b64(ct.as_slice()) };
                assert(first@ == sealed_version(dek_v, name@, value@, 1, nonce@, created_at));
                let mut versions = Vec::new();
                versions.push(first);
                let secret = Secret { current: 1, versions };
                assert(secret@.versions =~= seq![first@]);
                let pos = insert_position(&vault.secrets, name);
                let ghost old_secrets = vault.secrets@;
                let entry = (String::from_str(name), secret);
                vault.secrets.insert(pos, entry);
                assert(secrets_view(vault.secrets@) =~= secrets_view(old_secrets).insert(pos as int, (name@, secret@)));
                self.record_at(action, name, at);
                let ghost ts = at;
                self.disk = Disk::Parsed(vault);
                assert(write_outcome(before, passphrase@, name@, value@, require_existing, action@, nonce@, created_at, ts).1 =~= self@);
                assert(write_outcome(before, passphrase@, name@, value@, require_existing, action@, nonce@, created_at, ts) == (outcome::<u32>(Ok(1u32)), self@));
                assert(write_with_draw(before, passphrase@, name@, value@, require_existing, action@, Some(nonce@), created_at, ts) == (outcome::<u32>(Ok(1u32)), self@));
                proof {
                    if numbered_at(before, name@) {
                        lemma_read_back(before, passphrase@, name@, value@, require_existing, action@, nonce@, created_at, ts);
                    }
                    changes_keep_versions_numbered(before, passphrase@, name@, value@, require_existing, action@, Some(nonce@), created_at, ts, None);
                }
                Ok(1)
            },
            Some(i) => {
                assert(v0.secrets[i as int].1.current == vault.secrets@[i as int].1.current);
                if vault.secrets[i].1.current == u32::MAX {
                    wipe(&mut dek);
                    self.disk = Disk::Parsed(vault);
                    let e = corrupt("version counter overflow");
                    assert(write_with_draw(before, passphrase@, name@, value@, require_existing, action@, no_draw, at, at) == (outcome::<u32>(Err(e)), self@));
                    return Err(e);
                }
                if dek.len() != KEY_LEN {
                    wipe(&mut dek);
                    self.disk = Disk::Parsed(vault);
                    let e = corrupt("dek");
                    assert(write_with_draw(before, passphrase@, name@, value@, require_existing, action@, no_draw, at, at) == (outcome::<u32>(Err(e)), self@));
                    return Err(e);
                }
                let version = vault.secrets[i].1.current + 1;
                let aad = context(name, version);
                let sealed = seal(dek.as_slice(), value, aad.as_slice());
                let ghost dek_v = dek@;
                wipe(&mut dek);
                let (nonce, ct) = match sealed {
                    Some(pair) => pair,
                    None => {
                        self.disk = Disk::Parsed(vault);
                        let e = no_randomness();
                        assert(write_outcome(before, passphrase@, name@, value@, require_existing, action@, Seq::empty(), at, at).0 is Ok);
                        assert(write_with_draw(before, passphrase@, name@, value@, require_existing, action@, no_draw, at, at) == (outcome::<u32>(Err(e)), self@));
                        return Err(e);
                    },
                };
                let ghost old_secrets = vault.secrets@;
                let (key, mut secret) = vault.secrets.remove(i);
                let ghost old_secret = secret@;
                let created_at = at;
                let added = Version { version, created_at, nonce: b64(nonce.as_slice()), ct: b64(ct.as_slice()) };
                assert(added@ == sealed_version(dek_v, name@, value@, version, nonce@, created_at));
                secret.versions.push(added);
                secret.current = version;
                assert(secret@.versions =~= old_secret.versions.push(added@));
                vault.secrets.insert(i, (key, secret));
                assert(secrets_view(vault.secrets@) =~= secrets_view(old_secrets).update(i as int, (secrets_view(old_secrets)[i as int].0, secret@)));
                self.record_at(action, name, at);
                let ghost ts = at;
                self.disk = Disk::Parsed(vault);
                assert(write_outcome(before, passphrase@, name@, value@, require_existing, action@, nonce@, created_at, ts).1 =~= self@);
                assert(write_outcome(before, passphrase@, name@, value@, require_existing, action@, nonce@, created_at, ts) == (outcome::<u32>(Ok(version)), self@));
                assert(write_with_draw(before, passphrase@, name@, value@, require_existing, action@, Some(nonce@), created_at, ts) == (outcome::<u32>(Ok(version)), self@));
                proof {
                    if numbered_at(before, name@) {
                        lemma_read_back(before, passphrase@, name@, value@, require_existing, action@, nonce@, created_at, ts);
                    }
                    changes_keep_versions_numbered(before, passphrase@, name@, value@, require_existing, action@, Some(nonce@), created_at, ts, None);
                }
                Ok(version)
            },
        }
    }

    /// Creates the vault: a random salt and data key, the data key sealed under the
    /// key derived from `passphrase`, and an `init` audit entry. Refused where a vault
    /// file exists, and where the random generator gives nothing. The passphrase then
    /// opens the new vault, which holds no secrets, and gives back the `KEY_LEN`-byte
    /// data key that was sealed.
    pub fn init(&mut self, passphrase: &str) -> (r: Result<(), Error>)
        requires
            passphrase_fits(passphrase@),
            has_room(old(self)@.log),
        ensures
            exists|drawn: Option<(Seq<u8>, Seq<u8>, Seq<u8>)>, ts: u64|
                (drawn matches Some((salt, dek, nonce)) ==> salt.len() == SALT_LEN && dek.len() == KEY_LEN && nonce.len() == NONCE_LEN)
                    && #[trigger] init_with_draw(old(self)@, passphrase@, drawn, ts) == (outcome(r), final(self)@)
                    && (r is Ok ==> (drawn matches Some((salt, dek, nonce)) && unlock_spec(final(self)@.disk, passphrase@)
                        == Ok::<(VaultV, Seq<u8>), Fault>((initial_vault(passphrase@, salt, dek, nonce), dek)))),
            r is Ok ==> (unlock_spec(final(self)@.disk, passphrase@) matches Ok((v, k)) && v.secrets.len() == 0 && k.len() == KEY_LEN),
            r is Ok ==> numbered_store(final(self)@),
    {
        let ghost before = self@;
        let ghost no_draw: Option<(Seq<u8>, Seq<u8>, Seq<u8>)> = None;
        if self.vault_exists() {
            assert(init_with_draw(before, passphrase@, no_draw, 0) == (outcome::<()>(Err(Error::AlreadyInitialized)), self@));
            return Err(Error::AlreadyInitialized);
        }
        proof { lemma_dek_aad_len(); }
        let salt = match random(SALT_LEN) {
            Some(b) => b,
            None => {
                let e = no_randomness();
                assert(init_with_draw(before, passphrase@, no_draw, 0) == (outcome::<()>(Err(e)), self@));
                return Err(e);
            },
        };
        let mut dek = match random(KEY_LEN) {
            Some(b) => b,
            None => {
                let e = no_randomness();
                assert(init_with_draw(before, passphrase@, no_draw, 0) == (outcome::<()>(Err(e)), self@));
                return Err(e);
            },
        };
        let mut kek = derive_key(passphrase, salt.as_slice());
        let sealed = seal(kek.as_slice(), dek.as_slice(), DEK_AAD.as_bytes());
        let ghost kek_v = kek@;
        let ghost dek_v = dek@;
        wipe(&mut kek);
        wipe(&mut dek);
        let (nonce, ct) = match sealed {
            Some(pair) => pair,
            None => {
                let e = no_randomness();
                assert(init_with_draw(before, passphrase@, no_draw, 0) == (outcome::<()>(Err(e)), self@));
                return Err(e);
            },
        };
        let vault = Vault {
            format: FORMAT,
            kdf: Kdf { algo: String::from_str("argon2id"), salt: b64(salt.as_slice()) },
            dek: Sealed { nonce: b64(nonce.as_slice()), ct: b64(ct.as_slice()) },
            secrets: Vec::new(),
        };
        assert(vault@.secrets =~= Seq::<(Seq<char>, SecretV)>::empty());
        assert(vault@ == initial_vault(passphrase@, salt@, dek_v, nonce@));
        let Ghost(ts) = self.record("init", "");
        self.disk = Disk::Parsed(vault);
        assert(init_outcome(before, passphrase@, salt@, dek_v, nonce@, ts).1 =~= self@);
        assert(init_outcome(before, passphrase@, salt@, dek_v, nonce@, ts) == (outcome::<()>(Ok(())), self@));
        assert(init_with_draw(before, passphrase@, Some((salt@, dek_v, nonce@)), ts) == (outcome::<()>(Ok(())), self@));
        assert(kek_v == argon2id_key(passphrase@, salt@));
        assert(unlock_spec(self@.disk, passphrase@) == Ok::<(VaultV, Seq<u8>), Fault>((initial_vault(passphrase@, salt@, dek_v, nonce@), dek_v)));
        proof {
            changes_keep_versions_numbered(before, passphrase@, ""@, Seq::empty(), false, ""@, None, 0, ts, Some((salt@, dek_v, nonce@)));
        }
        Ok(())
    }

    /// Stores `value` as the next version of `name` (version 1 for a new name), created
    /// at time `at`, and records a `put` audit entry at that time; returns the new
    /// version's number. A read of `name` then gives `value`, both as the current version
    /// and by that number. Refused, with nothing changed, where the random generator
    /// gives no nonce.
    pub fn put_at(&mut self, passphrase: &str, name: &str, value: &[u8], at: u64) -> (r: Result<u32, Error>)
        requires
            passphrase_fits(passphrase@),
            name_fits(name@),
            value_fits(value@.len()),
            has_room(old(self)@.log),
        ensures
            exists|nonce: Option<Seq<u8>>|
                (nonce matches Some(n) ==> n.len() == NONCE_LEN) && #[trigger] write_with_draw(
                    old(self)@,
                    passphrase@,
                    name@,
                    value@,
                    false,
                    "put"@,
                    nonce,
                    at,
                    at,
                ) == (outcome(r), final(self)@),
            r matches Ok(k) ==> (numbered_at(old(self)@, name@) || numbered_store(old(self)@) ==> {
                &&& get_spec(final(self)@, passphrase@, name@, None) == Ok::<Seq<u8>, Fault>(value@)
                &&& get_spec(final(self)@, passphrase@, name@, Some(k)) == Ok::<Seq<u8>, Fault>(value@)
            }),
            numbered_store(old(self)@) ==> numbered_store(final(self)@),
    {
        self.write_version(passphrase, name, value, "put", false, at)
    }

    /// Stores `value` as the next version of `name` (version 1 for a new name) and
    /// records a `put` audit entry; the version and the entry carry the same reading of
    /// the clock. Returns the new version's number. A read of `name` then gives `value`,
    /// both as the current version and by that number. Refused, with nothing changed,
    /// where the random generator gives no nonce.
    pub fn put(&mut self, passphrase: &str, name: &str, value: &[u8]) -> (r: Result<u32, Error>)
        requires
            passphrase_fits(passphrase@),
            name_fits(name@),
            value_fits(value@.len()),
            has_room(old(self)@.log),
        ensures
            exists|nonce: Option<Seq<u8>>, ts: u64|
                (nonce matches Some(n) ==> n.len() == NONCE_LEN) && #[trigger] write_with_draw(
                    old(self)@,
                    passphrase@,
                    name@,
                    value@,
                    false,
                    "put"@,
                    nonce,
                    ts,
                    ts,
                ) == (outcome(r), final(self)@),
            r matches Ok(k) ==> (numbered_at(old(self)@, name@) || numbered_store(old(self)@) ==> {
                &&& get_spec(final(self)@, passphrase@, name@, None) == Ok::<Seq<u8>, Fault>(value@)
                &&& get_spec(final(self)@, passphrase@, name@, Some(k)) == Ok::<Seq<u8>, Fault>(value@)
            }),
            numbered_store(old(self)@) ==> numbered_store(final(self)@),
    {
        let at = now();
        self.put_at(passphrase, name, value, at)
    }

    /// Stores `value` as the next version of the existing secret `name`, created at
    /// time `at`, and records a `rotate` audit entry at that time; returns the new
    /// version's number. Refused with `NotFound` where there is no such secret, and with
    /// nothing changed where the random generator gives no nonce. Earlier versions stay
    /// readable by number.
    pub fn rotate_at(&mut self, passphrase: &str, name: &str, value: &[u8], at: u64) -> (r: Result<u32, Error>)
        requires
            passphrase_fits(passphrase@),
            name_fits(name@),
            value_fits(value@.len()),
            has_room(old(self)@.log),
        ensures
            exists|nonce: Option<Seq<u8>>|
                (nonce matches Some(n) ==> n.len() == NONCE_LEN) && #[trigger] write_with_draw(
                    old(self)@,
                    passphrase@,
                    name@,
                    value@,
                    true,
                    "rotate"@,
                    nonce,
                    at,
                    at,
                ) == (outcome(r), final(self)@),
            r matches Ok(k) ==> (numbered_at(old(self)@, name@) || numbered_store(old(self)@) ==> {
                &&& get_spec(final(self)@, passphrase@, name@, None) == Ok::<Seq<u8>, Fault>(value@)
                &&& get_spec(final(self)@, passphrase@, name@, Some(k)) == Ok::<Seq<u8>, Fault>(value@)
            }),
            numbered_store(old(self)@) ==> numbered_store(final(self)@),
    {
        self.write_version(passphrase, name, value, "rotate", true, at)
    }

    /// Stores `value` as the next version of the existing secret `name` and records a
    /// `rotate` audit entry; the version and the entry carry the same reading of the
    /// clock. Returns the new version's number. Refused with `NotFound` where there is
    /// no such secret, and with nothing changed where the random generator gives no
    /// nonce. Earlier versions stay readable by number.
    pub fn rotate(&mut self, passphrase: &str, name: &str, value: &[u8]) -> (r: Result<u32, Error>)
        requires
            passphrase_fits(passphrase@),
            name_fits(name@),
            value_fits(value@.len()),
            has_room(old(self)@.log),
        ensures
            exists|nonce: Option<Seq<u8>>, ts: u64|
                (nonce matches Some(n) ==> n.len() == NONCE_LEN) && #[trigger] write_with_draw(
                    old(self)@,
                    passphrase@,
                    name@,
                    value@,
                    true,
                    "rotate"@,
                    nonce,
                    ts,
                    ts,
                ) == (outcome(r), final(self)@),
            r matches Ok(k) ==> (numbered_at(old(self)@, name@) || numbered_store(old(self)@) ==> {
                &&& get_spec(final(self)@, passphrase@, name@, None) == Ok::<Seq<u8>, Fault>(value@)
                &&& get_spec(final(self)@, passphrase@, name@, Some(k)) == Ok::<Seq<u8>, Fault>(value@)
            }),
            numbered_store(old(self)@) ==> numbered_store(final(self)@),
    {
        let at = now();
        self.rotate_at(passphrase, name, value, at)
    }

    /// Reads version `version` of `name` (the current one where `None`) and records a
    /// `get` audit entry when the read succeeds.
    pub fn get(&mut self, passphrase: &str, name: &str, version: Option<u32>) -> (r: Result<Vec<u8>, Error>)
        requires
            passphrase_fits(passphrase@),
            has_room(old(self)@.log),
        ensures
            match r {
                Ok(value) => get_spec(old(self)@, passphrase@, name@, version) == Ok::<Seq<u8>, Fault>(value@),
                Err(e) => get_spec(old(self)@, passphrase@, name@, version) == Err::<Seq<u8>, Fault>(e@),
            },
            exists|ts: u64| #[trigger] get_record(old(self)@, passphrase@, name@, version, ts) == final(self)@,
    {
        let ghost before = self@;
        let mut dek = match unlock(&self.disk, passphrase) {
            Ok(d) => d,
            Err(e) => {
                assert(get_record(before, passphrase@, name@, version, 0) == self@);
                return Err(e);
            },
        };
        let vault = match &self.disk {
            Disk::Parsed(v) => v,
            _ => {
                assert(false);
                return Err(Error::NotInitialized);
            },
        };
        let ghost vv = vault@;
        let i = match find_secret(&vault.secrets, name) {
            Some(i) => i,
            None => {
                wipe(&mut dek);
                assert(get_record(before, passphrase@, name@, version, 0) == self@);
                return Err(Error::NotFound(String::from_str(name)));
            },
        };
        let secret = &vault.secrets[i].1;
        assert(vv.secrets[i as int].1 == secret@);
        let want = match version {
            Some(w) => w,
            None => secret.current,
        };
        let j = match find_version_index(&secret.versions, want) {
            Some(j) => j,
            None => {
                wipe(&mut dek);
                let mut missing = String::from_str(name);
                missing.append("@");
                push_decimal(&mut missing, want as u64);
                assert(get_record(before, passphrase@, name@, version, 0) == self@);
                return Err(Error::NotFound(missing));
            },
        };
        let chosen = &secret.versions[j];
        assert(secret@.versions[j as int] == chosen@);
        let nonce = match unb64(chosen.nonce.as_str()) {
            Some(n) => n,
            None => {
                wipe(&mut dek);
                assert(get_record(before, passphrase@, name@, version, 0) == self@);
                return Err(corrupt("nonce"));
            },
        };
        let ct = match unb64(chosen.ct.as_str()) {
            Some(c) => c,
            None => {
                wipe(&mut dek);
                assert(get_record(before, passphrase@, name@, version, 0) == self@);
                return Err(corrupt("ciphertext"));
            },
        };
        let aad = context(name, want);
        let opened = open(dek.as_slice(), nonce.as_slice(), ct.as_slice(), aad.as_slice());
        wipe(&mut dek);
        match opened {
            None => {
                assert(get_record(before, passphrase@, name@, version, 0) == self@);
                Err(corrupt("secret"))
            },
            Some(plaintext) => {
                let Ghost(ts) = self.record("get", name);
                assert(get_record(before, passphrase@, name@, version, ts) =~= self@);
                Ok(plaintext)
            },
        }
    }

    /// Deletes `name` with all its versions and records an `rm` audit entry. Refused
    /// with `NotFound` where there is no such secret.
    pub fn remove(&mut self, passphrase: &str, name: &str) -> (r: Result<(), Error>)
        requires
            passphrase_fits(passphrase@),
            has_room(old(self)@.log),
        ensures
            exists|ts: u64| #[trigger] remove_outcome(old(self)@, passphrase@, name@, ts) == (outcome(r), final(self)@),
            numbered_store(old(self)@) ==> numbered_store(final(self)@),
    {
        let ghost before = self@;
        let mut dek = match unlock(&self.disk, passphrase) {
            Ok(d) => d,
            Err(e) => {
                assert(remove_outcome(before, passphrase@, name@, 0) == (outcome::<()>(Err(e)), self@));
                return Err(e);
            },
        };
        wipe(&mut dek);
        let mut disk = Disk::Missing;
        std::mem::swap(&mut disk, &mut self.disk);
        let mut vault = match disk {
            Disk::Parsed(v) => v,
            _ => {
                assert(false);
                return Err(Error::NotInitialized);
            },
        };
        match find_secret(&vault.secrets, name) {
            None => {
                self.disk = Disk::Parsed(vault);
                let e = Error::NotFound(String::from_str(name));
                assert(remove_outcome(before, passphrase@, name@, 0) == (outcome::<()>(Err(e)), self@));
                Err(e)
            },
            Some(i) => {
                let ghost old_secrets = vault.secrets@;
                vault.secrets.remove(i);
                assert(secrets_view(vault.secrets@) =~= secrets_view(old_secrets).remove(i as int));
                let Ghost(ts) = self.record("rm", name);
                self.disk = Disk::Parsed(vault);
                assert(remove_outcome(before, passphrase@, name@, ts).1 =~= self@);
                assert(remove_outcome(before, passphrase@, name@, ts) == (outcome::<()>(Ok(())), self@));
                proof {
                    changes_keep_versions_numbered(before, passphrase@, name@, Seq::empty(), false, ""@, None, 0, ts, None);
                }
                Ok(())
            },
        }
    }

    /// Each secret's name, current version and number of versions, in name order;
    /// a successful listing is recorded as an `ls` audit entry.
    pub fn list(&mut self, passphrase: &str) -> (r: Result<Vec<(String, u32, usize)>, Error>)
        requires
            passphrase_fits(passphrase@),
            has_room(old(self)@.log),
        ensures
            match r {
                Ok(items) => unlock_spec(old(self)@.disk, passphrase@) is Ok && items@.map_values(
                    |t: (String, u32, usize)| (t.0@, t.1, t.2 as nat),
                ) == listing(unlock_spec(old(self)@.disk, passphrase@)->Ok_0.0),
                Err(e) => unlock_spec(old(self)@.disk, passphrase@) == Err::<(VaultV, Seq<u8>), Fault>(e@),
            },
            r matches Ok(items) ==> forall|i: int, j: int|
                0 <= i < j < items@.len() ==> bytes_lt(#[trigger] name_key(items@[i].0@), #[trigger] name_key(items@[j].0@)),
            r is Ok ==> exists|ts: u64| #[trigger] recorded(old(self)@, "ls"@, ""@, ts) == final(self)@,
            r is Err ==> final(self)@ == old(self)@,
    {
        let mut dek = match unlock(&self.disk, passphrase) {
            Ok(d) => d,
            Err(e) => return Err(e),
        };
        wipe(&mut dek);
        let items = list_secrets(&self.disk);
        let Ghost(ts) = self.record("ls", "");
        assert(recorded(old(self)@, "ls"@, ""@, ts) == self@);
        Ok(items)
    }

    /// The number and creation time of each version of `name`, oldest first. Refused
    /// with `NotFound` where there is no such secret. A successful read of the history
    /// is recorded as a `history` audit entry.
    pub fn history(&mut self, passphrase: &str, name: &str) -> (r: Result<Vec<(u32, u64)>, Error>)
        requires
            passphrase_fits(passphrase@),
            has_room(old(self)@.log),
        ensures
            match r {
                Ok(rows) => history_spec(old(self)@, passphrase@, name@) == Ok::<Seq<(u32, u64)>, Fault>(rows@),
                Err(e) => history_spec(old(self)@, passphrase@, name@) == Err::<Seq<(u32, u64)>, Fault>(e@),
            },
            r is Ok ==> exists|ts: u64| #[trigger] recorded(old(self)@, "history"@, name@, ts) == final(self)@,
            r is Err ==> final(self)@ == old(self)@,
    {
        let mut dek = match unlock(&self.disk, passphrase) {
            Ok(d) => d,
            Err(e) => return Err(e),
        };
        wipe(&mut dek);
        let rows = match history_rows(&self.disk, name) {
            Some(rows) => rows,
            None => return Err(Error::NotFound(String::from_str(name))),
        };
        let Ghost(ts) = self.record("history", name);
        assert(recorded(old(self)@, "history"@, name@, ts) == self@);
        Ok(rows)
    }
}

} // verus!
