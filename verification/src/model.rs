//! The vault's data: the key-derivation parameters, the sealed data key, and the
//! secrets with their versions.
//!
//! Secrets are kept as a list of `(name, secret)` pairs in strictly increasing order of
//! the names' UTF-8 bytes, which is the order in which a map keyed by name lists them.
use vstd::prelude::*;
use vstd::string::StringExecFns;
use vstd::utf8::encode_utf8;

verus! {

/// A sealed value: base64 of the nonce and of the ciphertext.
#[derive(Clone, Debug)]
pub struct Sealed {
    pub nonce: String,
    pub ct: String,
}

/// How the key-encryption key is derived: the algorithm's name and the base64 salt.
#[derive(Clone, Debug)]
pub struct Kdf {
    pub algo: String,
    pub salt: String,
}

/// One version of a secret: its number, when it was written, and its sealed value.
#[derive(Clone, Debug)]
pub struct Version {
    pub version: u32,
    pub created_at: u64,
    pub nonce: String,
    pub ct: String,
}

/// A secret: the number of its current version and every version written so far.
#[derive(Clone, Debug)]
pub struct Secret {
    pub current: u32,
    pub versions: Vec<Version>,
}

/// The vault file's content.
#[derive(Clone, Debug)]
pub struct Vault {
    pub format: u32,
    pub kdf: Kdf,
    pub dek: Sealed,
    pub secrets: Vec<(String, Secret)>,
}

pub struct SealedV {
    pub nonce: Seq<char>,
    pub ct: Seq<char>,
}

pub struct KdfV {
    pub algo: Seq<char>,
    pub salt: Seq<char>,
}

pub struct VersionV {
    pub version: u32,
    pub created_at: u64,
    pub nonce: Seq<char>,
    pub ct: Seq<char>,
}

pub struct SecretV {
    pub current: u32,
    pub versions: Seq<VersionV>,
}

pub struct VaultV {
    pub format: u32,
    pub kdf: KdfV,
    pub dek: SealedV,
    pub secrets: Seq<(Seq<char>, SecretV)>,
}

impl View for Sealed {
    type V = SealedV;

    open spec fn view(&self) -> SealedV {
        SealedV { nonce: self.nonce@, ct: self.ct@ }
    }
}

impl View for Kdf {
    type V = KdfV;

    open spec fn view(&self) -> KdfV {
        KdfV { algo: self.algo@, salt: self.salt@ }
    }
}

impl View for Version {
    type V = VersionV;

    open spec fn view(&self) -> VersionV {
        VersionV { version: self.version, created_at: self.created_at, nonce: self.nonce@, ct: self.ct@ }
    }
}

impl View for Secret {
    type V = SecretV;

    open spec fn view(&self) -> SecretV {
        SecretV { current: self.current, versions: self.versions@.map_values(|v: Version| v@) }
    }
}

/// The secrets of a vault as values.
pub open spec fn secrets_view(secrets: Seq<(String, Secret)>) -> Seq<(Seq<char>, SecretV)> {
    secrets.map_values(|p: (String, Secret)| (p.0@, p.1@))
}

impl View for Vault {
    type V = VaultV;

    open spec fn view(&self) -> VaultV {
        VaultV { format: self.format, kdf: self.kdf@, dek: self.dek@, secrets: secrets_view(self.secrets@) }
    }
}

/// `a` comes before `b` in lexicographic byte order, comparing from position `i` on.
pub open spec fn bytes_lt_from(a: Seq<u8>, b: Seq<u8>, i: nat) -> bool
    decreases a.len() - i,
{
    if i >= a.len() {
        i < b.len()
    } else if i >= b.len() {
        false
    } else if a[i as int] < b[i as int] {
        true
    } else if a[i as int] > b[i as int] {
        false
    } else {
        bytes_lt_from(a, b, i + 1)
    }
}

/// `a` comes before `b` in lexicographic byte order (a proper prefix comes first).
pub open spec fn bytes_lt(a: Seq<u8>, b: Seq<u8>) -> bool {
    bytes_lt_from(a, b, 0)
}

/// The bytes by which a name is ordered: its UTF-8 encoding.
pub open spec fn name_key(name: Seq<char>) -> Seq<u8> {
    encode_utf8(name)
}

/// The names of `secrets` are strictly increasing, hence distinct.
pub open spec fn names_sorted(secrets: Seq<(Seq<char>, SecretV)>) -> bool {
    forall|i: int, j: int|
        0 <= i < j < secrets.len() ==> bytes_lt(#[trigger] name_key(secrets[i].0), #[trigger] name_key(secrets[j].0))
}

/// The first position at or after `i` whose name is `name`.
pub open spec fn find_name_from(secrets: Seq<(Seq<char>, SecretV)>, name: Seq<char>, i: int) -> Option<int>
    decreases secrets.len() - i,
{
    if i < 0 || i >= secrets.len() {
        None
    } else if secrets[i].0 == name {
        Some(i)
    } else {
        find_name_from(secrets, name, i + 1)
    }
}

/// The position of the secret called `name`, if there is one.
pub open spec fn find_name(secrets: Seq<(Seq<char>, SecretV)>, name: Seq<char>) -> Option<int> {
    find_name_from(secrets, name, 0)
}

/// The first position at or after `i` that holds version number `want`.
pub open spec fn find_version_from(versions: Seq<VersionV>, want: u32, i: int) -> Option<int>
    decreases versions.len() - i,
{
    if i < 0 || i >= versions.len() {
        None
    } else if versions[i].version == want {
        Some(i)
    } else {
        find_version_from(versions, want, i + 1)
    }
}

/// The position of the first version numbered `want`, if there is one.
pub open spec fn find_version(versions: Seq<VersionV>, want: u32) -> Option<int> {
    find_version_from(versions, want, 0)
}

/// The first position at or after `i` whose name does not come before `key`.
pub open spec fn insert_pos_from(secrets: Seq<(Seq<char>, SecretV)>, key: Seq<u8>, i: int) -> int
    decreases secrets.len() - i,
{
    if i < 0 || i >= secrets.len() {
        secrets.len() as int
    } else if bytes_lt(name_key(secrets[i].0), key) {
        insert_pos_from(secrets, key, i + 1)
    } else {
        i
    }
}

/// Where a new secret called `name` goes to keep the names in order.
pub open spec fn insert_pos(secrets: Seq<(Seq<char>, SecretV)>, name: Seq<char>) -> int {
    insert_pos_from(secrets, name_key(name), 0)
}

/// No version of the secret carries a number above its current one, as holds of every
/// secret that this library writes.
pub open spec fn versions_numbered(secret: SecretV) -> bool {
    forall|j: int| 0 <= j < secret.versions.len() ==> #[trigger] secret.versions[j].version <= secret.current
}

/// The secret's versions are numbered 1, 2, ..., and the last is the current one, as
/// holds of every secret that this library writes.
pub open spec fn versions_consecutive(secret: SecretV) -> bool {
    &&& secret.current == secret.versions.len()
    &&& forall|j: int| 0 <= j < secret.versions.len() ==> #[trigger] secret.versions[j].version == j + 1
}

/// Every secret's versions are numbered 1, 2, ... up to its current one.
pub open spec fn all_consecutive(secrets: Seq<(Seq<char>, SecretV)>) -> bool {
    forall|i: int| 0 <= i < secrets.len() ==> versions_consecutive(#[trigger] secrets[i].1)
}

/// In consecutively numbered versions, number `w` is found at position `w - 1` when it
/// is at least 1 and at most the current one, and nowhere otherwise.
pub proof fn lemma_consecutive_find(secret: SecretV, want: u32)
    requires
        versions_consecutive(secret),
    ensures
        find_version(secret.versions, want) == if 1 <= want <= secret.current {
            Some(want - 1)
        } else {
            None::<int>
        },
{
    lemma_find_version(secret.versions, want, 0);
    if 1 <= want <= secret.current {
        assert(secret.versions[want - 1].version == want);
    }
}

/// Byte order is irreflexive.
pub proof fn lemma_bytes_lt_irreflexive(a: Seq<u8>, i: nat)
    ensures
        !bytes_lt_from(a, a, i),
    decreases a.len() - i,
{
    if i < a.len() {
        lemma_bytes_lt_irreflexive(a, i + 1);
    }
}

/// Byte order is asymmetric.
pub proof fn lemma_bytes_lt_asymmetric(a: Seq<u8>, b: Seq<u8>, i: nat)
    requires
        bytes_lt_from(a, b, i),
    ensures
        !bytes_lt_from(b, a, i),
    decreases a.len() - i,
{
    if i < a.len() && i < b.len() && a[i as int] == b[i as int] {
        lemma_bytes_lt_asymmetric(a, b, i + 1);
    }
}

/// Byte order is transitive.
pub proof fn lemma_bytes_lt_transitive(a: Seq<u8>, b: Seq<u8>, c: Seq<u8>, i: nat)
    requires
        bytes_lt_from(a, b, i),
        bytes_lt_from(b, c, i),
    ensures
        bytes_lt_from(a, c, i),
    decreases a.len() - i,
{
    if i < a.len() && i < b.len() && i < c.len() && a[i as int] == b[i as int] && b[i as int] == c[i as int] {
        lemma_bytes_lt_transitive(a, b, c, i + 1);
    }
}

/// Two byte strings that agree before `i` and differ are ordered one way or the other.
pub proof fn lemma_bytes_lt_total(a: Seq<u8>, b: Seq<u8>, i: nat)
    requires
        i <= a.len(),
        i <= b.len(),
        a.subrange(0, i as int) == b.subrange(0, i as int),
        a != b,
    ensures
        bytes_lt_from(a, b, i) || bytes_lt_from(b, a, i),
    decreases a.len() - i,
{
    if i == a.len() && i == b.len() {
        assert(a == a.subrange(0, i as int));
        assert(b == b.subrange(0, i as int));
    } else if i < a.len() && i < b.len() && a[i as int] == b[i as int] {
        assert(a.subrange(0, (i + 1) as int) == a.subrange(0, i as int).push(a[i as int]));
        assert(b.subrange(0, (i + 1) as int) == b.subrange(0, i as int).push(b[i as int]));
        lemma_bytes_lt_total(a, b, i + 1);
    }
}

/// Distinct names have distinct keys.
pub proof fn lemma_name_key_injective(a: Seq<char>, b: Seq<char>)
    requires
        name_key(a) == name_key(b),
    ensures
        a == b,
{
    vstd::utf8::encode_utf8_decode_utf8(a);
    vstd::utf8::encode_utf8_decode_utf8(b);
}

/// Of two distinct names, one comes before the other.
pub proof fn lemma_names_ordered(a: Seq<char>, b: Seq<char>)
    requires
        a != b,
    ensures
        bytes_lt(name_key(a), name_key(b)) || bytes_lt(name_key(b), name_key(a)),
{
    if name_key(a) == name_key(b) {
        lemma_name_key_injective(a, b);
    }
    assert(name_key(a).subrange(0, 0) == name_key(b).subrange(0, 0));
    lemma_bytes_lt_total(name_key(a), name_key(b), 0);
}

/// What `find_name_from` finds.
pub proof fn lemma_find_name(secrets: Seq<(Seq<char>, SecretV)>, name: Seq<char>, i: int)
    requires
        0 <= i <= secrets.len(),
    ensures
        match find_name_from(secrets, name, i) {
            Some(k) => i <= k < secrets.len() && secrets[k].0 == name
                && forall|j: int| i <= j < k ==> secrets[j].0 != name,
            None => forall|j: int| i <= j < secrets.len() ==> secrets[j].0 != name,
        },
    decreases secrets.len() - i,
{
    if i < secrets.len() {
        lemma_find_name(secrets, name, i + 1);
    }
}

/// What `find_version_from` finds.
pub proof fn lemma_find_version(versions: Seq<VersionV>, want: u32, i: int)
    requires
        0 <= i <= versions.len(),
    ensures
        match find_version_from(versions, want, i) {
            Some(k) => i <= k < versions.len() && versions[k].version == want
                && forall|j: int| i <= j < k ==> versions[j].version != want,
            None => forall|j: int| i <= j < versions.len() ==> versions[j].version != want,
        },
    decreases versions.len() - i,
{
    if i < versions.len() {
        lemma_find_version(versions, want, i + 1);
    }
}

/// In sorted secrets, a name found at `k` is found at `k`; no other position holds it.
pub proof fn lemma_sorted_find(secrets: Seq<(Seq<char>, SecretV)>, k: int)
    requires
        names_sorted(secrets),
        0 <= k < secrets.len(),
    ensures
        find_name(secrets, secrets[k].0) == Some(k),
{
    lemma_find_name(secrets, secrets[k].0, 0);
    match find_name(secrets, secrets[k].0) {
        Some(f) => {
            if f < k {
                assert(bytes_lt(name_key(secrets[f].0), name_key(secrets[k].0)));
                lemma_bytes_lt_irreflexive(name_key(secrets[k].0), 0);
            }
        },
        None => {},
    }
}

/// Where `insert_pos_from` lands in sorted secrets: every name before it comes before
/// `key`, and no name from it on does.
pub proof fn lemma_insert_pos(secrets: Seq<(Seq<char>, SecretV)>, key: Seq<u8>, i: int)
    requires
        names_sorted(secrets),
        0 <= i <= secrets.len(),
        forall|j: int| 0 <= j < i ==> bytes_lt(#[trigger] name_key(secrets[j].0), key),
    ensures
        i <= insert_pos_from(secrets, key, i) <= secrets.len(),
        forall|j: int| 0 <= j < insert_pos_from(secrets, key, i) ==> bytes_lt(#[trigger] name_key(secrets[j].0), key),
        forall|j: int| insert_pos_from(secrets, key, i) <= j < secrets.len() ==> !bytes_lt(#[trigger] name_key(secrets[j].0), key),
    decreases secrets.len() - i,
{
    if i < secrets.len() {
        if bytes_lt(name_key(secrets[i].0), key) {
            lemma_insert_pos(secrets, key, i + 1);
        } else {
            assert forall|j: int| i <= j < secrets.len() implies !bytes_lt(#[trigger] name_key(secrets[j].0), key) by {
                if j > i && bytes_lt(name_key(secrets[j].0), key) {
                    lemma_bytes_lt_transitive(name_key(secrets[i].0), name_key(secrets[j].0), key, 0);
                }
            }
        }
    }
}

/// Inserting a new name at its position keeps the names sorted, and the name is then
/// found there.
pub proof fn lemma_sorted_insert(secrets: Seq<(Seq<char>, SecretV)>, name: Seq<char>, secret: SecretV)
    requires
        names_sorted(secrets),
        find_name(secrets, name) is None,
    ensures
        0 <= insert_pos(secrets, name) <= secrets.len(),
        names_sorted(secrets.insert(insert_pos(secrets, name), (name, secret))),
        find_name(secrets.insert(insert_pos(secrets, name), (name, secret)), name) == Some(insert_pos(secrets, name)),
{
    let key = name_key(name);
    let pos = insert_pos(secrets, name);
    lemma_insert_pos(secrets, key, 0);
    lemma_find_name(secrets, name, 0);
    let grown = secrets.insert(pos, (name, secret));
    assert forall|j: int| pos <= j < secrets.len() implies bytes_lt(key, #[trigger] name_key(secrets[j].0)) by {
        lemma_names_ordered(name, secrets[j].0);
    }
    assert forall|i: int, j: int| 0 <= i < j < grown.len() implies bytes_lt(
        #[trigger] name_key(grown[i].0),
        #[trigger] name_key(grown[j].0),
    ) by {
        if i < pos && j > pos {
            lemma_bytes_lt_transitive(name_key(grown[i].0), key, name_key(grown[j].0), 0);
        }
    }
    lemma_sorted_find(grown, pos);
}

/// Removing a secret keeps the names sorted.
pub proof fn lemma_sorted_remove(secrets: Seq<(Seq<char>, SecretV)>, k: int)
    requires
        names_sorted(secrets),
        0 <= k < secrets.len(),
    ensures
        names_sorted(secrets.remove(k)),
{
    let shrunk = secrets.remove(k);
    assert forall|i: int, j: int| 0 <= i < j < shrunk.len() implies bytes_lt(
        #[trigger] name_key(shrunk[i].0),
        #[trigger] name_key(shrunk[j].0),
    ) by {
        let oi = if i < k { i } else { i + 1 };
        let oj = if j < k { j } else { j + 1 };
        assert(shrunk[i] == secrets[oi]);
        assert(shrunk[j] == secrets[oj]);
    }
}

/// Secrets with the same names at the same positions find every name alike.
pub proof fn lemma_find_same_names(a: Seq<(Seq<char>, SecretV)>, b: Seq<(Seq<char>, SecretV)>, name: Seq<char>, i: int)
    requires
        a.len() == b.len(),
        forall|j: int| 0 <= j < a.len() ==> #[trigger] a[j].0 == b[j].0,
    ensures
        find_name_from(a, name, i) == find_name_from(b, name, i),
    decreases a.len() - i,
{
    if 0 <= i < a.len() {
        lemma_find_same_names(a, b, name, i + 1);
    }
}

/// Replacing a secret but keeping its name keeps the names sorted and every name found
/// where it was.
pub proof fn lemma_sorted_update(secrets: Seq<(Seq<char>, SecretV)>, k: int, secret: SecretV)
    requires
        names_sorted(secrets),
        0 <= k < secrets.len(),
    ensures
        names_sorted(secrets.update(k, (secrets[k].0, secret))),
        forall|name: Seq<char>| #[trigger] find_name(secrets.update(k, (secrets[k].0, secret)), name) == find_name(secrets, name),
{
    let changed = secrets.update(k, (secrets[k].0, secret));
    assert forall|i: int, j: int| 0 <= i < j < changed.len() implies bytes_lt(
        #[trigger] name_key(changed[i].0),
        #[trigger] name_key(changed[j].0),
    ) by {
        assert(changed[i].0 == secrets[i].0 && changed[j].0 == secrets[j].0);
    }
    assert forall|name: Seq<char>| #[trigger] find_name(changed, name) == find_name(secrets, name) by {
        lemma_find_same_names(changed, secrets, name, 0);
    }
}

/// Adding a secret whose name differs from `name` shifts where `name` is found past
/// the new one's position, and finds nothing new.
pub proof fn lemma_find_after_insert(secrets: Seq<(Seq<char>, SecretV)>, pos: int, added: (Seq<char>, SecretV), name: Seq<char>)
    requires
        0 <= pos <= secrets.len(),
        added.0 != name,
    ensures
        find_name(secrets.insert(pos, added), name) == match find_name(secrets, name) {
            Some(k) => Some(if k < pos { k } else { k + 1 }),
            None => None::<int>,
        },
{
    let grown = secrets.insert(pos, added);
    lemma_find_name(secrets, name, 0);
    lemma_find_name(grown, name, 0);
    match find_name(secrets, name) {
        Some(k) => {
            let k2 = if k < pos { k } else { k + 1 };
            assert(grown[k2] == secrets[k]);
            assert forall|j: int| 0 <= j < k2 implies grown[j].0 != name by {
                if j < pos {
                    assert(grown[j] == secrets[j]);
                } else if j > pos {
                    assert(grown[j] == secrets[j - 1]);
                }
            }
        },
        None => {
            assert forall|j: int| 0 <= j < grown.len() implies grown[j].0 != name by {
                if j < pos {
                    assert(grown[j] == secrets[j]);
                } else if j > pos {
                    assert(grown[j] == secrets[j - 1]);
                }
            }
        },
    }
}

/// Removing a secret whose name differs from `name` shifts where `name` is found back
/// past the removed position.
pub proof fn lemma_find_after_remove(secrets: Seq<(Seq<char>, SecretV)>, pos: int, name: Seq<char>)
    requires
        0 <= pos < secrets.len(),
        secrets[pos].0 != name,
    ensures
        find_name(secrets.remove(pos), name) == match find_name(secrets, name) {
            Some(k) => Some(if k < pos { k } else { k - 1 }),
            None => None::<int>,
        },
{
    let shrunk = secrets.remove(pos);
    lemma_find_name(secrets, name, 0);
    lemma_find_name(shrunk, name, 0);
    match find_name(secrets, name) {
        Some(k) => {
            let k2 = if k < pos { k } else { k - 1 };
            assert(shrunk[k2] == secrets[k]);
            assert forall|j: int| 0 <= j < k2 implies shrunk[j].0 != name by {
                if j < pos {
                    assert(shrunk[j] == secrets[j]);
                } else {
                    assert(shrunk[j] == secrets[j + 1]);
                }
            }
        },
        None => {
            assert forall|j: int| 0 <= j < shrunk.len() implies shrunk[j].0 != name by {
                if j < pos {
                    assert(shrunk[j] == secrets[j]);
                } else {
                    assert(shrunk[j] == secrets[j + 1]);
                }
            }
        },
    }
}

/// Adding a version with another number finds every number where it was found.
pub proof fn lemma_find_version_push(versions: Seq<VersionV>, added: VersionV, want: u32)
    requires
        added.version != want,
    ensures
        find_version(versions.push(added), want) == find_version(versions, want),
{
    lemma_find_version(versions, want, 0);
    lemma_find_version(versions.push(added), want, 0);
    let longer = versions.push(added);
    assert forall|j: int| 0 <= j < versions.len() implies longer[j] == versions[j] by {}
}

/// The order of names is the order of byte strings that `String` and `Vec<u8>` use:
/// `a` comes before `b` exactly when, at the first position where they differ, `a` has
/// the smaller byte, or when `a` is a proper prefix of `b`.
pub proof fn byte_order_is_lexicographic(a: Seq<u8>, b: Seq<u8>)
    ensures
        bytes_lt(a, b) <==> {
            ||| exists|j: int| 0 <= j < a.len() && j < b.len() && a.take(j) == b.take(j) && #[trigger] a[j] < b[j]
            ||| a.len() < b.len() && b.take(a.len() as int) == a
        },
{
    assert(a.take(0) =~= b.take(0));
    lemma_lt_from_first_difference(a, b, 0);
}

/// A proper prefix comes before what it begins.
pub proof fn a_prefix_comes_first(a: Seq<u8>, rest: Seq<u8>)
    requires
        rest.len() > 0,
    ensures
        bytes_lt(a, a + rest),
        !bytes_lt(a + rest, a),
{
    let b = a + rest;
    assert(b.take(a.len() as int) == a);
    byte_order_is_lexicographic(a, b);
    byte_order_is_lexicographic(b, a);
    if bytes_lt(b, a) {
        let j = choose|j: int| 0 <= j < b.len() && j < a.len() && b.take(j) == a.take(j) && #[trigger] b[j] < a[j];
        assert(b[j] == a[j]);
    }
}

proof fn lemma_lt_from_first_difference(a: Seq<u8>, b: Seq<u8>, i: nat)
    requires
        i <= a.len(),
        i <= b.len(),
        a.take(i as int) == b.take(i as int),
    ensures
        bytes_lt_from(a, b, i) <==> {
            ||| exists|j: int| 0 <= j < a.len() && j < b.len() && a.take(j) == b.take(j) && #[trigger] a[j] < b[j]
            ||| a.len() < b.len() && b.take(a.len() as int) == a
        },
    decreases a.len() - i,
{
    let first = exists|j: int| 0 <= j < a.len() && j < b.len() && a.take(j) == b.take(j) && #[trigger] a[j] < b[j];
    assert forall|j: int| 0 <= j < i implies #[trigger] a[j] == b[j] by {
        assert(a.take(i as int)[j] == a[j]);
        assert(b.take(i as int)[j] == b[j]);
    }
    if i >= a.len() || i >= b.len() || a[i as int] != b[i as int] {
        if first {
            let j = choose|j: int| 0 <= j < a.len() && j < b.len() && a.take(j) == b.take(j) && #[trigger] a[j] < b[j];
            if j > i {
                assert(a.take(j)[i as int] == b.take(j)[i as int]);
            }
        }
        if a.len() < b.len() && b.take(a.len() as int) == a && i < a.len() {
            assert(b.take(a.len() as int)[i as int] == b[i as int]);
        }
        if i == a.len() {
            assert(a == a.take(i as int));
        }
        if i < a.len() && i < b.len() && a[i as int] < b[i as int] {
            assert(a.take(i as int) == b.take(i as int));
            assert(a[i as int] < b[i as int]);
        }
    } else {
        assert(a.take(i + 1 as int) == a.take(i as int).push(a[i as int]));
        assert(b.take(i + 1 as int) == b.take(i as int).push(b[i as int]));
        lemma_lt_from_first_difference(a, b, i + 1);
    }
}

/// How two byte strings compare.
pub enum KeyOrder {
    Before,
    Same,
    After,
}

/// Compares two byte strings in lexicographic order.
pub fn compare_keys(a: &[u8], b: &[u8]) -> (order: KeyOrder)
    ensures
        order is Before <==> bytes_lt(a@, b@),
        order is After <==> bytes_lt(b@, a@),
        order is Same <==> a@ == b@,
{
    let mut i: usize = 0;
    while i < a.len() && i < b.len()
        invariant
            i <= a@.len(),
            i <= b@.len(),
            a@.subrange(0, i as int) == b@.subrange(0, i as int),
            bytes_lt(a@, b@) == bytes_lt_from(a@, b@, i as nat),
            bytes_lt(b@, a@) == bytes_lt_from(b@, a@, i as nat),
        decreases a@.len() - i,
    {
        if a[i] < b[i] {
            return KeyOrder::Before;
        }
        if a[i] > b[i] {
            return KeyOrder::After;
        }
        assert(a@.subrange(0, i + 1) == a@.subrange(0, i as int).push(a@[i as int]));
        assert(b@.subrange(0, i + 1) == b@.subrange(0, i as int).push(b@[i as int]));
        i = i + 1;
    }
    if a.len() < b.len() {
        KeyOrder::Before
    } else if a.len() > b.len() {
        KeyOrder::After
    } else {
        assert(a@ == a@.subrange(0, i as int));
        assert(b@ == b@.subrange(0, i as int));
        proof { lemma_bytes_lt_irreflexive(a@, 0); }
        KeyOrder::Same
    }
}

/// The position of the secret called `name`.
pub fn find_secret(secrets: &Vec<(String, Secret)>, name: &str) -> (found: Option<usize>)
    ensures
        match found {
            Some(k) => find_name(secrets_view(secrets@), name@) == Some(k as int) && k < secrets@.len()
                && secrets_view(secrets@)[k as int].0 == name@,
            None => find_name(secrets_view(secrets@), name@) is None,
        },
{
    let ghost sv = secrets_view(secrets@);
    let wanted = String::from_str(name);
    let mut i: usize = 0;
    while i < secrets.len()
        invariant
            sv == secrets_view(secrets@),
            wanted@ == name@,
            i <= secrets@.len(),
            find_name(sv, name@) == find_name_from(sv, name@, i as int),
        decreases secrets@.len() - i,
    {
        assert(sv[i as int].0 == secrets@[i as int].0@);
        if secrets[i].0 == wanted {
            return Some(i);
        }
        i = i + 1;
    }
    None
}

/// The position of the first version numbered `want`.
pub fn find_version_index(versions: &Vec<Version>, want: u32) -> (found: Option<usize>)
    ensures
        match found {
            Some(k) => find_version(versions@.map_values(|v: Version| v@), want) == Some(k as int) && k < versions@.len(),
            None => find_version(versions@.map_values(|v: Version| v@), want) is None,
        },
{
    let ghost vv = versions@.map_values(|v: Version| v@);
    let mut i: usize = 0;
    while i < versions.len()
        invariant
            vv == versions@.map_values(|v: Version| v@),
            i <= versions@.len(),
            find_version(vv, want) == find_version_from(vv, want, i as int),
        decreases versions@.len() - i,
    {
        assert(vv[i as int].version == versions@[i as int].version);
        if versions[i].version == want {
            return Some(i);
        }
        i = i + 1;
    }
    None
}

/// Where a new secret called `name` goes in sorted secrets.
pub fn insert_position(secrets: &Vec<(String, Secret)>, name: &str) -> (pos: usize)
    ensures
        pos as int == insert_pos(secrets_view(secrets@), name@),
        pos <= secrets@.len(),
{
    let ghost sv = secrets_view(secrets@);
    let key = name.as_bytes();
    let mut i: usize = 0;
    while i < secrets.len()
        invariant
            sv == secrets_view(secrets@),
            key@ == name_key(name@),
            i <= secrets@.len(),
            insert_pos(sv, name@) == insert_pos_from(sv, key@, i as int),
        decreases secrets@.len() - i,
    {
        assert(sv[i as int].0 == secrets@[i as int].0@);
        match compare_keys(secrets[i].0.as_str().as_bytes(), key) {
            KeyOrder::Before => {},
            _ => {
                return i;
            },
        }
        i = i + 1;
    }
    i
}

/// Whether the names of `secrets` are strictly increasing.
pub fn check_names_sorted(secrets: &Vec<(String, Secret)>) -> (sorted: bool)
    ensures
        sorted == names_sorted(secrets_view(secrets@)),
{
    let ghost sv = secrets_view(secrets@);
    if secrets.len() == 0 {
        return true;
    }
    let mut i: usize = 1;
    while i < secrets.len()
        invariant
            sv == secrets_view(secrets@),
            1 <= i <= secrets@.len(),
            names_sorted(sv.subrange(0, i as int)),
        decreases secrets@.len() - i,
    {
        assert(sv[i - 1].0 == secrets@[i - 1].0@);
        assert(sv[i as int].0 == secrets@[i as int].0@);
        match compare_keys(secrets[i - 1].0.as_str().as_bytes(), secrets[i].0.as_str().as_bytes()) {
            KeyOrder::Before => {},
            _ => {
                assert(!bytes_lt(name_key(sv[i - 1].0), name_key(sv[i as int].0)));
                return false;
            },
        }
        let ghost pre = sv.subrange(0, i as int);
        let ghost next = sv.subrange(0, i + 1);
        assert forall|a: int, b: int| 0 <= a < b < next.len() implies bytes_lt(
            #[trigger] name_key(next[a].0),
            #[trigger] name_key(next[b].0),
        ) by {
            if b == i {
                if a < i - 1 {
                    assert(bytes_lt(name_key(pre[a].0), name_key(pre[i - 1].0)));
                    lemma_bytes_lt_transitive(name_key(next[a].0), name_key(next[i - 1].0), name_key(next[b].0), 0);
                }
            } else {
                assert(next[a] == pre[a] && next[b] == pre[b]);
            }
        }
        i = i + 1;
    }
    assert(sv.subrange(0, i as int) == sv);
    true
}

} // verus!
