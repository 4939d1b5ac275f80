//! The audit log: a hash chain of entries, each naming an action on the vault.
//!
//! Entry `i` (counting from 1) carries sequence number `i`, the hash of entry `i - 1`
//! (or `GENESIS` for the first), and its own hash: the lowercase hex SHA-256 of
//! `seq || ts || 0 || action || 0 || target || 0 || prev` (integers little-endian).
use sha2::{Digest, Sha256};
use vstd::bytes::{spec_u64_from_le_bytes, spec_u64_to_le_bytes, u64_to_le_bytes};
use vstd::prelude::*;
use vstd::string::StringExecFns;
use vstd::utf8::{encode_scalar, encode_utf8};

use crate::text::{decimal_chars, extend_bytes, push_decimal};

verus! {

/// The `prev` of the first entry of a log.
pub const GENESIS: &'static str = "GENESIS";

/// One line of the audit log.
#[derive(Clone, Debug)]
pub struct Entry {
    pub seq: u64,
    pub ts: u64,
    pub action: String,
    pub target: String,
    pub prev: String,
    pub hash: String,
}

/// An entry as a value.
pub struct EntryV {
    pub seq: u64,
    pub ts: u64,
    pub action: Seq<char>,
    pub target: Seq<char>,
    pub prev: Seq<char>,
    pub hash: Seq<char>,
}

impl View for Entry {
    type V = EntryV;

    open spec fn view(&self) -> EntryV {
        EntryV {
            seq: self.seq,
            ts: self.ts,
            action: self.action@,
            target: self.target@,
            prev: self.prev@,
            hash: self.hash@,
        }
    }
}

/// A log as a sequence of entry values.
pub open spec fn log_view(log: Seq<Entry>) -> Seq<EntryV> {
    log.map_values(|e: Entry| e@)
}

/// The SHA-256 digest of `data`, as `sha2::Sha256` computes it.
pub uninterp spec fn sha256(data: Seq<u8>) -> Seq<u8>;

/// SHA-256 of `data` (`sha2::Sha256::digest`).
///
/// Trusted: the digest is `sha256(data)` and has 32 bytes.
#[verifier::external_body]
fn sha256_digest(data: &[u8]) -> (digest: Vec<u8>)
    ensures
        digest@ == sha256(data@),
        digest@.len() == 32,
{
    Sha256::digest(data).to_vec()
}

/// The lowercase hex digit for `n` (below 16).
pub open spec fn nibble_char(n: nat) -> char {
    if n < 10 {
        crate::text::digit_char(n)
    } else if n == 10 { 'a' }
    else if n == 11 { 'b' }
    else if n == 12 { 'c' }
    else if n == 13 { 'd' }
    else if n == 14 { 'e' }
    else { 'f' }
}

/// Lowercase hex of `bytes`, two digits per byte, most significant digit first.
pub open spec fn hex_chars(bytes: Seq<u8>) -> Seq<char>
    decreases bytes.len(),
{
    if bytes.len() == 0 {
        Seq::empty()
    } else {
        hex_chars(bytes.drop_last())
            .push(nibble_char((bytes.last() / 16) as nat))
            .push(nibble_char((bytes.last() % 16) as nat))
    }
}

fn nibble(n: u8) -> (c: char)
    requires
        n < 16,
    ensures
        c == nibble_char(n as nat),
{
    if n == 0 { '0' }
    else if n == 1 { '1' }
    else if n == 2 { '2' }
    else if n == 3 { '3' }
    else if n == 4 { '4' }
    else if n == 5 { '5' }
    else if n == 6 { '6' }
    else if n == 7 { '7' }
    else if n == 8 { '8' }
    else if n == 9 { '9' }
    else if n == 10 { 'a' }
    else if n == 11 { 'b' }
    else if n == 12 { 'c' }
    else if n == 13 { 'd' }
    else if n == 14 { 'e' }
    else { 'f' }
}

fn hex(bytes: &[u8]) -> (out: String)
    ensures
        out@ == hex_chars(bytes@),
{
    let mut out = String::new();
    let mut i: usize = 0;
    while i < bytes.len()
        invariant
            i <= bytes@.len(),
            out@ == hex_chars(bytes@.subrange(0, i as int)),
        decreases bytes@.len() - i,
    {
        let b = bytes[i];
        out.push(nibble(b / 16));
        out.push(nibble(b % 16));
        i = i + 1;
        assert(bytes@.subrange(0, i as int).drop_last() == bytes@.subrange(0, i - 1));
    }
    assert(bytes@.subrange(0, i as int) == bytes@);
    out
}

/// The bytes that an entry's hash is taken over.
pub open spec fn digest_message(seq: u64, ts: u64, action: Seq<char>, target: Seq<char>, prev: Seq<char>) -> Seq<u8> {
    spec_u64_to_le_bytes(seq) + spec_u64_to_le_bytes(ts) + seq![0u8] + encode_utf8(action) + seq![0u8]
        + encode_utf8(target) + seq![0u8] + encode_utf8(prev)
}

/// The digest message's layout: the sequence number and the time as 8 little-endian
/// bytes each, a zero byte, the action's UTF-8 bytes, a zero byte, the target's, a zero
/// byte, and the previous hash's, in that order and nothing else.
pub proof fn digest_message_layout(seq: u64, ts: u64, action: Seq<char>, target: Seq<char>, prev: Seq<char>)
    ensures
        ({
            let m = digest_message(seq, ts, action, target, prev);
            let a = encode_utf8(action).len() as int;
            let t = encode_utf8(target).len() as int;
            let p = encode_utf8(prev).len() as int;
            &&& m.len() == 19 + a + t + p
            &&& spec_u64_from_le_bytes(m.subrange(0, 8)) == seq
            &&& spec_u64_from_le_bytes(m.subrange(8, 16)) == ts
            &&& m[16] == 0
            &&& m.subrange(17, 17 + a) == encode_utf8(action)
            &&& m[17 + a] == 0
            &&& m.subrange(18 + a, 18 + a + t) == encode_utf8(target)
            &&& m[18 + a + t] == 0
            &&& m.subrange(19 + a + t, 19 + a + t + p) == encode_utf8(prev)
        }),
{
    vstd::bytes::lemma_auto_spec_u64_to_from_le_bytes();
    let m = digest_message(seq, ts, action, target, prev);
    let ea = encode_utf8(action);
    let et = encode_utf8(target);
    let ep = encode_utf8(prev);
    let a = ea.len() as int;
    let t = et.len() as int;
    assert(m.subrange(0, 8) == spec_u64_to_le_bytes(seq));
    assert(m.subrange(8, 16) == spec_u64_to_le_bytes(ts));
    assert(m.subrange(17, 17 + a) == ea);
    assert(m.subrange(18 + a, 18 + a + t) == et);
    assert(m.subrange(19 + a + t, 19 + a + t + ep.len()) == ep);
}

/// The hash that an entry with these fields carries.
pub open spec fn digest_spec(seq: u64, ts: u64, action: Seq<char>, target: Seq<char>, prev: Seq<char>) -> Seq<char> {
    hex_chars(sha256(digest_message(seq, ts, action, target, prev)))
}

/// The hash of an entry with these fields: lowercase hex SHA-256 of its digest message.
pub fn digest(seq: u64, ts: u64, action: &str, target: &str, prev: &str) -> (hash: String)
    ensures
        hash@ == digest_spec(seq, ts, action@, target@, prev@),
        hash@.len() == 64,
{
    let mut msg = u64_to_le_bytes(seq);
    let mut ts_bytes = u64_to_le_bytes(ts);
    msg.append(&mut ts_bytes);
    msg.push(0u8);
    extend_bytes(&mut msg, action.as_bytes());
    msg.push(0u8);
    extend_bytes(&mut msg, target.as_bytes());
    msg.push(0u8);
    extend_bytes(&mut msg, prev.as_bytes());
    assert(msg@ == digest_message(seq, ts, action@, target@, prev@));
    let d = sha256_digest(msg.as_slice());
    proof { lemma_hex_len(d@); }
    hex(d.as_slice())
}

/// The entry that appending `action` on `target` at time `ts` adds to `log`.
pub open spec fn next_entry(log: Seq<EntryV>, action: Seq<char>, target: Seq<char>, ts: u64) -> EntryV {
    let seq: u64 = if log.len() == 0 { 1 } else { (log.last().seq + 1) as u64 };
    let prev = if log.len() == 0 { GENESIS@ } else { log.last().hash };
    EntryV { seq, ts, action, target, prev, hash: digest_spec(seq, ts, action, target, prev) }
}

/// Whether one more entry can be appended: the last sequence number has a successor.
pub open spec fn has_room(log: Seq<EntryV>) -> bool {
    log.len() == 0 || log.last().seq < u64::MAX
}

fn copy_entry(e: &Entry) -> (c: Entry)
    ensures
        c@ == e@,
{
    Entry {
        seq: e.seq,
        ts: e.ts,
        action: e.action.clone(),
        target: e.target.clone(),
        prev: e.prev.clone(),
        hash: e.hash.clone(),
    }
}

/// Appends the entry for `action` on `target` at time `ts`, chained to the last entry,
/// and returns it.
pub fn append(log: &mut Vec<Entry>, action: &str, target: &str, ts: u64) -> (entry: Entry)
    requires
        has_room(log_view(old(log)@)),
    ensures
        entry@ == next_entry(log_view(old(log)@), action@, target@, ts),
        log_view(final(log)@) == log_view(old(log)@).push(entry@),
{
    let ghost before = log_view(log@);
    let (seq, prev) = if log.len() == 0 {
        (1u64, String::from_str(GENESIS))
    } else {
        let last = &log[log.len() - 1];
        (last.seq + 1, last.hash.clone())
    };
    let hash = digest(seq, ts, action, target, prev.as_str());
    let entry = Entry {
        seq,
        ts,
        action: String::from_str(action),
        target: String::from_str(target),
        prev,
        hash,
    };
    log.push(copy_entry(&entry));
    assert(log_view(log@) == before.push(entry@));
    entry
}

/// The message for a log with no entries.
pub open spec fn empty_log_message() -> Seq<char> {
    "audit log is empty or missing (expected at least the init entry)"@
}

/// The outcome of checking `log` from position `i` on, where the entry before `i`
/// had hash `prev`: the log's length, or the message for the first broken entry.
pub open spec fn chain_from(log: Seq<EntryV>, i: nat, prev: Seq<char>) -> Result<nat, Seq<char>>
    decreases log.len() - i,
{
    if i >= log.len() {
        Ok(log.len())
    } else {
        let e = log[i as int];
        if e.seq != i + 1 {
            Err("entry "@ + decimal_chars(i + 1) + ": bad sequence "@ + decimal_chars(e.seq as nat))
        } else if e.prev != prev {
            Err("entry "@ + decimal_chars(e.seq as nat) + ": broken chain link"@)
        } else if digest_spec(e.seq, e.ts, e.action, e.target, e.prev) != e.hash {
            Err("entry "@ + decimal_chars(e.seq as nat) + ": hash mismatch (tampered)"@)
        } else {
            chain_from(log, i + 1, e.hash)
        }
    }
}

/// The outcome of checking a whole log: its length when every entry has the right
/// sequence number, link and hash; otherwise the message for the first broken entry.
/// An empty log is refused.
pub open spec fn verify_spec(log: Seq<EntryV>) -> Result<nat, Seq<char>> {
    if log.len() == 0 {
        Err(empty_log_message())
    } else {
        chain_from(log, 0, GENESIS@)
    }
}

/// Checks the hash chain of `log`: returns the number of entries, or a message naming
/// the first entry whose sequence number, link or hash is wrong. An empty log is
/// refused, since the first entry is always written when the vault is created.
pub fn verify(log: &Vec<Entry>) -> (result: Result<usize, String>)
    ensures
        match result {
            Ok(n) => verify_spec(log_view(log@)) == Ok::<nat, Seq<char>>(n as nat),
            Err(msg) => verify_spec(log_view(log@)) == Err::<nat, Seq<char>>(msg@),
        },
        log@.len() == 0 ==> result is Err,
{
    let ghost lv = log_view(log@);
    if log.len() == 0 {
        return Err(String::from_str("audit log is empty or missing (expected at least the init entry)"));
    }
    let mut prev = String::from_str(GENESIS);
    let mut i: usize = 0;
    while i < log.len()
        invariant
            lv == log_view(log@),
            i <= log@.len(),
            log@.len() > 0,
            verify_spec(lv) == chain_from(lv, i as nat, prev@),
        decreases log@.len() - i,
    {
        let entry = &log[i];
        assert(lv[i as int] == entry@);
        let expected: u64 = i as u64 + 1;
        if entry.seq != expected {
            let mut msg = String::from_str("entry ");
            push_decimal(&mut msg, expected);
            msg.append(": bad sequence ");
            push_decimal(&mut msg, entry.seq);
            return Err(msg);
        }
        if !(entry.prev == prev) {
            let mut msg = String::from_str("entry ");
            push_decimal(&mut msg, entry.seq);
            msg.append(": broken chain link");
            return Err(msg);
        }
        let recomputed = digest(entry.seq, entry.ts, entry.action.as_str(), entry.target.as_str(), entry.prev.as_str());
        if !(recomputed == entry.hash) {
            let mut msg = String::from_str("entry ");
            push_decimal(&mut msg, entry.seq);
            msg.append(": hash mismatch (tampered)");
            return Err(msg);
        }
        prev = entry.hash.clone();
        i = i + 1;
    }
    Ok(log.len())
}

/// Hex rendering spells each byte as two digits of the lowercase alphabet
/// `0123456789abcdef`, the high nibble first: byte `i` gives the digits at positions
/// `2 * i` and `2 * i + 1`, and there is nothing else.
pub proof fn hex_is_lowercase_digits(bytes: Seq<u8>)
    ensures
        hex_chars(bytes).len() == 2 * bytes.len(),
        forall|i: int|
            0 <= i < bytes.len() ==> {
                &&& hex_chars(bytes)[2 * i] == "0123456789abcdef"@[(#[trigger] bytes[i] / 16) as int]
                &&& hex_chars(bytes)[2 * i + 1] == "0123456789abcdef"@[(bytes[i] % 16) as int]
            },
    decreases bytes.len(),
{
    reveal_strlit("0123456789abcdef");
    lemma_hex_len(bytes);
    if bytes.len() > 0 {
        let init = bytes.drop_last();
        hex_is_lowercase_digits(init);
        let h = hex_chars(bytes);
        assert forall|n: nat| n < 16 implies #[trigger] nibble_char(n) == "0123456789abcdef"@[n as int] by {
            reveal_strlit("0123456789abcdef");
        }
        assert forall|i: int| 0 <= i < bytes.len() implies {
            &&& h[2 * i] == "0123456789abcdef"@[(#[trigger] bytes[i] / 16) as int]
            &&& h[2 * i + 1] == "0123456789abcdef"@[(bytes[i] % 16) as int]
        } by {
            if i < init.len() {
                assert(init[i] == bytes[i]);
                assert(h[2 * i] == hex_chars(init)[2 * i]);
                assert(h[2 * i + 1] == hex_chars(init)[2 * i + 1]);
            } else {
                assert(nibble_char((bytes[i] / 16) as nat) == "0123456789abcdef"@[(bytes[i] / 16) as int]);
                assert(nibble_char((bytes[i] % 16) as nat) == "0123456789abcdef"@[(bytes[i] % 16) as int]);
            }
        }
    }
}

/// Hex rendering has two digits per byte.
proof fn lemma_hex_len(bytes: Seq<u8>)
    ensures
        hex_chars(bytes).len() == 2 * bytes.len(),
    decreases bytes.len(),
{
    if bytes.len() > 0 {
        lemma_hex_len(bytes.drop_last());
    }
}

/// Distinct byte strings have distinct hex renderings.
proof fn lemma_hex_injective(a: Seq<u8>, b: Seq<u8>)
    requires
        hex_chars(a) == hex_chars(b),
    ensures
        a == b,
    decreases a.len(),
{
    lemma_hex_len(a);
    lemma_hex_len(b);
    if a.len() > 0 {
        let ha = hex_chars(a);
        let hb = hex_chars(b);
        assert(ha[ha.len() - 1] == hb[hb.len() - 1]);
        assert(ha[ha.len() - 2] == hb[hb.len() - 2]);
        assert(ha.drop_last().drop_last() == hex_chars(a.drop_last()));
        assert(hb.drop_last().drop_last() == hex_chars(b.drop_last()));
        lemma_hex_injective(a.drop_last(), b.drop_last());
        let x = a.last();
        let y = b.last();
        assert(x / 16 == y / 16);
        assert(x % 16 == y % 16);
        assert(x == y);
        assert(a == a.drop_last().push(x));
        assert(b == b.drop_last().push(y));
    }
}

/// What a successful check from position `i` shows of the entries from `i` on.
proof fn lemma_chain_facts(log: Seq<EntryV>, i: nat, prev: Seq<char>)
    requires
        i <= log.len(),
        chain_from(log, i, prev) is Ok,
    ensures
        chain_from(log, i, prev) == Ok::<nat, Seq<char>>(log.len()),
        forall|j: int| i <= j < log.len() ==> #[trigger] log[j].seq == j + 1,
        forall|j: int|
            i <= j < log.len() ==> #[trigger] log[j].hash == digest_spec(
                log[j].seq,
                log[j].ts,
                log[j].action,
                log[j].target,
                log[j].prev,
            ),
        forall|j: int| i < j < log.len() ==> #[trigger] log[j].prev == log[j - 1].hash,
        i < log.len() ==> log[i as int].prev == prev,
    decreases log.len() - i,
{
    if i < log.len() {
        lemma_chain_facts(log, i + 1, log[i as int].hash);
    }
}

/// Checking a log that extends a checked prefix goes on where the prefix ended.
proof fn lemma_chain_extend(log: Seq<EntryV>, ext: Seq<EntryV>, i: nat, prev: Seq<char>)
    requires
        i <= log.len(),
        chain_from(log, i, prev) is Ok,
    ensures
        chain_from(log + ext, i, prev) == chain_from(
            log + ext,
            log.len(),
            if i < log.len() { log.last().hash } else { prev },
        ),
    decreases log.len() - i,
{
    if i < log.len() {
        assert((log + ext)[i as int] == log[i as int]);
        lemma_chain_extend(log, ext, i + 1, log[i as int].hash);
    }
}

/// A prefix of a log that checks from position `i` checks too.
proof fn lemma_chain_take(log: Seq<EntryV>, n: nat, i: nat, prev: Seq<char>)
    requires
        i <= n <= log.len(),
        chain_from(log, i, prev) is Ok,
    ensures
        chain_from(log.take(n as int), i, prev) == Ok::<nat, Seq<char>>(n),
    decreases n - i,
{
    if i < n {
        assert(log.take(n as int)[i as int] == log[i as int]);
        lemma_chain_take(log, n, i + 1, log[i as int].hash);
    }
}

/// The text holds no NUL character, so its UTF-8 encoding holds no zero byte and the
/// zero separators of the digest message delimit it.
pub open spec fn free_of_nul(text: Seq<char>) -> bool {
    forall|i: int| 0 <= i < text.len() ==> (#[trigger] text[i]) as u32 != 0
}

/// The UTF-8 encoding of a scalar other than 0 holds no zero byte.
proof fn lemma_scalar_bytes_nonzero(c: u32)
    requires
        0 < c,
    ensures
        forall|i: int| 0 <= i < encode_scalar(c).len() ==> #[trigger] encode_scalar(c)[i] != 0u8,
{
    if c <= 0x7F {
        assert((c & 0x7F) as u8 != 0u8) by (bit_vector)
            requires
                0 < c <= 0x7F,
        ;
    }
    assert(0xC0u8 | ((c >> 6u32) & 0x1F) as u8 != 0u8) by (bit_vector);
    assert(0xE0u8 | ((c >> 12u32) & 0x0F) as u8 != 0u8) by (bit_vector);
    assert(0xF0u8 | ((c >> 18u32) & 0x7) as u8 != 0u8) by (bit_vector);
    assert(0x80u8 | (c & 0x3F) as u8 != 0u8) by (bit_vector);
    assert(0x80u8 | ((c >> 6u32) & 0x3F) as u8 != 0u8) by (bit_vector);
    assert(0x80u8 | ((c >> 12u32) & 0x3F) as u8 != 0u8) by (bit_vector);
}

/// Text free of NUL characters encodes to bytes free of zeros.
proof fn lemma_encoding_free_of_zero(text: Seq<char>)
    requires
        free_of_nul(text),
    ensures
        forall|i: int| 0 <= i < encode_utf8(text).len() ==> #[trigger] encode_utf8(text)[i] != 0u8,
    decreases text.len(),
{
    if text.len() > 0 {
        let c = text[0];
        assert(c as u32 != 0);
        lemma_scalar_bytes_nonzero(c as u32);
        assert(free_of_nul(text.drop_first()) ) by {
            assert forall|i: int| 0 <= i < text.drop_first().len() implies (#[trigger] text.drop_first()[i]) as u32 != 0 by {
                assert(text.drop_first()[i] == text[i + 1]);
            }
        }
        lemma_encoding_free_of_zero(text.drop_first());
        let head = encode_scalar(c as u32);
        let tail = encode_utf8(text.drop_first());
        assert(encode_utf8(text) == head + tail);
        assert forall|i: int| 0 <= i < encode_utf8(text).len() implies #[trigger] encode_utf8(text)[i] != 0u8 by {
            if i < head.len() {
                assert(encode_utf8(text)[i] == head[i]);
            } else {
                assert(encode_utf8(text)[i] == tail[i - head.len()]);
            }
        }
    }
}

/// Two byte strings free of zeros, each followed by a zero and more bytes, that make the
/// same bytes are the same, and so are the bytes after them.
proof fn lemma_split_at_zero(x1: Seq<u8>, r1: Seq<u8>, x2: Seq<u8>, r2: Seq<u8>)
    requires
        forall|i: int| 0 <= i < x1.len() ==> #[trigger] x1[i] != 0u8,
        forall|i: int| 0 <= i < x2.len() ==> #[trigger] x2[i] != 0u8,
        x1 + seq![0u8] + r1 == x2 + seq![0u8] + r2,
    ensures
        x1 == x2,
        r1 == r2,
{
    let m = x1 + seq![0u8] + r1;
    let m2 = x2 + seq![0u8] + r2;
    if x1.len() < x2.len() {
        assert(m[x1.len() as int] == 0u8);
        assert(m2[x1.len() as int] == x2[x1.len() as int]);
    } else if x2.len() < x1.len() {
        assert(m2[x2.len() as int] == 0u8);
        assert(m[x2.len() as int] == x1[x2.len() as int]);
    } else {
        assert(x1 == m.subrange(0, x1.len() as int));
        assert(x2 == m2.subrange(0, x2.len() as int));
        assert(r1 == m.subrange(x1.len() as int + 1, m.len() as int));
        assert(r2 == m2.subrange(x2.len() as int + 1, m2.len() as int));
    }
}

/// Where the action and target hold no NUL character, the digest message determines
/// every field it is made of.
pub proof fn digest_message_determines_its_fields(
    seq1: u64,
    ts1: u64,
    action1: Seq<char>,
    target1: Seq<char>,
    prev1: Seq<char>,
    seq2: u64,
    ts2: u64,
    action2: Seq<char>,
    target2: Seq<char>,
    prev2: Seq<char>,
)
    requires
        free_of_nul(action1),
        free_of_nul(target1),
        free_of_nul(action2),
        free_of_nul(target2),
        digest_message(seq1, ts1, action1, target1, prev1) == digest_message(seq2, ts2, action2, target2, prev2),
    ensures
        seq1 == seq2,
        ts1 == ts2,
        action1 == action2,
        target1 == target2,
        prev1 == prev2,
{
    vstd::bytes::lemma_auto_spec_u64_to_from_le_bytes();
    let m1 = digest_message(seq1, ts1, action1, target1, prev1);
    let m2 = digest_message(seq2, ts2, action2, target2, prev2);
    let h1 = spec_u64_to_le_bytes(seq1) + spec_u64_to_le_bytes(ts1) + seq![0u8];
    let h2 = spec_u64_to_le_bytes(seq2) + spec_u64_to_le_bytes(ts2) + seq![0u8];
    let rest1 = encode_utf8(action1) + seq![0u8] + (encode_utf8(target1) + seq![0u8] + encode_utf8(prev1));
    let rest2 = encode_utf8(action2) + seq![0u8] + (encode_utf8(target2) + seq![0u8] + encode_utf8(prev2));
    assert(m1 =~= h1 + rest1);
    assert(m2 =~= h2 + rest2);
    assert(h1.len() == 17 && h2.len() == 17);
    assert(m1.subrange(0, 8) == spec_u64_to_le_bytes(seq1));
    assert(m2.subrange(0, 8) == spec_u64_to_le_bytes(seq2));
    assert(m1.subrange(8, 16) == spec_u64_to_le_bytes(ts1));
    assert(m2.subrange(8, 16) == spec_u64_to_le_bytes(ts2));
    assert(rest1 == m1.subrange(17, m1.len() as int));
    assert(rest2 == m2.subrange(17, m2.len() as int));
    lemma_encoding_free_of_zero(action1);
    lemma_encoding_free_of_zero(action2);
    lemma_encoding_free_of_zero(target1);
    lemma_encoding_free_of_zero(target2);
    lemma_split_at_zero(
        encode_utf8(action1),
        encode_utf8(target1) + seq![0u8] + encode_utf8(prev1),
        encode_utf8(action2),
        encode_utf8(target2) + seq![0u8] + encode_utf8(prev2),
    );
    lemma_split_at_zero(encode_utf8(target1), encode_utf8(prev1), encode_utf8(target2), encode_utf8(prev2));
    vstd::utf8::encode_utf8_decode_utf8(action1);
    vstd::utf8::encode_utf8_decode_utf8(action2);
    vstd::utf8::encode_utf8_decode_utf8(target1);
    vstd::utf8::encode_utf8_decode_utf8(target2);
    vstd::utf8::encode_utf8_decode_utf8(prev1);
    vstd::utf8::encode_utf8_decode_utf8(prev2);
}

/// Appending to a log that verifies, or to an empty log, gives a log that verifies,
/// one entry longer.
pub proof fn append_keeps_the_chain_valid(log: Seq<EntryV>, action: Seq<char>, target: Seq<char>, ts: u64)
    requires
        log.len() == 0 || verify_spec(log) is Ok,
        has_room(log),
    ensures
        verify_spec(log.push(next_entry(log, action, target, ts))) == Ok::<nat, Seq<char>>(log.len() + 1),
{
    let e = next_entry(log, action, target, ts);
    let longer = log.push(e);
    assert(longer == log + seq![e]);
    if log.len() == 0 {
        assert(longer[0] == e);
        assert(chain_from(longer, 1, e.hash) == Ok::<nat, Seq<char>>(1));
    } else {
        lemma_chain_facts(log, 0, GENESIS@);
        lemma_chain_extend(log, seq![e], 0, GENESIS@);
        assert(longer[log.len() as int] == e);
        assert(chain_from(longer, log.len() + 1, e.hash) == Ok::<nat, Seq<char>>(log.len() + 1));
    }
}

/// Removing any entry but the last from a log that verifies makes it fail to verify.
pub proof fn removing_an_entry_breaks_the_chain(log: Seq<EntryV>, k: int)
    requires
        verify_spec(log) is Ok,
        0 <= k < log.len() - 1,
    ensures
        verify_spec(log.remove(k)) is Err,
{
    lemma_chain_facts(log, 0, GENESIS@);
    let removed = log.remove(k);
    assert(removed == log.take(k) + log.skip(k + 1));
    assert(removed[k] == log[k + 1]);
    if k == 0 {
        assert(removed[0].seq == 2);
    } else {
        lemma_chain_take(log, k as nat, 0, GENESIS@);
        lemma_chain_extend(log.take(k), log.skip(k + 1), 0, GENESIS@);
        assert(removed[k].seq == k + 2);
    }
}

/// Dropping the most recent entries of a log that verifies leaves a log that verifies:
/// a log on its own cannot show that it was cut short.
pub proof fn truncated_log_still_verifies(log: Seq<EntryV>, n: nat)
    requires
        verify_spec(log) is Ok,
        1 <= n <= log.len(),
    ensures
        verify_spec(log.take(n as int)) == Ok::<nat, Seq<char>>(n),
{
    lemma_chain_take(log, n, 0, GENESIS@);
}

/// Replacing the stored hash of any entry of a log that verifies makes it fail to verify.
pub proof fn editing_a_stored_hash_breaks_the_chain(log: Seq<EntryV>, k: int, hash: Seq<char>)
    requires
        verify_spec(log) is Ok,
        0 <= k < log.len(),
        hash != log[k].hash,
    ensures
        verify_spec(log.update(k, EntryV { hash, ..log[k] })) is Err,
{
    lemma_chain_facts(log, 0, GENESIS@);
    let edited = log.update(k, EntryV { hash, ..log[k] });
    if k == 0 {
        assert(edited[0].hash == hash);
    } else {
        lemma_chain_take(log, k as nat, 0, GENESIS@);
        assert(edited == log.take(k) + edited.skip(k));
        lemma_chain_extend(log.take(k), edited.skip(k), 0, GENESIS@);
        assert(edited[k].prev == log[k - 1].hash);
    }
}

/// Changing the sequence number or the link of any entry of a log that verifies, its
/// hash kept, makes the log fail to verify.
pub proof fn editing_a_number_or_link_breaks_the_chain(log: Seq<EntryV>, k: int, edited: EntryV)
    requires
        verify_spec(log) is Ok,
        0 <= k < log.len(),
        edited.hash == log[k].hash,
        edited.seq != log[k].seq || edited.prev != log[k].prev,
    ensures
        verify_spec(log.update(k, edited)) is Err,
{
    let changed = log.update(k, edited);
    lemma_chain_facts(log, 0, GENESIS@);
    if verify_spec(changed) is Ok {
        lemma_chain_facts(changed, 0, GENESIS@);
        assert(changed[k] == edited);
        if k > 0 {
            assert(changed[k - 1] == log[k - 1]);
        }
    }
}

/// An entry of a log that verifies, edited in its time, action or target but keeping
/// its sequence number, link and hash, passes verification only if SHA-256 gives the
/// edited digest message the digest of the original one. Where the time was edited, or
/// the action or target was edited and none of them holds a NUL character, the two
/// messages differ, so that takes a SHA-256 collision. (Text moved across the zero
/// separator between a NUL-holding action and target leaves the message as it was.)
pub proof fn an_edited_entry_passes_only_on_a_digest_collision(log: Seq<EntryV>, k: int, edited: EntryV)
    requires
        verify_spec(log) is Ok,
        0 <= k < log.len(),
        edited.seq == log[k].seq,
        edited.prev == log[k].prev,
        edited.hash == log[k].hash,
        verify_spec(log.update(k, edited)) is Ok,
    ensures
        sha256(digest_message(edited.seq, edited.ts, edited.action, edited.target, edited.prev))
            == sha256(digest_message(log[k].seq, log[k].ts, log[k].action, log[k].target, log[k].prev)),
        edited.ts != log[k].ts ==> digest_message(edited.seq, edited.ts, edited.action, edited.target, edited.prev)
            != digest_message(log[k].seq, log[k].ts, log[k].action, log[k].target, log[k].prev),
        free_of_nul(edited.action) && free_of_nul(edited.target) && free_of_nul(log[k].action) && free_of_nul(
            log[k].target,
        ) && (edited.action != log[k].action || edited.target != log[k].target) ==> digest_message(
            edited.seq,
            edited.ts,
            edited.action,
            edited.target,
            edited.prev,
        ) != digest_message(log[k].seq, log[k].ts, log[k].action, log[k].target, log[k].prev),
{
    let orig = log[k];
    let changed = log.update(k, edited);
    lemma_chain_facts(log, 0, GENESIS@);
    lemma_chain_facts(changed, 0, GENESIS@);
    assert(changed[k] == edited);
    lemma_hex_injective(
        sha256(digest_message(edited.seq, edited.ts, edited.action, edited.target, edited.prev)),
        sha256(digest_message(orig.seq, orig.ts, orig.action, orig.target, orig.prev)),
    );
    let m1 = digest_message(edited.seq, edited.ts, edited.action, edited.target, edited.prev);
    let m2 = digest_message(orig.seq, orig.ts, orig.action, orig.target, orig.prev);
    vstd::bytes::lemma_auto_spec_u64_to_from_le_bytes();
    if m1 == m2 && free_of_nul(edited.action) && free_of_nul(edited.target) && free_of_nul(orig.action) && free_of_nul(orig.target) {
        digest_message_determines_its_fields(
            edited.seq, edited.ts, edited.action, edited.target, edited.prev,
            orig.seq, orig.ts, orig.action, orig.target, orig.prev,
        );
    }
    if m1 == m2 {
        assert(m1.subrange(8, 16) == spec_u64_to_le_bytes(edited.ts));
        assert(m2.subrange(8, 16) == spec_u64_to_le_bytes(orig.ts));
        assert(edited.ts == orig.ts);
    }
}

} // verus!
