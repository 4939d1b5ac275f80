//! Base64 text for binary fields, the wall clock, input trimming, and the steps of
//! taking a vault's lock.
use base64::engine::general_purpose::STANDARD;
use base64::Engine;
use vstd::prelude::*;
use vstd::string::StringExecFns;

verus! {

/// What `base64::engine::general_purpose::STANDARD.encode` returns for `bytes`:
/// the standard alphabet, with `=` padding.
pub uninterp spec fn base64_encode(bytes: Seq<u8>) -> Seq<char>;

/// What `base64::engine::general_purpose::STANDARD.decode` returns for `text`:
/// `None` where the text is not canonical padded standard base64.
pub uninterp spec fn base64_decode(text: Seq<char>) -> Option<Seq<u8>>;

/// Base64 (standard alphabet, padded) of `bytes`, by
/// `base64::engine::general_purpose::STANDARD.encode`.
///
/// Trusted: the text is `base64_encode(bytes)`, four characters for each started group
/// of three bytes (`base64::encoded_len` with padding), and decoding it with the same
/// engine gives `bytes` back, which is what the encoding is for.
#[verifier::external_body]
pub fn b64(bytes: &[u8]) -> (text: String)
    requires
        bytes@.len() <= usize::MAX / 2,
    ensures
        text@ == base64_encode(bytes@),
        text@.len() == 4 * ((bytes@.len() + 2) / 3),
        base64_decode(text@) == Some(bytes@),
{
    STANDARD.encode(bytes)
}

/// Decodes standard padded base64, by `base64::engine::general_purpose::STANDARD.decode`;
/// `None` where the engine reports an error.
///
/// Trusted: the result is `base64_decode(text)`.
#[verifier::external_body]
pub fn unb64(text: &str) -> (bytes: Option<Vec<u8>>)
    ensures
        match bytes {
            Some(b) => base64_decode(text@) == Some(b@),
            None => base64_decode(text@) is None,
        },
{
    STANDARD.decode(text).ok()
}

/// Seconds since the Unix epoch by `std::time::SystemTime::now` and
/// `duration_since(UNIX_EPOCH)`; `None` when the clock reads earlier than the epoch.
///
/// Trusted, with nothing stated of the value: it is the machine's clock.
#[verifier::external_body]
fn seconds_since_epoch() -> Option<u64> {
    match std::time::SystemTime::now().duration_since(std::time::UNIX_EPOCH) {
        Ok(elapsed) => Some(elapsed.as_secs()),
        Err(_) => None,
    }
}

/// The time that a clock reading stands for: its seconds since the Unix epoch, or 0
/// for a reading earlier than the epoch (`None`).
pub fn epoch_seconds(reading: Option<u64>) -> (secs: u64)
    ensures
        secs == match reading {
            Some(s) => s,
            None => 0,
        },
{
    match reading {
        Some(s) => s,
        None => 0,
    }
}

/// The current time in seconds since the Unix epoch, or 0 when the clock reads
/// earlier than the epoch. Any value may come back: it is the machine's clock.
pub fn now() -> u64 {
    epoch_seconds(seconds_since_epoch())
}

/// `bytes` without its trailing line-feed and carriage-return bytes.
pub open spec fn without_line_endings(bytes: Seq<u8>) -> Seq<u8>
    decreases bytes.len(),
{
    if bytes.len() > 0 && (bytes.last() == 10u8 || bytes.last() == 13u8) {
        without_line_endings(bytes.drop_last())
    } else {
        bytes
    }
}

/// Trimming keeps a prefix of the input and drops only line feeds and carriage
/// returns: what remains ends in neither, and every dropped byte is one of them.
pub proof fn trimming_drops_only_line_endings(bytes: Seq<u8>)
    ensures
        without_line_endings(bytes).len() <= bytes.len(),
        without_line_endings(bytes) == bytes.take(without_line_endings(bytes).len() as int),
        without_line_endings(bytes).len() > 0 ==> without_line_endings(bytes).last() != 10u8
            && without_line_endings(bytes).last() != 13u8,
        forall|i: int|
            without_line_endings(bytes).len() <= i < bytes.len() ==> #[trigger] bytes[i] == 10u8 || bytes[i] == 13u8,
    decreases bytes.len(),
{
    if bytes.len() > 0 && (bytes.last() == 10u8 || bytes.last() == 13u8) {
        let shorter = bytes.drop_last();
        trimming_drops_only_line_endings(shorter);
        let t = without_line_endings(shorter);
        assert(t == bytes.take(t.len() as int));
        assert forall|i: int| t.len() <= i < bytes.len() implies #[trigger] bytes[i] == 10u8 || bytes[i] == 13u8 by {
            if i < shorter.len() {
                assert(shorter[i] == bytes[i]);
            }
        }
    } else {
        assert(bytes == bytes.take(bytes.len() as int));
    }
}

/// Drops the trailing line feeds and carriage returns of a value read from input.
pub fn trim_line_endings(bytes: &mut Vec<u8>)
    ensures
        final(bytes)@ == without_line_endings(old(bytes)@),
{
    while bytes.len() > 0 && (bytes[bytes.len() - 1] == 10u8 || bytes[bytes.len() - 1] == 13u8)
        invariant
            without_line_endings(bytes@) == without_line_endings(old(bytes)@),
        decreases bytes@.len(),
    {
        bytes.pop();
    }
}


/// How many times creating a vault's lock file is tried before giving up.
pub const LOCK_ATTEMPTS: u32 = 600;

/// What one attempt to create the lock file gave.
pub enum LockAttempt {
    /// The lock file was created: the lock is held.
    Created,
    /// The lock file already exists: another process holds the lock.
    Busy,
    /// Creating the file failed otherwise; the system's message.
    Failed(String),
}

/// What to do after an attempt to take the lock.
pub enum LockAction {
    /// Keep the lock.
    Hold,
    /// Wait a moment and try again.
    WaitAndRetry,
    /// Wait a moment, then give up with this message.
    WaitAndGiveUp(String),
    /// Give up with this message.
    GiveUp(String),
}

/// The next step of taking the lock on the vault at `target`, after attempt number
/// `attempt` (counting from 1) gave `outcome`: hold a created lock, give up on any
/// error but a busy lock, and retry a busy lock until `LOCK_ATTEMPTS` attempts were made.
pub fn lock_step(attempt: u32, outcome: LockAttempt, target: &str) -> (action: LockAction)
    requires
        1 <= attempt <= LOCK_ATTEMPTS,
    ensures
        match outcome {
            LockAttempt::Created => action is Hold,
            LockAttempt::Failed(e) => action matches LockAction::GiveUp(m) && m@ == e@,
            LockAttempt::Busy => if attempt < LOCK_ATTEMPTS {
                action is WaitAndRetry
            } else {
                action matches LockAction::WaitAndGiveUp(m) && m@ == target@ + " is locked by another process"@
            },
        },
{
    match outcome {
        LockAttempt::Created => LockAction::Hold,
        LockAttempt::Failed(e) => LockAction::GiveUp(e),
        LockAttempt::Busy => {
            if attempt < LOCK_ATTEMPTS {
                LockAction::WaitAndRetry
            } else {
                let mut msg = String::from_str(target);
                msg.append(" is locked by another process");
                LockAction::WaitAndGiveUp(msg)
            }
        },
    }
}


} // verus!
