//! The advisory per-suite server lock: a second review server started
//! against a suite another server already holds must refuse to start.
//!
//! The lock file's name is derived from the suite's canonical directory, so
//! two paths naming the same suite meet at the same lock, and it lives in
//! the journal's state directory, never inside the suite. Its content is
//! the live server's socket path: a lock naming a socket nothing answers on
//! is stale and is reclaimed. Canonicalizing, probing the socket and the
//! file itself belong to the caller; this module decides.

use vstd::prelude::*;
use vstd::slice::slice_to_vec;
use vstd::utf8::encode_utf8;
use crate::crypto::{sha256, sha256_spec};
use crate::hex::{hex_encode, hex_spec};
use crate::text::{concat, own, path_join, path_join_spec, trim, trim_spec};

verus! {

/// The lock file name of a suite whose canonical directory is `canonical`:
/// the first 16 bytes of the SHA-256 of its UTF-8 text, in hex, between
/// `suite-` and `.lock`.
pub open spec fn lock_name_spec(canonical: Seq<char>) -> Seq<char> {
    "suite-"@ + hex_spec(sha256_spec(encode_utf8(canonical)).take(16)) + ".lock"@
}

/// The lock file name of the suite whose canonical directory is
/// `canonical`.
pub fn lock_file_name(canonical: &str) -> (r: String)
    ensures
        r@ == lock_name_spec(canonical@),
{
    let bytes = slice_to_vec(canonical.as_bytes());
    let digest = sha256(bytes.as_slice());
    let mut head: Vec<u8> = Vec::new();
    let mut i: usize = 0;
    while i < 16
        invariant
            digest@.len() == 32,
            i <= 16,
            head@ == digest@.take(i as int),
        decreases 16 - i,
    {
        head.push(digest[i]);
        assert(digest@.take(i + 1) =~= digest@.take(i as int).push(digest@[i as int]));
        i = i + 1;
    }
    let h = hex_encode(head.as_slice());
    let a = concat("suite-", h.as_str());
    concat(a.as_str(), ".lock")
}

/// The path of the lock of the suite whose canonical directory is
/// `canonical`, inside the journal state directory `journal_dir`.
pub fn suite_lock_path(journal_dir: &str, canonical: &str) -> (r: String)
    ensures
        r@ == path_join_spec(journal_dir@, lock_name_spec(canonical@)),
{
    let name = lock_file_name(canonical);
    path_join(journal_dir, name.as_str())
}

/// The socket a lock file's content records: the content without
/// surrounding whitespace, unless nothing is left.
pub fn recorded_socket(content: &str) -> (r: Option<String>)
    ensures
        r is None <==> trim_spec(content@).len() == 0,
        r matches Some(s) ==> s@ == trim_spec(content@),
{
    let t = trim(content);
    if t.as_str().unicode_len() == 0 {
        None
    } else {
        Some(t)
    }
}

/// What acquiring a suite's lock does next.
#[derive(Debug, Clone, Copy, PartialEq, Eq, Structural)]
pub enum LockStep {
    /// A live server holds the suite: refuse, never steal the lock.
    Refuse,
    /// The lock is stale (unreadable, empty, or naming a socket nothing
    /// answers on): remove it, then write ours.
    Reclaim,
    /// No lock exists: write ours.
    Create,
}

/// The next step of acquiring a suite's lock, given whether the lock file
/// exists, the socket it records (`None` when it cannot be read or records
/// nothing), and whether that socket answered a connection.
pub fn acquire_step(lock_exists: bool, recorded: Option<&str>, live: bool) -> (r: LockStep)
    ensures
        r == (if !lock_exists {
            LockStep::Create
        } else if recorded is Some && live {
            LockStep::Refuse
        } else {
            LockStep::Reclaim
        }),
{
    if !lock_exists {
        LockStep::Create
    } else if recorded.is_some() && live {
        LockStep::Refuse
    } else {
        LockStep::Reclaim
    }
}

/// The refusal's message.
pub fn refusal_message(suite: &str, socket: &str) -> (r: String)
    ensures
        r@ == "suite "@ + suite@ + " is already being reviewed by a live server (socket "@ + socket@ + ")"@,
{
    let a = concat("suite ", suite);
    let b = concat(a.as_str(), " is already being reviewed by a live server (socket ");
    let c = concat(b.as_str(), socket);
    concat(c.as_str(), ")")
}

/// An acquired advisory suite lock: the path of its file. The caller holds
/// it for the server's lifetime and removes the file on release.
#[derive(Debug)]
pub struct SuiteLock {
    path: String,
}

impl SuiteLock {
    /// The lock's path.
    pub closed spec fn path_spec(&self) -> Seq<char> {
        self.path@
    }

    /// The lock held at `path`.
    pub fn held_at(path: &str) -> (r: SuiteLock)
        ensures
            r.path_spec() == path@,
    {
        SuiteLock { path: own(path) }
    }

    /// The lock file's own path.
    pub fn path(&self) -> (r: &str)
        ensures
            r@ == self.path_spec(),
    {
        self.path.as_str()
    }
}

} // verus!
