//! The review session's audit and crash-recovery journal: its levels, its
//! events and its lines. Writing lines to disk (one JSONL file per session,
//! never inside the suite) is the binary's job; the session only produces
//! them.

use vstd::prelude::*;
use crate::stage::{parse_stage_spec, stage_dir_name, Stage};
use crate::text::{concat, own};

verus! {

/// How much the journal records. Ordered `Terse < Normal < Fine`.
#[derive(Debug, Clone, Copy, PartialEq, Eq, Structural)]
pub enum JournalLevel {
    /// Session open/close, `execute` batches and their outcomes.
    Terse,
    /// The above, plus every decide/undecide/claim.
    Normal,
    /// The above, plus each case as it is read in and verified.
    Fine,
}

/// The position of a level in `Terse < Normal < Fine`.
pub open spec fn level_rank(l: JournalLevel) -> int {
    match l {
        JournalLevel::Terse => 0,
        JournalLevel::Normal => 1,
        JournalLevel::Fine => 2,
    }
}

impl JournalLevel {
    /// The default level, `Normal`.
    pub fn default_level() -> (r: JournalLevel)
        ensures
            r == JournalLevel::Normal,
    {
        JournalLevel::Normal
    }

    /// The level's rank in `Terse < Normal < Fine`.
    pub fn rank(&self) -> (r: u8)
        ensures
            r as int == level_rank(*self),
    {
        match self {
            JournalLevel::Terse => 0,
            JournalLevel::Normal => 1,
            JournalLevel::Fine => 2,
        }
    }

    /// Whether this level is strictly below `other`.
    pub fn lt(&self, other: &JournalLevel) -> (r: bool)
        ensures
            r == (level_rank(*self) < level_rank(*other)),
    {
        self.rank() < other.rank()
    }

    /// Whether a journal at this level records an event logged at
    /// `min_level`.
    pub fn records(&self, min_level: JournalLevel) -> (r: bool)
        ensures
            r == (level_rank(min_level) <= level_rank(*self)),
    {
        !self.lt(&min_level)
    }
}

/// The level order is total and strict: exactly one of `a < b`, `a == b`,
/// `b < a` holds, and it is transitive.
pub proof fn lemma_level_order(a: JournalLevel, b: JournalLevel, c: JournalLevel)
    ensures
        (level_rank(a) < level_rank(b)) || a == b || (level_rank(b) < level_rank(a)),
        level_rank(a) < level_rank(b) && level_rank(b) < level_rank(c) ==> level_rank(a) < level_rank(c),
        level_rank(a) == level_rank(b) ==> a == b,
{
}

/// The wire form of a review decision (stage names as text).
#[derive(Debug, Clone, PartialEq, Eq)]
pub enum JournalDecision {
    /// Promote to the stage named `to`.
    Promote {
        /// The destination stage's directory name.
        to: String,
    },
    /// Retract from the stage named `from`.
    Retract {
        /// The source stage's directory name.
        from: String,
    },
    /// Flag at the stage named `stage`.
    Flag {
        /// The stage's directory name.
        stage: String,
        /// The advisory reason.
        reason: String,
    },
    /// No ruling.
    Skip,
}

impl JournalDecision {
    /// A copy of this wire form.
    pub fn duplicate(&self) -> (r: JournalDecision)
        ensures
            r == *self,
    {
        match self {
            JournalDecision::Promote { to } => JournalDecision::Promote { to: to.clone() },
            JournalDecision::Retract { from } => JournalDecision::Retract { from: from.clone() },
            JournalDecision::Flag { stage, reason } => JournalDecision::Flag { stage: stage.clone(), reason: reason.clone() },
            JournalDecision::Skip => JournalDecision::Skip,
        }
    }
}

/// One journal event.
#[derive(Debug, Clone, PartialEq, Eq)]
pub enum JournalEvent {
    /// A session began (fresh open or resume).
    SessionOpen {
        /// The session id.
        session: String,
        /// The suite's work directory.
        suite: String,
    },
    /// A session ended.
    SessionClose {
        /// The session id.
        session: String,
    },
    /// A decision was recorded or replaced.
    Decide {
        /// The case id.
        id: String,
        /// The decision, in wire form.
        decision: JournalDecision,
    },
    /// A decision was cleared.
    Undecide {
        /// The case id.
        id: String,
    },
    /// One execute batch completed.
    ExecuteBatch {
        /// Cases whose action was applied.
        executed: Vec<String>,
        /// Cases whose action was skipped.
        skipped: Vec<String>,
    },
    /// A case's body began verify-on-inspect (`Fine` only).
    VerifyStart {
        /// The case id.
        id: String,
        /// The stage's directory name.
        stage: String,
    },
    /// The matching verification completed (`Fine` only).
    VerifyEnd {
        /// The case id.
        id: String,
        /// The stage's directory name.
        stage: String,
        /// Whether verify-on-inspect succeeded.
        ok: bool,
    },
}

/// One journal line: a timestamp and an event.
#[derive(Debug, Clone, PartialEq, Eq)]
pub struct JournalLine {
    /// ISO-8601 UTC.
    pub timestamp: String,
    /// The event.
    pub event: JournalEvent,
}

/// The journal file name of a session, `<session_id>.jsonl`, relative to
/// the journal directory.
pub fn journal_path(session_id: &str) -> (r: String)
    ensures
        r@ == session_id@ + seq!['.', 'j', 's', 'o', 'n', 'l'],
{
    proof {
        reveal_strlit(".jsonl");
    }
    concat(session_id, ".jsonl")
}

/// A stage's name, if it parses, as the stage.
pub fn stage_named(name: &str) -> (r: Option<Stage>)
    ensures
        r == parse_stage_spec(name@),
{
    match Stage::parse(name) {
        Ok(s) => Some(s),
        Err(_) => None,
    }
}

} // verus!
