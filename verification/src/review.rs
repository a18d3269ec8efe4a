//! `EinmoReview`: a single-suite, single-person review session:
//! list cases, fetch verified bodies, record, replace and clear decisions,
//! plan, and execute them (sign and write, retract, or flag). Key material
//! is never held by the session: see [`SignerSet`].

use vstd::prelude::*;
use vstd::multiset::Multiset;
use crate::case::{promote_effect, EinmoCase, PromoteOutcome, StagePairAgreement};
use crate::signature::{derived_pubkey_hex, StageKeypair};
use crate::compare::MatchSections;
use crate::config::KeySource;
use crate::error::EinmoError;
use crate::journal::{stage_named, JournalDecision, JournalEvent, JournalLevel, JournalLine};
use crate::stage::{lemma_stage_name_round_trip, parse_stage_spec, stage_dir_name, valid_id, EinmoId, Stage};
use crate::text::{concat, own};
use crate::storage::{ArtifactKey, ArtifactLocation, EinmoStorage};
use crate::codec::strings_view;
use crate::compare::{body_pairs, body_sections, opt_chars};
use crate::case::{
    absent_at, file_at, file_of, flag_effect, key_at, lemma_file_of, pair_spec, remove_keys, retracted_spec,
    stage_status_spec, tampered_at,
};
use crate::compare::{diverged, lemma_same_sections, required_sections};
use crate::stage::{id_views, ids_strictly_sorted, stage_rank};
use crate::suite::{in_suite, passes, scan_ids};
use crate::verify::{verifies, verify_bytes};
use vstd::utf8::encode_utf8;
use crate::transitions::legal_transition;

verus! {

/// A review decision about one case. A later decision for the same
/// case replaces an earlier one; it never stacks.
#[derive(Debug, PartialEq, Eq)]
pub enum Decision {
    /// Promote to `to` (`checked` or `verified`).
    Promote {
        /// The destination stage.
        to: Stage,
    },
    /// Retract (demote) from `from`, cascading `checked` to `verified`.
    Retract {
        /// The stage to retract from.
        from: Stage,
    },
    /// Move to the stage's flagged sink with an advisory reason.
    Flag {
        /// The stage to flag from.
        stage: Stage,
        /// The advisory reason.
        reason: String,
    },
    /// Looked, deliberately chose not to rule.
    Skip,
}

impl Decision {
    /// A copy of this decision.
    pub fn duplicate(&self) -> (r: Decision)
        ensures
            r == *self,
    {
        match self {
            Decision::Promote { to } => Decision::Promote { to: *to },
            Decision::Retract { from } => Decision::Retract { from: *from },
            Decision::Flag { stage, reason } => Decision::Flag { stage: *stage, reason: reason.clone() },
            Decision::Skip => Decision::Skip,
        }
    }
}

/// `j` is the wire form of `d`.
pub open spec fn represents(j: JournalDecision, d: Decision) -> bool {
    match (j, d) {
        (JournalDecision::Promote { to: t }, Decision::Promote { to }) => t@ == stage_dir_name(to),
        (JournalDecision::Retract { from: f }, Decision::Retract { from }) => f@ == stage_dir_name(from),
        (JournalDecision::Flag { stage: s, reason: q }, Decision::Flag { stage, reason }) => s@ == stage_dir_name(stage)
            && q@ == reason@,
        (JournalDecision::Skip, Decision::Skip) => true,
        _ => false,
    }
}

/// Two decisions say the same thing.
pub open spec fn same_decision(a: Decision, b: Decision) -> bool {
    match (a, b) {
        (Decision::Promote { to: x }, Decision::Promote { to: y }) => x == y,
        (Decision::Retract { from: x }, Decision::Retract { from: y }) => x == y,
        (Decision::Flag { stage: x, reason: p }, Decision::Flag { stage: y, reason: q }) => x == y && p@ == q@,
        (Decision::Skip, Decision::Skip) => true,
        _ => false,
    }
}

/// Whether every stage name in `j` parses.
pub open spec fn stages_parse(j: JournalDecision) -> bool {
    match j {
        JournalDecision::Promote { to } => parse_stage_spec(to@) is Some,
        JournalDecision::Retract { from } => parse_stage_spec(from@) is Some,
        JournalDecision::Flag { stage, .. } => parse_stage_spec(stage@) is Some,
        JournalDecision::Skip => true,
    }
}

/// A decision's wire form reads back as the same decision: the journal
/// round-trips every decision.
pub proof fn lemma_journal_round_trip(j: JournalDecision, d: Decision, e: Decision)
    requires
        represents(j, d),
    ensures
        stages_parse(j),
        represents(j, e) ==> same_decision(d, e),
{
    match d {
        Decision::Promote { to } => lemma_stage_name_round_trip(to),
        Decision::Retract { from } => lemma_stage_name_round_trip(from),
        Decision::Flag { stage, .. } => lemma_stage_name_round_trip(stage),
        Decision::Skip => {},
    }
    match e {
        Decision::Promote { to } => lemma_stage_name_round_trip(to),
        Decision::Retract { from } => lemma_stage_name_round_trip(from),
        Decision::Flag { stage, .. } => lemma_stage_name_round_trip(stage),
        Decision::Skip => {},
    }
}

impl JournalDecision {
    /// The wire form of `decision`.
    pub fn from_decision(decision: &Decision) -> (r: JournalDecision)
        ensures
            represents(r, *decision),
    {
        match decision {
            Decision::Promote { to } => JournalDecision::Promote { to: to.to_string() },
            Decision::Retract { from } => JournalDecision::Retract { from: from.to_string() },
            Decision::Flag { stage, reason } => JournalDecision::Flag { stage: stage.to_string(), reason: reason.clone() },
            Decision::Skip => JournalDecision::Skip,
        }
    }

    /// The decision this wire form names, if its stage names parse.
    pub fn into_decision(self) -> (r: Option<Decision>)
        ensures
            r is Some <==> stages_parse(self),
            r matches Some(d) ==> represents(self, d),
    {
        proof {
            assert forall|n: Seq<char>| #[trigger] parse_stage_spec(n) matches Some(st) ==> stage_dir_name(st) == n by {
                if let Some(st) = parse_stage_spec(n) {
                    lemma_stage_name_round_trip(st);
                }
            }
        }
        match self {
            JournalDecision::Promote { to } => match stage_named(to.as_str()) {
                Some(s) => Some(Decision::Promote { to: s }),
                None => None,
            },
            JournalDecision::Retract { from } => match stage_named(from.as_str()) {
                Some(s) => Some(Decision::Retract { from: s }),
                None => None,
            },
            JournalDecision::Flag { stage, reason } => match stage_named(stage.as_str()) {
                Some(s) => Some(Decision::Flag { stage: s, reason }),
                None => None,
            },
            JournalDecision::Skip => Some(Decision::Skip),
        }
    }
}

/// A verified envelope's body sections (every section but `STAMPS`).
#[derive(Debug, Clone, PartialEq, Eq)]
pub struct VerifiedBody {
    /// `(section name, section body)` pairs.
    pub sections: Vec<(String, String)>,
}

/// One line of a section's diff between two stages.
#[derive(Debug, Clone, PartialEq, Eq)]
pub enum DiffLine {
    /// Present, unchanged, on both sides.
    Equal(String),
    /// Present in the left stage only.
    Removed(String),
    /// Present in the right stage only.
    Added(String),
}

/// One section's diff between two stages.
#[derive(Debug, Clone, PartialEq, Eq)]
pub struct SectionDiff {
    /// The section name.
    pub name: String,
    /// The line-level diff of its body, left against right.
    pub lines: Vec<DiffLine>,
}

/// The diff between two stages' verified bodies, section by section: the
/// left stage's sections in order, then any only the right stage has.
#[derive(Debug, Clone, PartialEq, Eq)]
pub struct DiffHunks {
    /// One entry per section present on either side.
    pub sections: Vec<SectionDiff>,
}

/// How the worklist is selected and ordered.
#[derive(Debug, Clone, Copy, PartialEq, Eq, Structural)]
pub enum ReviewMode {
    /// Every case, in id order (the default).
    Full,
    /// Every case, in random order.
    Random,
    /// Only cases whose output and checked stages do not agree.
    NewOrBroken,
}

/// What a session considers its worklist.
#[derive(Debug, Clone, PartialEq, Eq)]
pub struct ReviewOpts {
    /// Selection and ordering mode.
    pub mode: ReviewMode,
    /// Only cases whose id contains this substring.
    pub filter: Option<String>,
}

impl ReviewOpts {
    /// Full mode, no filter.
    pub fn default_opts() -> (r: ReviewOpts)
        ensures
            r.mode == ReviewMode::Full,
            r.filter is None,
    {
        ReviewOpts { mode: ReviewMode::Full, filter: None }
    }
}

/// One row of the worklist.
#[derive(Debug)]
pub struct ReviewItem {
    /// The case.
    pub id: EinmoId,
    /// `(stage, status if present)` for output, checked and verified.
    pub stages: Vec<(Stage, Option<String>)>,
    /// Unless output and checked are both present and agree under the
    /// session's policy.
    pub differing: bool,
    /// The current decision, if any.
    pub decision: Option<Decision>,
}

/// Key custody, held apart from the session: `to_checked` signs every
/// promotion into `checked`, `to_verified` every promotion into
/// `verified` (absent means such a promotion cannot proceed).
pub struct SignerSet {
    /// The key for promotions into `checked`.
    pub to_checked: KeySource,
    /// The key for promotions into `verified`, if any.
    pub to_verified: Option<KeySource>,
}

/// One pending action a plan will apply.
#[derive(Debug)]
pub enum PlannedAction {
    /// Promote `id` to `to`.
    Promote {
        /// The case.
        id: EinmoId,
        /// The destination stage.
        to: Stage,
    },
    /// Retract `id` from `from`.
    Retract {
        /// The case.
        id: EinmoId,
        /// The stage retracted from.
        from: Stage,
    },
    /// Flag `id` at `stage` with `reason`.
    Flag {
        /// The case.
        id: EinmoId,
        /// The stage flagged from.
        stage: Stage,
        /// The advisory reason.
        reason: String,
    },
}

/// A soft, advisory claim on a case: never enforced, and released by
/// itself when it expires.
#[derive(Debug)]
pub struct ActiveClaim {
    /// The claimed case.
    pub id: EinmoId,
    /// How much longer the claim lasts, in milliseconds, as of when it was
    /// read.
    pub remaining_ms: u64,
}

/// A preview of what `execute` would do: every pending decision as a
/// concrete action (a `Skip` gives none), and every active claim.
#[derive(Debug)]
pub struct ExecutionPlan {
    /// The actions, in the order they will run.
    pub actions: Vec<PlannedAction>,
    /// The active claims (advisory only).
    pub claims: Vec<ActiveClaim>,
}

/// The outcome of one executed action.
#[derive(Debug)]
pub struct Executed {
    /// The case acted on.
    pub id: EinmoId,
    /// What happened (`promoted output to checked`, ...).
    pub detail: String,
    /// A promotion into `verified` signed with the computer key.
    pub non_human: bool,
}

/// The result of `execute`.
#[derive(Debug)]
pub struct ExecutionReport {
    /// Actions that completed.
    pub executed: Vec<Executed>,
    /// Actions skipped (drifted since the decision, source gone, or
    /// failed); never applied against stale content.
    pub skipped: Vec<EinmoId>,
}

/// The case a planned action concerns.
pub open spec fn action_id(a: PlannedAction) -> Seq<char> {
    match a {
        PlannedAction::Promote { id, .. } => id@,
        PlannedAction::Retract { id, .. } => id@,
        PlannedAction::Flag { id, .. } => id@,
    }
}

/// One entry of the decision book: a case, its decision, and the bytes of
/// the artifact the decision was based on when it was made (`None` when
/// there was none, or the decision has no content basis).
struct DecisionEntry {
    id: EinmoId,
    decision: Decision,
    basis: Option<Vec<u8>>,
}

/// No two entries name the same case.
spec fn book_unique(es: Seq<DecisionEntry>) -> bool {
    forall|i: int, j: int| 0 <= i < es.len() && 0 <= j < es.len() && i != j
        ==> (#[trigger] es[i]).id@ != (#[trigger] es[j]).id@
}

/// Some entry names `k`.
spec fn book_has(es: Seq<DecisionEntry>, k: Seq<char>) -> bool {
    exists|i: int| 0 <= i < es.len() && (#[trigger] es[i]).id@ == k
}

/// The entry naming `k` (meaningful when there is one).
spec fn book_slot(es: Seq<DecisionEntry>, k: Seq<char>) -> int {
    choose|i: int| 0 <= i < es.len() && (#[trigger] es[i]).id@ == k
}

/// The decision recorded for `k`, if any.
spec fn book_decision(es: Seq<DecisionEntry>, k: Seq<char>) -> Option<Decision> {
    if book_has(es, k) {
        Some(es[book_slot(es, k)].decision)
    } else {
        None
    }
}

/// The basis recorded for `k`, if `k` has an entry.
spec fn book_basis(es: Seq<DecisionEntry>, k: Seq<char>) -> Option<Option<Seq<u8>>> {
    if book_has(es, k) {
        Some(match es[book_slot(es, k)].basis {
            Some(b) => Some(b@),
            None => None,
        })
    } else {
        None
    }
}

proof fn lemma_book_slot(es: Seq<DecisionEntry>, i: int)
    requires
        book_unique(es),
        0 <= i < es.len(),
    ensures
        book_has(es, es[i].id@),
        book_slot(es, es[i].id@) == i,
{
    let k = es[i].id@;
    assert(book_has(es, k));
    let s = book_slot(es, k);
    assert(es[s].id@ == k);
}

fn book_find(es: &Vec<DecisionEntry>, id: &EinmoId) -> (r: Option<usize>)
    ensures
        r matches Some(i) ==> i < es@.len() && es@[i as int].id@ == id@,
        r is None ==> !book_has(es@, id@),
{
    let mut i: usize = 0;
    while i < es.len()
        invariant
            i <= es@.len(),
            forall|j: int| 0 <= j < i ==> (#[trigger] es@[j]).id@ != id@,
        decreases es@.len() - i,
    {
        if es[i].id.same(id) {
            return Some(i);
        }
        i = i + 1;
    }
    None
}

/// Record `decision` for `id`, replacing any earlier one; the earlier one
/// is returned.
fn book_decide(es: &mut Vec<DecisionEntry>, id: EinmoId, decision: Decision, basis: Option<Vec<u8>>) -> (r: Option<Decision>)
    requires
        book_unique(old(es)@),
    ensures
        book_unique(final(es)@),
        r == book_decision(old(es)@, id@),
        book_decision(final(es)@, id@) == Some(decision),
        book_basis(final(es)@, id@) == Some(match basis { Some(b) => Some(b@), None => None::<Seq<u8>> }),
        forall|k: Seq<char>| k != id@ ==> book_decision(final(es)@, k) == book_decision(old(es)@, k)
            && book_basis(final(es)@, k) == book_basis(old(es)@, k),
{
    let ghost k0 = id@;
    let ghost old_es = es@;
    match book_find(es, &id) {
        Some(i) => {
            let prev = es[i].decision.duplicate();
            proof {
                lemma_book_slot(old_es, i as int);
            }
            es.set(i, DecisionEntry { id, decision, basis });
            proof {
                assert forall|a: int, b: int| 0 <= a < es@.len() && 0 <= b < es@.len() && a != b
                    implies (#[trigger] es@[a]).id@ != (#[trigger] es@[b]).id@ by {
                    if a != i && b != i {
                        assert(es@[a] == old_es[a] && es@[b] == old_es[b]);
                    } else if a == i {
                        assert(es@[b] == old_es[b]);
                        assert(old_es[i as int].id@ == k0);
                    } else {
                        assert(es@[a] == old_es[a]);
                        assert(old_es[i as int].id@ == k0);
                    }
                }
                lemma_book_slot(es@, i as int);
                assert forall|k: Seq<char>| k != k0 implies book_decision(es@, k) == book_decision(old_es, k)
                    && book_basis(es@, k) == book_basis(old_es, k) by {
                    if book_has(old_es, k) {
                        let j = book_slot(old_es, k);
                        assert(j != i);
                        assert(es@[j] == old_es[j]);
                        lemma_book_slot(es@, j);
                        lemma_book_slot(old_es, j);
                    }
                    if book_has(es@, k) {
                        let j = book_slot(es@, k);
                        assert(j != i);
                        assert(es@[j] == old_es[j]);
                        assert(book_has(old_es, k));
                    }
                }
            }
            Some(prev)
        },
        None => {
            es.push(DecisionEntry { id, decision, basis });
            proof {
                let n = old_es.len() as int;
                assert forall|a: int, b: int| 0 <= a < es@.len() && 0 <= b < es@.len() && a != b
                    implies (#[trigger] es@[a]).id@ != (#[trigger] es@[b]).id@ by {
                    if a < n && b < n {
                        assert(es@[a] == old_es[a] && es@[b] == old_es[b]);
                    } else if a == n {
                        assert(es@[b] == old_es[b]);
                    } else {
                        assert(es@[a] == old_es[a]);
                    }
                }
                lemma_book_slot(es@, n);
                assert forall|k: Seq<char>| k != k0 implies book_decision(es@, k) == book_decision(old_es, k)
                    && book_basis(es@, k) == book_basis(old_es, k) by {
                    if book_has(old_es, k) {
                        let j = book_slot(old_es, k);
                        assert(es@[j] == old_es[j]);
                        lemma_book_slot(es@, j);
                    }
                    if book_has(es@, k) {
                        let j = book_slot(es@, k);
                        assert(j != n);
                        assert(es@[j] == old_es[j]);
                        assert(book_has(old_es, k));
                        lemma_book_slot(old_es, j);
                    }
                }
            }
            None
        },
    }
}

/// Clear the decision for `id`; the cleared one is returned.
fn book_undecide(es: &mut Vec<DecisionEntry>, id: &EinmoId) -> (r: Option<Decision>)
    requires
        book_unique(old(es)@),
    ensures
        book_unique(final(es)@),
        r == book_decision(old(es)@, id@),
        book_decision(final(es)@, id@) is None,
        forall|k: Seq<char>| k != id@ ==> book_decision(final(es)@, k) == book_decision(old(es)@, k)
            && book_basis(final(es)@, k) == book_basis(old(es)@, k),
{
    let ghost old_es = es@;
    match book_find(es, id) {
        Some(i) => {
            let prev = es[i].decision.duplicate();
            proof {
                lemma_book_slot(old_es, i as int);
            }
            let _gone = es.remove(i);
            proof {
                assert forall|a: int, b: int| 0 <= a < es@.len() && 0 <= b < es@.len() && a != b
                    implies (#[trigger] es@[a]).id@ != (#[trigger] es@[b]).id@ by {
                    let oa = if a < i { a } else { a + 1 };
                    let ob = if b < i { b } else { b + 1 };
                    assert(es@[a] == old_es[oa] && es@[b] == old_es[ob]);
                }
                assert(!book_has(es@, id@)) by {
                    if book_has(es@, id@) {
                        let j = book_slot(es@, id@);
                        let oj = if j < i { j } else { j + 1 };
                        assert(es@[j] == old_es[oj]);
                    }
                }
                assert forall|k: Seq<char>| k != id@ implies book_decision(es@, k) == book_decision(old_es, k)
                    && book_basis(es@, k) == book_basis(old_es, k) by {
                    if book_has(old_es, k) {
                        let j = book_slot(old_es, k);
                        assert(j != i);
                        let nj = if j < i { j } else { j - 1 };
                        assert(es@[nj] == old_es[j]);
                        lemma_book_slot(es@, nj);
                    }
                    if book_has(es@, k) {
                        let j = book_slot(es@, k);
                        let oj = if j < i { j } else { j + 1 };
                        assert(es@[j] == old_es[oj]);
                        assert(book_has(old_es, k));
                        lemma_book_slot(old_es, oj);
                    }
                }
            }
            Some(prev)
        },
        None => None,
    }
}

/// A claim: a case and the instant (milliseconds) it expires at.
struct ClaimEntry {
    id: EinmoId,
    expires_at: u64,
}

/// How long a claim lasts by default: five minutes, in milliseconds.
pub const DEFAULT_CLAIM_TTL_MS: u64 = 300000;

/// The stages a promotion to `to` may read from, highest first.
pub open spec fn promote_sources(to: Stage) -> Seq<Stage> {
    match to {
        Stage::Checked => seq![Stage::Output],
        Stage::Verified => seq![Stage::Checked, Stage::Output],
        Stage::Output => Seq::empty(),
    }
}

/// The stage a promotion of case `id` to `to` reads from: the first of its
/// candidate sources that holds an artifact, if any does.
pub open spec fn promote_source_spec(m: Map<ArtifactKey, Seq<u8>>, id: Seq<char>, to: Stage) -> Option<Stage> {
    match to {
        Stage::Checked => if m.dom().contains((id, ArtifactLocation::Stage(Stage::Output))) {
            Some(Stage::Output)
        } else {
            None
        },
        Stage::Verified => if m.dom().contains((id, ArtifactLocation::Stage(Stage::Checked))) {
            Some(Stage::Checked)
        } else if m.dom().contains((id, ArtifactLocation::Stage(Stage::Output))) {
            Some(Stage::Output)
        } else {
            None
        },
        Stage::Output => None,
    }
}

/// A promotion reads from the highest stage below its destination that
/// holds the case: into `verified`, a reviewed `checked` baseline is read
/// in preference to `output`, and `output` only when `checked` holds
/// nothing. No source is found only when no stage below the destination
/// holds the case. (Stated over the pipeline order, for every stage `s`.)
pub proof fn lemma_promotion_reads_highest_source(m: Map<ArtifactKey, Seq<u8>>, id: Seq<char>, to: Stage, s: Stage)
    ensures
        promote_source_spec(m, id, to) matches Some(src) ==> stage_rank(src) < stage_rank(to)
            && m.dom().contains((id, ArtifactLocation::Stage(src)))
            && (stage_rank(src) < stage_rank(s) < stage_rank(to) ==> !m.dom().contains((id, ArtifactLocation::Stage(s)))),
        promote_source_spec(m, id, to) is None && stage_rank(s) < stage_rank(to)
            ==> !m.dom().contains((id, ArtifactLocation::Stage(s))),
        m.dom().contains((id, ArtifactLocation::Stage(Stage::Checked)))
            ==> promote_source_spec(m, id, Stage::Verified) == Some(Stage::Checked),
{
}

/// Whether `storage` holds an artifact for `id` at `stage` (a failed read
/// counts as no).
fn has_artifact<S: EinmoStorage>(storage: &S, id: &EinmoId, stage: Stage) -> (r: bool)
    ensures
        r ==> storage.artifacts().dom().contains((id@, ArtifactLocation::Stage(stage))),
        storage.infallible() ==> (r <==> storage.artifacts().dom().contains((id@, ArtifactLocation::Stage(stage)))),
{
    match storage.read(id, ArtifactLocation::Stage(stage)) {
        Ok(Some(_)) => true,
        _ => false,
    }
}

/// The bytes `storage` holds for `id` at `stage`, if it holds any and the
/// read succeeds.
fn stage_bytes<S: EinmoStorage>(storage: &S, id: &EinmoId, stage: Stage) -> (r: Option<Vec<u8>>)
    ensures
        r matches Some(b) ==> storage.artifacts().dom().contains((id@, ArtifactLocation::Stage(stage)))
            && b@ == storage.artifacts()[(id@, ArtifactLocation::Stage(stage))],
        storage.infallible() && storage.artifacts().dom().contains((id@, ArtifactLocation::Stage(stage))) ==> r is Some,
{
    match storage.read(id, ArtifactLocation::Stage(stage)) {
        Ok(Some(b)) => Some(b),
        _ => None,
    }
}

/// The stage a promotion of `id` to `to` reads from: the highest of its
/// candidate sources that holds an artifact.
fn source_stage_for_promote<S: EinmoStorage>(storage: &S, id: &EinmoId, to: Stage) -> (r: Option<Stage>)
    ensures
        r matches Some(st) ==> promote_sources(to).contains(st)
            && storage.artifacts().dom().contains((id@, ArtifactLocation::Stage(st))),
        storage.infallible() ==> r == promote_source_spec(storage.artifacts(), id@, to),
        r matches Some(src) ==> stage_rank(src) < stage_rank(to),
        storage.infallible() ==> forall|s: Stage| (r matches Some(src) ==> stage_rank(src) < #[trigger] stage_rank(s) < stage_rank(to)
            ==> !storage.artifacts().dom().contains((id@, ArtifactLocation::Stage(s))))
            && (r is None && stage_rank(s) < stage_rank(to) ==> !storage.artifacts().dom().contains((id@, ArtifactLocation::Stage(s)))),
{
    match to {
        Stage::Checked => {
            if has_artifact(storage, id, Stage::Output) {
                assert(promote_sources(to)[0] == Stage::Output);
                Some(Stage::Output)
            } else {
                None
            }
        },
        Stage::Verified => {
            if has_artifact(storage, id, Stage::Checked) {
                assert(promote_sources(to)[0] == Stage::Checked);
                Some(Stage::Checked)
            } else if has_artifact(storage, id, Stage::Output) {
                assert(promote_sources(to)[1] == Stage::Output);
                Some(Stage::Output)
            } else {
                None
            }
        },
        Stage::Output => None,
    }
}

/// The stage a decision's content is based on: the promotion's source,
/// the retraction's or flag's stage; none for `Skip`.
fn decision_basis_stage<S: EinmoStorage>(storage: &S, id: &EinmoId, decision: &Decision) -> (r: Option<Stage>)
    ensures
        *decision is Skip ==> r is None,
        *decision matches Decision::Retract { from } ==> r == Some(from),
        *decision matches Decision::Flag { stage, .. } ==> r == Some(stage),
        *decision matches Decision::Promote { to } ==> (r matches Some(st) ==> promote_sources(to).contains(st)
            && storage.artifacts().dom().contains((id@, ArtifactLocation::Stage(st)))),
        storage.infallible() ==> r == decision_stage_spec(storage.artifacts(), id@, *decision),
{
    match decision {
        Decision::Promote { to } => {
            let r = source_stage_for_promote(storage, id, *to);
            assert(r matches Some(st) ==> promote_sources(*to).contains(st));
            r
        },
        Decision::Retract { from } => Some(*from),
        Decision::Flag { stage, .. } => Some(*stage),
        Decision::Skip => None,
    }
}

/// A single-suite, single-person review session over a storage. It
/// holds no key material; every journal line it produces waits in the
/// session until the binary takes it (`take_journal`) and writes it out.
pub struct EinmoReview<S: EinmoStorage> {
    storage: S,
    opts: ReviewOpts,
    policy: MatchSections,
    session_id: String,
    level: JournalLevel,
    lines: Vec<JournalLine>,
    book: Vec<DecisionEntry>,
    claims: Vec<ClaimEntry>,
}

impl<S: EinmoStorage> EinmoReview<S> {
    /// Well-formedness: at most one decision and one claim per case.
    pub closed spec fn wf(&self) -> bool {
        &&& book_unique(self.book@)
        &&& forall|i: int, j: int| 0 <= i < self.claims@.len() && 0 <= j < self.claims@.len() && i != j
            ==> (#[trigger] self.claims@[i]).id@ != (#[trigger] self.claims@[j]).id@
    }

    /// The storage's contents.
    pub closed spec fn artifacts(&self) -> Map<ArtifactKey, Seq<u8>> {
        self.storage.artifacts()
    }

    /// Whether the storage never fails (see [`EinmoStorage::infallible`]).
    pub closed spec fn storage_infallible(&self) -> bool {
        self.storage.infallible()
    }

    /// The pending decision for case `k`, if any.
    pub closed spec fn decision_spec(&self, k: Seq<char>) -> Option<Decision> {
        book_decision(self.book@, k)
    }

    /// The content basis recorded with `k`'s decision, if `k` has one.
    pub closed spec fn basis_spec(&self, k: Seq<char>) -> Option<Option<Seq<u8>>> {
        book_basis(self.book@, k)
    }

    /// The journal lines produced and not yet taken.
    pub closed spec fn journal_spec(&self) -> Seq<JournalLine> {
        self.lines@
    }

    /// The journal level.
    pub closed spec fn level_spec(&self) -> JournalLevel {
        self.level
    }

    /// The session id.
    pub closed spec fn session_spec(&self) -> Seq<char> {
        self.session_id@
    }

    /// The session's options.
    pub closed spec fn opts_spec(&self) -> ReviewOpts {
        self.opts
    }

    /// The comparison policy.
    pub closed spec fn policy_spec(&self) -> MatchSections {
        self.policy
    }

    /// The claimed cases and when each claim expires.
    pub closed spec fn claims_spec(&self) -> Seq<(Seq<char>, u64)> {
        Seq::new(self.claims@.len(), |i: int| (self.claims@[i].id@, self.claims@[i].expires_at))
    }

    /// Record `event` if the journal's level records `min_level`.
    fn log_at(&mut self, min_level: JournalLevel, event: JournalEvent, timestamp: &str)
        ensures
            final(self).storage == old(self).storage,
            final(self).book == old(self).book,
            final(self).claims == old(self).claims,
            final(self).level == old(self).level,
            final(self).session_id == old(self).session_id,
            final(self).opts == old(self).opts,
            final(self).policy == old(self).policy,
            crate::journal::level_rank(min_level) <= crate::journal::level_rank(old(self).level)
                ==> final(self).lines@.len() == old(self).lines@.len() + 1
                && final(self).lines@.drop_last() == old(self).lines@
                && final(self).lines@.last().timestamp@ == timestamp@
                && final(self).lines@.last().event == event,
            !(crate::journal::level_rank(min_level) <= crate::journal::level_rank(old(self).level))
                ==> final(self).lines == old(self).lines,
    {
        if self.level.records(min_level) {
            self.lines.push(JournalLine { timestamp: own(timestamp), event });
            assert(self.lines@.drop_last() =~= old(self).lines@);
        }
    }

    /// Open a session over `storage` under `session_id` (the binary draws
    /// a fresh one with `random_session_id`), journaling `SessionOpen` with
    /// the suite's name.
    pub fn open_with(
        storage: S,
        opts: ReviewOpts,
        policy: MatchSections,
        session_id: &str,
        suite: &str,
        level: JournalLevel,
        timestamp: &str,
    ) -> (r: EinmoReview<S>)
        ensures
            r.wf(),
            r.artifacts() == storage.artifacts(),
            r.opts_spec() == opts,
            r.policy_spec() == policy,
            r.session_spec() == session_id@,
            r.level_spec() == level,
            forall|k: Seq<char>| r.decision_spec(k) is None,
            r.claims_spec().len() == 0,
            r.journal_spec().len() == 1,
            r.journal_spec()[0].timestamp@ == timestamp@,
            r.journal_spec()[0].event matches JournalEvent::SessionOpen { session, suite: st }
                && session@ == session_id@ && st@ == suite@,
            journal_tracks(r),
    {
        let mut r = EinmoReview {
            storage,
            opts,
            policy,
            session_id: own(session_id),
            level,
            lines: Vec::new(),
            book: Vec::new(),
            claims: Vec::new(),
        };
        r.log_at(JournalLevel::Terse, JournalEvent::SessionOpen { session: own(session_id), suite: own(suite) }, timestamp);
        proof {
            assert forall|k: Seq<char>| #![trigger r.decision_spec(k)] replayed(r.journal_spec(), k) is None by {
                lemma_replayed_push(Seq::empty(), r.journal_spec()[0], k);
                assert(r.journal_spec() =~= Seq::<JournalLine>::empty().push(r.journal_spec()[0]));
            }
        }
        r
    }

    /// Open a session with the default options (every case, id order, no
    /// filter), the `INPUT`/`OUTPUT` policy and the `Normal` level.
    pub fn open(storage: S, session_id: &str, suite: &str, timestamp: &str) -> (r: EinmoReview<S>)
        ensures
            r.wf(),
            r.artifacts() == storage.artifacts(),
            r.opts_spec().mode == ReviewMode::Full,
            r.opts_spec().filter is None,
            r.policy_spec() == MatchSections::InputOutput,
            r.session_spec() == session_id@,
            r.level_spec() == JournalLevel::Normal,
            forall|k: Seq<char>| r.decision_spec(k) is None,
            r.claims_spec().len() == 0,
            r.journal_spec().len() == 1,
            r.journal_spec()[0].timestamp@ == timestamp@,
            r.journal_spec()[0].event matches JournalEvent::SessionOpen { session, suite: st }
                && session@ == session_id@ && st@ == suite@,
    {
        EinmoReview::open_with(storage, ReviewOpts::default_opts(), MatchSections::InputOutput, session_id, suite,
            JournalLevel::Normal, timestamp)
    }

    /// The storage the session works on.
    pub fn storage(&self) -> (r: &S)
        ensures
            r.artifacts() == self.artifacts(),
    {
        &self.storage
    }

    /// The storage, for a write made outside the review workflow (another
    /// process regenerating an output, say): everything the session holds
    /// stays as it was, so drift against such a write is caught later.
    pub fn storage_mut(&mut self) -> (r: &mut S)
        requires
            old(self).wf(),
        ensures
            r.artifacts() == old(self).artifacts(),
            final(self).artifacts() == final(r).artifacts(),
            final(self).wf(),
            forall|k: Seq<char>| final(self).decision_spec(k) == old(self).decision_spec(k)
                && final(self).basis_spec(k) == old(self).basis_spec(k),
            final(self).claims_spec() == old(self).claims_spec(),
            final(self).journal_spec() == old(self).journal_spec(),
            final(self).session_spec() == old(self).session_spec(),
            final(self).opts_spec() == old(self).opts_spec(),
            final(self).policy_spec() == old(self).policy_spec(),
            final(self).level_spec() == old(self).level_spec(),
    {
        &mut self.storage
    }

    /// End the session, handing its storage back.
    pub fn into_storage(self) -> (r: S)
        ensures
            r.artifacts() == self.artifacts(),
    {
        self.storage
    }

    /// This session's id.
    pub fn session_id(&self) -> (r: &str)
        ensures
            r@ == self.session_spec(),
    {
        self.session_id.as_str()
    }

    /// The journal file name this session writes to (`<session_id>.jsonl`,
    /// under the journal directory).
    pub fn journal_path(&self) -> (r: String)
        ensures
            r@ == self.session_spec() + seq!['.', 'j', 's', 'o', 'n', 'l'],
    {
        crate::journal::journal_path(self.session_id.as_str())
    }

    /// Take every journal line produced so far, oldest first.
    pub fn take_journal(&mut self) -> (r: Vec<JournalLine>)
        ensures
            r@ == old(self).journal_spec(),
            final(self).journal_spec().len() == 0,
            final(self).wf() == old(self).wf(),
            final(self).artifacts() == old(self).artifacts(),
            forall|k: Seq<char>| final(self).decision_spec(k) == old(self).decision_spec(k),
    {
        let mut out: Vec<JournalLine> = Vec::new();
        std::mem::swap(&mut out, &mut self.lines);
        assert(self.book == old(self).book && self.claims == old(self).claims);
        out
    }

    /// `id`'s pending decision, if any.
    pub fn decision(&self, id: &EinmoId) -> (r: Option<Decision>)
        requires
            self.wf(),
        ensures
            r == self.decision_spec(id@),
    {
        match book_find(&self.book, id) {
            Some(i) => {
                proof {
                    lemma_book_slot(self.book@, i as int);
                }
                Some(self.book[i].decision.duplicate())
            },
            None => None,
        }
    }
}

/// The case a planned action concerns (exec).
fn planned_id(a: &PlannedAction) -> (r: &EinmoId)
    ensures
        r@ == action_id(*a),
{
    match a {
        PlannedAction::Promote { id, .. } => id,
        PlannedAction::Retract { id, .. } => id,
        PlannedAction::Flag { id, .. } => id,
    }
}

/// The action a decision turns into, if any.
pub open spec fn action_for(id: Seq<char>, d: Decision, a: PlannedAction) -> bool {
    &&& action_id(a) == id
    &&& match (d, a) {
        (Decision::Promote { to }, PlannedAction::Promote { to: t, .. }) => t == to,
        (Decision::Retract { from }, PlannedAction::Retract { from: f, .. }) => f == from,
        (Decision::Flag { stage, reason }, PlannedAction::Flag { stage: st, reason: q, .. }) => st == stage && q@ == reason@,
        _ => false,
    }
}

impl<S: EinmoStorage> EinmoReview<S> {
    /// Record (or replace) the decision for `id`, with the bytes of the
    /// artifact it is based on as its drift basis; the previous decision
    /// is returned. Journals `Decide`.
    pub fn decide(&mut self, id: EinmoId, decision: Decision, timestamp: &str) -> (r: Option<Decision>)
        requires
            old(self).wf(),
        ensures
            final(self).wf(),
            r == old(self).decision_spec(id@),
            final(self).decision_spec(id@) == Some(decision),
            forall|k: Seq<char>| k != id@ ==> final(self).decision_spec(k) == old(self).decision_spec(k)
                && final(self).basis_spec(k) == old(self).basis_spec(k),
            final(self).basis_spec(id@) matches Some(Some(b)) ==> exists|st: Stage|
                #[trigger] old(self).artifacts().dom().contains((id@, ArtifactLocation::Stage(st)))
                && old(self).artifacts()[(id@, ArtifactLocation::Stage(st))] == b,
            decision is Skip ==> final(self).basis_spec(id@) == Some(None::<Seq<u8>>),
            final(self).artifacts() == old(self).artifacts(),
            final(self).claims_spec() == old(self).claims_spec(),
            final(self).session_spec() == old(self).session_spec(),
            final(self).opts_spec() == old(self).opts_spec(),
            final(self).policy_spec() == old(self).policy_spec(),
            final(self).level_spec() == old(self).level_spec(),
            crate::journal::level_rank(JournalLevel::Normal) <= crate::journal::level_rank(old(self).level_spec())
                ==> (final(self).journal_spec().drop_last() == old(self).journal_spec()
                && final(self).journal_spec().last().timestamp@ == timestamp@
                && (final(self).journal_spec().last().event matches JournalEvent::Decide { id: i, decision: j }
                && i@ == id@ && represents(j, decision))),
            journal_tracks(*old(self)) && crate::journal::level_rank(JournalLevel::Normal)
                <= crate::journal::level_rank(old(self).level_spec()) ==> journal_tracks(*final(self)),
    {
        let bst = decision_basis_stage(&self.storage, &id, &decision);
        let basis = match bst {
            Some(st) => stage_bytes(&self.storage, &id, st),
            None => None,
        };
        let ghost k = id@;
        let ghost m = self.artifacts();
        let ghost bv = match &basis { Some(b) => Some(b@), None => None::<Seq<u8>> };
        proof {
            if bv is Some {
                let st = bst.unwrap();
                assert(m.dom().contains((k, ArtifactLocation::Stage(st))));
                assert(m[(k, ArtifactLocation::Stage(st))] == bv.unwrap());
            }
        }
        let event = JournalEvent::Decide { id: own(id.as_str()), decision: JournalDecision::from_decision(&decision) };
        let ghost before = *old(self);
        let ghost d0 = decision;
        self.log_at(JournalLevel::Normal, event, timestamp);
        let r = book_decide(&mut self.book, id, decision, basis);
        proof {
            if journal_tracks(before) && crate::journal::level_rank(JournalLevel::Normal) <= crate::journal::level_rank(before.level) {
                assert forall|x: Seq<char>| #![trigger self.decision_spec(x)]
                    (self.decision_spec(x) is None <==> replayed(self.journal_spec(), x) is None)
                    && (replayed(self.journal_spec(), x) is Some ==> self.decision_spec(x) is Some
                        && represents(replayed(self.journal_spec(), x).unwrap(), self.decision_spec(x).unwrap())) by {
                    let line = self.journal_spec().last();
                    assert(self.journal_spec() =~= before.journal_spec().push(line));
                    lemma_replayed_push(before.journal_spec(), line, x);
                    if let JournalEvent::Decide { id: i, decision: j } = line.event {
                        lemma_journal_round_trip(j, d0, d0);
                        assert(before.decision_spec(x) is None <==> replayed(before.journal_spec(), x) is None);
                    }
                }
            }
        }
        r
    }

    /// Clear the decision for `id`; the cleared one is returned (`None`
    /// if there was none). Journals `Undecide`.
    pub fn undecide(&mut self, id: &EinmoId, timestamp: &str) -> (r: Option<Decision>)
        requires
            old(self).wf(),
        ensures
            final(self).wf(),
            r == old(self).decision_spec(id@),
            final(self).decision_spec(id@) is None,
            forall|k: Seq<char>| k != id@ ==> final(self).decision_spec(k) == old(self).decision_spec(k)
                && final(self).basis_spec(k) == old(self).basis_spec(k),
            final(self).artifacts() == old(self).artifacts(),
            final(self).claims_spec() == old(self).claims_spec(),
            final(self).session_spec() == old(self).session_spec(),
            final(self).opts_spec() == old(self).opts_spec(),
            final(self).policy_spec() == old(self).policy_spec(),
            final(self).level_spec() == old(self).level_spec(),
            crate::journal::level_rank(JournalLevel::Normal) <= crate::journal::level_rank(old(self).level_spec())
                ==> (final(self).journal_spec().drop_last() == old(self).journal_spec()
                && (final(self).journal_spec().last().event matches JournalEvent::Undecide { id: i } && i@ == id@)),
            journal_tracks(*old(self)) && crate::journal::level_rank(JournalLevel::Normal)
                <= crate::journal::level_rank(old(self).level_spec()) ==> journal_tracks(*final(self)),
    {
        let ghost before = *old(self);
        self.log_at(JournalLevel::Normal, JournalEvent::Undecide { id: own(id.as_str()) }, timestamp);
        let r = book_undecide(&mut self.book, id);
        proof {
            if journal_tracks(before) && crate::journal::level_rank(JournalLevel::Normal) <= crate::journal::level_rank(before.level) {
                assert forall|x: Seq<char>| #![trigger self.decision_spec(x)]
                    (self.decision_spec(x) is None <==> replayed(self.journal_spec(), x) is None)
                    && (replayed(self.journal_spec(), x) is Some ==> self.decision_spec(x) is Some
                        && represents(replayed(self.journal_spec(), x).unwrap(), self.decision_spec(x).unwrap())) by {
                    let line = self.journal_spec().last();
                    assert(self.journal_spec() =~= before.journal_spec().push(line));
                    lemma_replayed_push(before.journal_spec(), line, x);
                    assert(before.decision_spec(x) is None <==> replayed(before.journal_spec(), x) is None);
                }
            }
        }
        r
    }

    /// Claim `id` until `now_ms + ttl_ms` (saturating): soft and advisory,
    /// it never blocks a decision or an execution. Claiming again refreshes
    /// the claim; expired claims are dropped.
    pub fn claim_for(&mut self, id: &EinmoId, ttl_ms: u64, now_ms: u64)
        requires
            old(self).wf(),
        ensures
            final(self).wf(),
            final(self).claims_spec().contains((id@, now_ms.saturating_add(ttl_ms))),
            forall|i: int| 0 <= i < final(self).claims_spec().len() && (#[trigger] final(self).claims_spec()[i]).0 == id@
                ==> final(self).claims_spec()[i].1 == now_ms.saturating_add(ttl_ms),
            forall|i: int, j: int| 0 <= i < final(self).claims_spec().len() && 0 <= j < final(self).claims_spec().len() && i != j
                ==> (#[trigger] final(self).claims_spec()[i]).0 != (#[trigger] final(self).claims_spec()[j]).0,
            forall|i: int| 0 <= i < final(self).claims_spec().len() ==> (#[trigger] final(self).claims_spec()[i]).0 == id@
                || (final(self).claims_spec()[i].1 > now_ms && old(self).claims_spec().contains(final(self).claims_spec()[i])),
            forall|c: (Seq<char>, u64)| #[trigger] old(self).claims_spec().contains(c) && c.1 > now_ms && c.0 != id@
                ==> final(self).claims_spec().contains(c),
            final(self).artifacts() == old(self).artifacts(),
            forall|k: Seq<char>| final(self).decision_spec(k) == old(self).decision_spec(k),
            final(self).journal_spec() == old(self).journal_spec(),
    {
        let ghost old_claims = self.claims_spec();
        let mut kept: Vec<ClaimEntry> = Vec::new();
        let mut i: usize = 0;
        while i < self.claims.len()
            invariant
                i <= self.claims@.len(),
                self.wf(),
                old_claims == self.claims_spec(),
                forall|a: int| 0 <= a < kept@.len() ==> (#[trigger] kept@[a]).expires_at > now_ms
                    && kept@[a].id@ != id@ && old_claims.contains((kept@[a].id@, kept@[a].expires_at)),
                forall|a: int, b: int| 0 <= a < kept@.len() && 0 <= b < kept@.len() && a != b
                    ==> (#[trigger] kept@[a]).id@ != (#[trigger] kept@[b]).id@,
                forall|a: int| 0 <= a < kept@.len() ==> exists|j: int| 0 <= j < i && (#[trigger] kept@[a]).id@ == self.claims@[j].id@,
                forall|j: int| 0 <= j < i && (#[trigger] self.claims@[j]).expires_at > now_ms && self.claims@[j].id@ != id@
                    ==> exists|a: int| 0 <= a < kept@.len() && kept@[a].id@ == self.claims@[j].id@
                        && kept@[a].expires_at == self.claims@[j].expires_at,
            decreases self.claims@.len() - i,
        {
            let c = &self.claims[i];
            if c.expires_at > now_ms && !c.id.same(id) {
                let ghost prev = kept@;
                kept.push(ClaimEntry { id: c.id.duplicate(), expires_at: c.expires_at });
                proof {
                    assert(old_claims[i as int] == (self.claims@[i as int].id@, self.claims@[i as int].expires_at));
                    assert forall|a: int, b: int| 0 <= a < kept@.len() && 0 <= b < kept@.len() && a != b
                        implies (#[trigger] kept@[a]).id@ != (#[trigger] kept@[b]).id@ by {
                        if a < prev.len() && b < prev.len() {
                            assert(kept@[a] == prev[a] && kept@[b] == prev[b]);
                        } else if a < prev.len() {
                            assert(kept@[a] == prev[a]);
                            let j = choose|j: int| 0 <= j < i && (#[trigger] prev[a]).id@ == self.claims@[j].id@;
                            assert(j != i);
                        } else if b < prev.len() {
                            assert(kept@[b] == prev[b]);
                            let j = choose|j: int| 0 <= j < i && (#[trigger] prev[b]).id@ == self.claims@[j].id@;
                            assert(j != i);
                        }
                    }
                    assert forall|a: int| 0 <= a < kept@.len() implies exists|j: int| 0 <= j < i + 1
                        && (#[trigger] kept@[a]).id@ == self.claims@[j].id@ by {
                        if a < prev.len() {
                            assert(kept@[a] == prev[a]);
                            let j = choose|j: int| 0 <= j < i && (#[trigger] prev[a]).id@ == self.claims@[j].id@;
                        } else {
                            assert(kept@[a].id@ == self.claims@[i as int].id@);
                        }
                    }
                    assert forall|j: int| 0 <= j < i + 1 && (#[trigger] self.claims@[j]).expires_at > now_ms
                        && self.claims@[j].id@ != id@ implies exists|a: int| 0 <= a < kept@.len()
                        && kept@[a].id@ == self.claims@[j].id@ && kept@[a].expires_at == self.claims@[j].expires_at by {
                        if j < i {
                            let a = choose|a: int| 0 <= a < prev.len() && prev[a].id@ == self.claims@[j].id@
                                && prev[a].expires_at == self.claims@[j].expires_at;
                            assert(kept@[a] == prev[a]);
                        } else {
                            assert(kept@[prev.len() as int].id@ == self.claims@[j].id@);
                        }
                    }
                }
            } else {
                proof {
                    assert forall|a: int| 0 <= a < kept@.len() implies exists|j: int| 0 <= j < i + 1
                        && (#[trigger] kept@[a]).id@ == self.claims@[j].id@ by {
                        let j = choose|j: int| 0 <= j < i && (#[trigger] kept@[a]).id@ == self.claims@[j].id@;
                    }
                }
            }
            i = i + 1;
        }
        let expires = now_ms.saturating_add(ttl_ms);
        let ghost prev = kept@;
        kept.push(ClaimEntry { id: id.duplicate(), expires_at: expires });
        self.claims = kept;
        proof {
            let cs = self.claims_spec();
            assert(cs[prev.len() as int] == (id@, expires));
            assert forall|a: int, b: int| 0 <= a < self.claims@.len() && 0 <= b < self.claims@.len() && a != b
                implies (#[trigger] self.claims@[a]).id@ != (#[trigger] self.claims@[b]).id@ by {
                if a < prev.len() && b < prev.len() {
                    assert(self.claims@[a] == prev[a] && self.claims@[b] == prev[b]);
                } else if a < prev.len() {
                    assert(self.claims@[a] == prev[a]);
                } else if b < prev.len() {
                    assert(self.claims@[b] == prev[b]);
                }
            }
            assert forall|a: int| 0 <= a < cs.len() implies (#[trigger] cs[a]).0 == id@
                || (cs[a].1 > now_ms && old_claims.contains(cs[a])) by {
                if a < prev.len() {
                    assert(self.claims@[a] == prev[a]);
                }
            }
            assert forall|c: (Seq<char>, u64)| #[trigger] old_claims.contains(c) && c.1 > now_ms && c.0 != id@
                implies cs.contains(c) by {
                let j = choose|j: int| 0 <= j < old_claims.len() && old_claims[j] == c;
                let a = choose|a: int| 0 <= a < prev.len() && prev[a].id@ == old(self).claims@[j].id@
                    && prev[a].expires_at == old(self).claims@[j].expires_at;
                assert(self.claims@[a] == prev[a]);
                assert(cs[a] == c);
            }
        }
    }

    /// Claim `id` for the default five minutes.
    pub fn claim(&mut self, id: &EinmoId, now_ms: u64)
        requires
            old(self).wf(),
        ensures
            final(self).wf(),
            final(self).claims_spec().contains((id@, now_ms.saturating_add(DEFAULT_CLAIM_TTL_MS))),
            final(self).artifacts() == old(self).artifacts(),
            forall|k: Seq<char>| final(self).decision_spec(k) == old(self).decision_spec(k),
    {
        self.claim_for(id, DEFAULT_CLAIM_TTL_MS, now_ms);
    }

    /// Every claim still active at `now_ms`, with its remaining time.
    pub fn active_claims(&self, now_ms: u64) -> (r: Vec<ActiveClaim>)
        ensures
            forall|a: int| 0 <= a < r@.len() ==> exists|i: int| 0 <= i < self.claims_spec().len()
                && (#[trigger] r@[a]).id@ == self.claims_spec()[i].0 && self.claims_spec()[i].1 > now_ms
                && r@[a].remaining_ms == self.claims_spec()[i].1 - now_ms,
            r@.len() == active_count(self.claims_spec(), now_ms),
            forall|i: int| 0 <= i < self.claims_spec().len() && (#[trigger] self.claims_spec()[i]).1 > now_ms
                ==> exists|a: int| 0 <= a < r@.len() && r@[a].id@ == self.claims_spec()[i].0
                    && r@[a].remaining_ms == self.claims_spec()[i].1 - now_ms,
            self.wf() ==> forall|a: int, b: int| 0 <= a < r@.len() && 0 <= b < r@.len() && a != b
                ==> (#[trigger] r@[a]).id@ != (#[trigger] r@[b]).id@,
    {
        let ghost cs = self.claims_spec();
        let mut out: Vec<ActiveClaim> = Vec::new();
        let ghost mut pos: Seq<int> = Seq::empty();
        let mut i: usize = 0;
        while i < self.claims.len()
            invariant
                i <= self.claims@.len(),
                cs == self.claims_spec(),
                out@.len() == active_count(cs.take(i as int), now_ms),
                pos.len() == out@.len(),
                forall|a: int| 0 <= a < out@.len() ==> 0 <= #[trigger] pos[a] < i && (out@[a]).id@ == cs[pos[a]].0
                    && cs[pos[a]].1 > now_ms && out@[a].remaining_ms == cs[pos[a]].1 - now_ms,
                forall|a: int, b: int| 0 <= a < b < out@.len() ==> #[trigger] pos[a] < #[trigger] pos[b],
                forall|j: int| 0 <= j < i && (#[trigger] cs[j]).1 > now_ms ==> exists|a: int| 0 <= a < out@.len()
                    && pos[a] == j,
            decreases self.claims@.len() - i,
        {
            proof {
                assert(cs.take(i + 1).drop_last() =~= cs.take(i as int));
                assert(cs.take(i + 1).last() == cs[i as int]);
            }
            let c = &self.claims[i];
            let ghost pp = pos;
            let ghost po = out@;
            if c.expires_at > now_ms {
                out.push(ActiveClaim { id: c.id.duplicate(), remaining_ms: c.expires_at - now_ms });
                proof {
                    assert(cs[i as int] == (self.claims@[i as int].id@, self.claims@[i as int].expires_at));
                    pos = pos.push(i as int);
                    assert forall|a: int| 0 <= a < out@.len() implies 0 <= #[trigger] pos[a] < i + 1 && (out@[a]).id@ == cs[pos[a]].0
                        && cs[pos[a]].1 > now_ms && out@[a].remaining_ms == cs[pos[a]].1 - now_ms by {
                        if a < po.len() {
                            assert(out@[a] == po[a] && pos[a] == pp[a]);
                        }
                    }
                    assert forall|j: int| 0 <= j < i + 1 && (#[trigger] cs[j]).1 > now_ms implies exists|a: int|
                        0 <= a < out@.len() && pos[a] == j by {
                        if j < i {
                            let a = choose|a: int| 0 <= a < po.len() && pp[a] == j;
                            assert(pos[a] == pp[a]);
                        } else {
                            assert(pos[po.len() as int] == j);
                        }
                    }
                }
            }
            i = i + 1;
        }
        proof {
            assert(cs.take(i as int) =~= cs);
            assert forall|j: int| 0 <= j < cs.len() && (#[trigger] cs[j]).1 > now_ms implies exists|a: int|
                0 <= a < out@.len() && out@[a].id@ == cs[j].0 && out@[a].remaining_ms == cs[j].1 - now_ms by {
                let a = choose|a: int| 0 <= a < out@.len() && pos[a] == j;
                assert(out@[a].id@ == cs[pos[a]].0);
            }
            assert forall|a: int| 0 <= a < out@.len() implies exists|j: int| 0 <= j < cs.len()
                && (#[trigger] out@[a]).id@ == cs[j].0 && cs[j].1 > now_ms && out@[a].remaining_ms == cs[j].1 - now_ms by {
                assert(0 <= pos[a] < cs.len());
            }
            if self.wf() {
                assert forall|a: int, b: int| 0 <= a < out@.len() && 0 <= b < out@.len() && a != b
                    implies (#[trigger] out@[a]).id@ != (#[trigger] out@[b]).id@ by {
                    let (x, y) = (pos[a], pos[b]);
                    assert(x != y) by {
                        if a < b { assert(pos[a] < pos[b]); } else { assert(pos[b] < pos[a]); }
                    }
                    assert(cs[x].0 == self.claims@[x].id@ && cs[y].0 == self.claims@[y].id@);
                }
            }
        }
        out
    }

    /// A preview of what `execute` would do right now: each pending
    /// decision as its action (a `Skip` gives none), and the claims active
    /// at `now_ms`.
    pub fn plan(&self, now_ms: u64) -> (r: ExecutionPlan)
        requires
            self.wf(),
        ensures
            forall|a: int| 0 <= a < r.actions@.len() ==> ((#[trigger] self.decision_spec(action_id(r.actions@[a])))
                matches Some(d) && action_for(action_id(r.actions@[a]), d, r.actions@[a])),
            forall|k: Seq<char>| #[trigger] self.decision_spec(k) matches Some(d) && !(d is Skip)
                ==> exists|a: int| 0 <= a < r.actions@.len() && action_id(r.actions@[a]) == k,
            forall|a: int, b: int| 0 <= a < r.actions@.len() && 0 <= b < r.actions@.len() && a != b
                ==> action_id(#[trigger] r.actions@[a]) != action_id(#[trigger] r.actions@[b]),
            r.claims@.len() == active_count(self.claims_spec(), now_ms),
            forall|i: int| 0 <= i < self.claims_spec().len() && (#[trigger] self.claims_spec()[i]).1 > now_ms
                ==> exists|a: int| 0 <= a < r.claims@.len() && r.claims@[a].id@ == self.claims_spec()[i].0
                    && r.claims@[a].remaining_ms == self.claims_spec()[i].1 - now_ms,
            forall|a: int, b: int| 0 <= a < r.claims@.len() && 0 <= b < r.claims@.len() && a != b
                ==> (#[trigger] r.claims@[a]).id@ != (#[trigger] r.claims@[b]).id@,
    {
        let mut actions: Vec<PlannedAction> = Vec::new();
        let mut i: usize = 0;
        while i < self.book.len()
            invariant
                i <= self.book@.len(),
                self.wf(),
                forall|a: int| 0 <= a < actions@.len() ==> exists|j: int| 0 <= j < i
                    && action_id(#[trigger] actions@[a]) == self.book@[j].id@
                    && action_for(self.book@[j].id@, self.book@[j].decision, actions@[a]),
                forall|j: int| 0 <= j < i && !(self.book@[j].decision is Skip) ==> exists|a: int| 0 <= a < actions@.len()
                    && action_id(actions@[a]) == (#[trigger] self.book@[j]).id@,
                forall|a: int, b: int| 0 <= a < actions@.len() && 0 <= b < actions@.len() && a != b
                    ==> action_id(#[trigger] actions@[a]) != action_id(#[trigger] actions@[b]),
                forall|a: int| 0 <= a < actions@.len() ==> exists|j: int| 0 <= j < i
                    && action_id(#[trigger] actions@[a]) == self.book@[j].id@,
            decreases self.book@.len() - i,
        {
            let e = &self.book[i];
            let ghost prev = actions@;
            let act = match &e.decision {
                Decision::Promote { to } => Some(PlannedAction::Promote { id: e.id.duplicate(), to: *to }),
                Decision::Retract { from } => Some(PlannedAction::Retract { id: e.id.duplicate(), from: *from }),
                Decision::Flag { stage, reason } => Some(PlannedAction::Flag {
                    id: e.id.duplicate(),
                    stage: *stage,
                    reason: reason.clone(),
                }),
                Decision::Skip => None,
            };
            match act {
                Some(a) => {
                    actions.push(a);
                    proof {
                        assert forall|x: int, y: int| 0 <= x < actions@.len() && 0 <= y < actions@.len() && x != y
                            implies action_id(#[trigger] actions@[x]) != action_id(#[trigger] actions@[y]) by {
                            if x < prev.len() && y < prev.len() {
                                assert(actions@[x] == prev[x] && actions@[y] == prev[y]);
                            } else if x < prev.len() {
                                assert(actions@[x] == prev[x]);
                                let j = choose|j: int| 0 <= j < i && action_id(#[trigger] prev[x]) == self.book@[j].id@;
                                assert(self.book@[j].id@ != self.book@[i as int].id@);
                            } else if y < prev.len() {
                                assert(actions@[y] == prev[y]);
                                let j = choose|j: int| 0 <= j < i && action_id(#[trigger] prev[y]) == self.book@[j].id@;
                                assert(self.book@[j].id@ != self.book@[i as int].id@);
                            }
                        }
                        assert forall|x: int| 0 <= x < actions@.len() implies exists|j: int| 0 <= j < i + 1
                            && action_id(#[trigger] actions@[x]) == self.book@[j].id@
                            && action_for(self.book@[j].id@, self.book@[j].decision, actions@[x]) by {
                            if x < prev.len() {
                                assert(actions@[x] == prev[x]);
                            } else {
                                assert(action_for(self.book@[i as int].id@, self.book@[i as int].decision, actions@[x]));
                            }
                        }
                        assert forall|x: int| 0 <= x < actions@.len() implies exists|j: int| 0 <= j < i + 1
                            && action_id(#[trigger] actions@[x]) == self.book@[j].id@ by {
                            if x < prev.len() {
                                assert(actions@[x] == prev[x]);
                            }
                        }
                        assert forall|j: int| 0 <= j < i + 1 && !(self.book@[j].decision is Skip) implies exists|x: int|
                            0 <= x < actions@.len() && action_id(actions@[x]) == (#[trigger] self.book@[j]).id@ by {
                            if j < i {
                                let x = choose|x: int| 0 <= x < prev.len() && action_id(prev[x]) == self.book@[j].id@;
                                assert(actions@[x] == prev[x]);
                            } else {
                                assert(action_id(actions@[prev.len() as int]) == self.book@[j].id@);
                            }
                        }
                    }
                },
                None => {},
            }
            i = i + 1;
        }
        proof {
            assert forall|a: int| 0 <= a < actions@.len() implies ((#[trigger] self.decision_spec(action_id(actions@[a])))
                matches Some(d) && action_for(action_id(actions@[a]), d, actions@[a])) by {
                let j = choose|j: int| 0 <= j < self.book@.len() && action_id(#[trigger] actions@[a]) == self.book@[j].id@
                    && action_for(self.book@[j].id@, self.book@[j].decision, actions@[a]);
                lemma_book_slot(self.book@, j);
            }
            assert forall|k: Seq<char>| #[trigger] self.decision_spec(k) matches Some(d) && !(d is Skip)
                implies exists|a: int| 0 <= a < actions@.len() && action_id(actions@[a]) == k by {
                let j = book_slot(self.book@, k);
                assert(self.book@[j].id@ == k);
            }
        }
        let claims = self.active_claims(now_ms);
        let r = ExecutionPlan { actions, claims };
        assert(r.claims@ == claims@);
        r
    }
}

/// How many of `cs` are still active at `now`.
pub open spec fn active_count(cs: Seq<(Seq<char>, u64)>, now: u64) -> nat
    decreases cs.len(),
{
    if cs.len() == 0 {
        0
    } else {
        active_count(cs.drop_last(), now) + if cs.last().1 > now { 1nat } else { 0nat }
    }
}

/// The line-level diff `similar` computes between two texts: each line
/// tagged 0 (equal), 1 (only in the left text) or 2 (only in the right).
pub uninterp spec fn line_diff_spec(left: Seq<char>, right: Seq<char>) -> Seq<(u8, Seq<char>)>;

/// `similar::TextDiff::from_lines(left, right).iter_all_changes()`: every
/// line change, in order, as its tag (equal, delete, insert as 0, 1, 2) and
/// its text. With the default configuration (Myers, no deadline) the
/// result is a function of the two texts alone.
#[verifier::external_body]
fn line_diff(left: &str, right: &str) -> (r: Vec<(u8, String)>)
    ensures
        r@.len() == line_diff_spec(left@, right@).len(),
        forall|i: int| 0 <= i < r@.len() ==> (#[trigger] r@[i]).0 == line_diff_spec(left@, right@)[i].0
            && r@[i].1@ == line_diff_spec(left@, right@)[i].1 && r@[i].0 <= 2,
{
    let mut out = Vec::new();
    for c in similar::TextDiff::from_lines(left, right).iter_all_changes() {
        let tag = match c.tag() {
            similar::ChangeTag::Equal => 0u8,
            similar::ChangeTag::Delete => 1u8,
            similar::ChangeTag::Insert => 2u8,
        };
        out.push((tag, c.value().to_string()));
    }
    out
}

/// A diff line as its tag and text.
pub open spec fn diff_line_view(d: DiffLine) -> (u8, Seq<char>) {
    match d {
        DiffLine::Equal(s) => (0u8, s@),
        DiffLine::Removed(s) => (1u8, s@),
        DiffLine::Added(s) => (2u8, s@),
    }
}

/// `sd` is the diff of section `name` between texts `left` and `right`.
pub open spec fn section_diff_ok(sd: SectionDiff, name: Seq<char>, left: Seq<char>, right: Seq<char>) -> bool {
    &&& sd.name@ == name
    &&& sd.lines@.len() == line_diff_spec(left, right).len()
    &&& forall|i: int| 0 <= i < sd.lines@.len() ==> diff_line_view(#[trigger] sd.lines@[i]) == line_diff_spec(left, right)[i]
}

/// The diff of one section's body between two stages.
fn section_diff(name: &str, left: &str, right: &str) -> (r: SectionDiff)
    ensures
        section_diff_ok(r, name@, left@, right@),
{
    let raw = line_diff(left, right);
    let mut lines: Vec<DiffLine> = Vec::new();
    let mut i: usize = 0;
    while i < raw.len()
        invariant
            i <= raw@.len(),
            raw@.len() == line_diff_spec(left@, right@).len(),
            forall|k: int| 0 <= k < raw@.len() ==> (#[trigger] raw@[k]).0 == line_diff_spec(left@, right@)[k].0
                && raw@[k].1@ == line_diff_spec(left@, right@)[k].1 && raw@[k].0 <= 2,
            lines@.len() == i,
            forall|k: int| 0 <= k < i ==> diff_line_view(#[trigger] lines@[k]) == line_diff_spec(left@, right@)[k],
        decreases raw@.len() - i,
    {
        let text = raw[i].1.clone();
        let line = if raw[i].0 == 0 {
            DiffLine::Equal(text)
        } else if raw[i].0 == 1 {
            DiffLine::Removed(text)
        } else {
            DiffLine::Added(text)
        };
        lines.push(line);
        i = i + 1;
    }
    SectionDiff { name: own(name), lines }
}

/// A body's sections as `(name, body)` records.
pub open spec fn body_view(vb: VerifiedBody) -> Seq<Seq<Seq<char>>> {
    Seq::new(vb.sections@.len(), |i: int| seq![vb.sections@[i].0@, vb.sections@[i].1@])
}

/// Whether a section record list has a section named `name`.
pub open spec fn has_name(l: Seq<Seq<Seq<char>>>, name: Seq<char>) -> bool {
    exists|j: int| 0 <= j < l.len() && (#[trigger] l[j])[0] == name
}

/// The text of the first section named `name`, or the empty text.
pub open spec fn first_text(l: Seq<Seq<Seq<char>>>, name: Seq<char>) -> Seq<char>
    decreases l.len(),
{
    if l.len() == 0 {
        Seq::empty()
    } else if l[0][0] == name {
        l[0][1]
    } else {
        first_text(l.drop_first(), name)
    }
}

/// The sections of `r` whose name `l` lacks, as `(name, "", text)`.
pub open spec fn right_only(l: Seq<Seq<Seq<char>>>, r: Seq<Seq<Seq<char>>>) -> Seq<(Seq<char>, Seq<char>, Seq<char>)>
    decreases r.len(),
{
    if r.len() == 0 {
        Seq::empty()
    } else {
        let p = right_only(l, r.drop_last());
        if has_name(l, r.last()[0]) {
            p
        } else {
            p.push((r.last()[0], Seq::empty(), r.last()[1]))
        }
    }
}

/// The sections a diff between bodies `l` and `r` compares, as
/// `(name, left text, right text)`: `l`'s sections in order, each against
/// the right section of the same name (or nothing), then `r`'s sections
/// that `l` lacks, against nothing.
pub open spec fn hunks_spec(l: Seq<Seq<Seq<char>>>, r: Seq<Seq<Seq<char>>>) -> Seq<(Seq<char>, Seq<char>, Seq<char>)> {
    Seq::new(l.len(), |i: int| (l[i][0], l[i][1], first_text(r, l[i][0]))) + right_only(l, r)
}

/// Byte-slice equality.
fn bytes_eq(a: &[u8], b: &[u8]) -> (r: bool)
    ensures
        r == (a@ == b@),
{
    if a.len() != b.len() {
        return false;
    }
    let mut i: usize = 0;
    while i < a.len()
        invariant
            a@.len() == b@.len(),
            i <= a@.len(),
            forall|k: int| 0 <= k < i ==> a@[k] == b@[k],
        decreases a@.len() - i,
    {
        if a[i] != b[i] {
            return false;
        }
        i = i + 1;
    }
    assert(a@ =~= b@);
    true
}

/// The storage-relative path of a case's artifact at a stage:
/// `<stage>/<id>.einmo`.
fn stage_path(id: &EinmoId, stage: Stage) -> (r: String)
    ensures
        r@ == stage_dir_name(stage) + seq!['/'] + crate::stage::mirror_spec(id@),
{
    proof {
        reveal_strlit("/");
    }
    let a = concat(stage.dir_name(), "/");
    let p = id.mirror_path();
    concat(a.as_str(), p.as_str())
}

/// The verified body of `id` at `stage` in `storage`: every section but
/// `STAMPS`, after verify-on-inspect.
///
/// # Errors
/// [`EinmoError::Io`] (not found) if the stage holds nothing for `id`;
/// [`EinmoError::Verification`] or [`EinmoError::Parse`] if the artifact
/// fails verify-on-inspect; any storage failure.
pub fn read_stage_body<S: EinmoStorage>(storage: &S, id: &EinmoId, stage: Stage) -> (r: Result<VerifiedBody, EinmoError>)
    ensures
        read_body_ok(storage.artifacts(), storage.infallible(), id@, stage, r),
{
    let case = EinmoCase::new(id.duplicate());
    match case.read(storage, ArtifactLocation::Stage(stage)) {
        Err(e) => Err(e),
        Ok(None) => {
            proof {
                reveal_strlit("no artifact at that stage");
            }
            Err(EinmoError::Io { path: stage_path(id, stage), message: own("no artifact at that stage"), not_found: true })
        },
        Ok(Some(f)) => {
            let sections = body_sections(&f, None);
            proof {
                let m = storage.artifacts();
                let k = key_at(id@, ArtifactLocation::Stage(stage));
                lemma_file_of(m[k], f);
                lemma_same_sections(f.sections@, file_of(m[k]).sections@, None, Seq::empty(), Seq::empty());
                assert(opt_chars(None) == None::<Seq<char>>);
                let vb = VerifiedBody { sections };
                assert(body_view(vb) =~= body_pairs(f.sections@, None));
            }
            Ok(VerifiedBody { sections })
        },
    }
}

/// What reading the verified body of case `id` at `stage` from artifacts
/// `m` (on a storage that is `infallible` or not) may give: the body when
/// the stage holds an envelope that verifies; a not-found error when it
/// holds nothing; a verify-on-inspect error when it fails to verify; a
/// storage error only from a storage that can fail.
pub open spec fn read_body_ok(
    m: Map<ArtifactKey, Seq<u8>>,
    infallible: bool,
    id: Seq<char>,
    stage: Stage,
    r: Result<VerifiedBody, EinmoError>,
) -> bool {
    let k = key_at(id, ArtifactLocation::Stage(stage));
    &&& r matches Ok(vb) ==> m.dom().contains(k) && verifies(m[k])
        && body_view(vb) == body_pairs(file_of(m[k]).sections@, None)
    &&& !m.dom().contains(k) ==> (r matches Err(e) && e is Io)
    &&& m.dom().contains(k) && !verifies(m[k]) ==> r is Err
    &&& r matches Err(e) ==> e is Io || ((e is Verification || e is Parse) && m.dom().contains(k) && !verifies(m[k]))
    &&& infallible ==> (r matches Err(EinmoError::Io { not_found, .. }) ==> not_found && !m.dom().contains(k))
    &&& infallible && m.dom().contains(k) && verifies(m[k]) ==> r is Ok
}

impl<S: EinmoStorage> EinmoReview<S> {
    /// The verified body of `id` at `stage`, uncached.
    fn read_body(&self, id: &EinmoId, stage: Stage) -> (r: Result<VerifiedBody, EinmoError>)
        ensures
            read_body_ok(self.artifacts(), self.storage_infallible(), id@, stage, r),
    {
        read_stage_body(&self.storage, id, stage)
    }

    /// The verified body of `id` at `stage` (every section but `STAMPS`),
    /// verify-on-inspect. Journals `VerifyStart` and `VerifyEnd` at the
    /// `Fine` level.
    ///
    /// # Errors
    /// [`EinmoError::Io`] (not found) if the artifact is absent;
    /// [`EinmoError::Verification`] or [`EinmoError::Parse`] if it fails
    /// verify-on-inspect; any storage failure.
    pub fn body(&mut self, id: &EinmoId, stage: Stage, timestamp: &str) -> (r: Result<VerifiedBody, EinmoError>)
        requires
            old(self).wf(),
        ensures
            final(self).wf(),
            final(self).artifacts() == old(self).artifacts(),
            forall|k: Seq<char>| final(self).decision_spec(k) == old(self).decision_spec(k)
                && final(self).basis_spec(k) == old(self).basis_spec(k),
            final(self).claims_spec() == old(self).claims_spec(),
            final(self).session_spec() == old(self).session_spec(),
            final(self).opts_spec() == old(self).opts_spec(),
            final(self).policy_spec() == old(self).policy_spec(),
            final(self).level_spec() == old(self).level_spec(),
            final(self).storage_infallible() == old(self).storage_infallible(),
            read_body_ok(old(self).artifacts(), old(self).storage_infallible(), id@, stage, r),
    {
        self.log_at(JournalLevel::Fine, JournalEvent::VerifyStart { id: own(id.as_str()), stage: stage.to_string() }, timestamp);
        let result = self.read_body(id, stage);
        let ok = result.is_ok();
        self.log_at(JournalLevel::Fine, JournalEvent::VerifyEnd { id: own(id.as_str()), stage: stage.to_string(), ok }, timestamp);
        result
    }

    /// The section-by-section line diff of `id` between stages `left` and
    /// `right`: each of `left`'s body sections against the same-named
    /// section of `right` (or nothing), then each section only `right` has
    /// against nothing. Both sides are verify-on-inspected.
    ///
    /// # Errors
    /// As [`EinmoReview::body`], for either side.
    pub fn diff(&mut self, id: &EinmoId, left: Stage, right: Stage, timestamp: &str) -> (r: Result<DiffHunks, EinmoError>)
        requires
            old(self).wf(),
        ensures
            final(self).wf(),
            final(self).artifacts() == old(self).artifacts(),
            forall|k: Seq<char>| final(self).decision_spec(k) == old(self).decision_spec(k)
                && final(self).basis_spec(k) == old(self).basis_spec(k),
            final(self).claims_spec() == old(self).claims_spec(),
            final(self).level_spec() == old(self).level_spec(),
            ({
                let m = old(self).artifacts();
                let kl = key_at(id@, ArtifactLocation::Stage(left));
                let kr = key_at(id@, ArtifactLocation::Stage(right));
                let l = body_pairs(file_of(m[kl]).sections@, None);
                let rr = body_pairs(file_of(m[kr]).sections@, None);
                &&& r matches Ok(h) ==> m.dom().contains(kl) && verifies(m[kl]) && m.dom().contains(kr) && verifies(m[kr])
                    && h.sections@.len() == hunks_spec(l, rr).len()
                    && forall|i: int| 0 <= i < h.sections@.len() ==> section_diff_ok(#[trigger] h.sections@[i],
                        hunks_spec(l, rr)[i].0, hunks_spec(l, rr)[i].1, hunks_spec(l, rr)[i].2)
                &&& !(m.dom().contains(kl) && verifies(m[kl]) && m.dom().contains(kr) && verifies(m[kr])) ==> r is Err
                &&& r matches Err(e) ==> e is Io || ((e is Verification || e is Parse)
                    && ((m.dom().contains(kl) && !verifies(m[kl])) || (m.dom().contains(kr) && !verifies(m[kr]))))
                &&& !m.dom().contains(kl) ==> (r matches Err(e) && e is Io)
                &&& old(self).storage_infallible() ==> (r matches Err(EinmoError::Io { not_found, .. }) ==> not_found
                    && (!m.dom().contains(kl) || !m.dom().contains(kr)))
                &&& old(self).storage_infallible() && m.dom().contains(kl) && verifies(m[kl]) && m.dom().contains(kr)
                    && verifies(m[kr]) ==> r is Ok
            }),
    {
        let lb = match self.body(id, left, timestamp) {
            Ok(b) => b,
            Err(e) => return Err(e),
        };
        let rb = match self.body(id, right, timestamp) {
            Ok(b) => b,
            Err(e) => return Err(e),
        };
        let ghost lv = body_view(lb);
        let ghost rv = body_view(rb);
        let mut sections: Vec<SectionDiff> = Vec::new();
        let mut i: usize = 0;
        while i < lb.sections.len()
            invariant
                i <= lb.sections@.len(),
                lv == body_view(lb),
                rv == body_view(rb),
                sections@.len() == i,
                forall|k: int| 0 <= k < i ==> section_diff_ok(#[trigger] sections@[k], lv[k][0], lv[k][1], first_text(rv, lv[k][0])),
            decreases lb.sections@.len() - i,
        {
            let name = lb.sections[i].0.as_str();
            let mut j: usize = 0;
            let mut found: Option<usize> = None;
            assert(rv.skip(0) =~= rv);
            while j < rb.sections.len()
                invariant
                    j <= rb.sections@.len(),
                    rv == body_view(rb),
                    found is None ==> first_text(rv, name@) == first_text(rv.skip(j as int), name@),
                    found matches Some(f) ==> f < rb.sections@.len() && first_text(rv, name@) == rv[f as int][1],
                decreases rb.sections@.len() - j,
            {
                if found.is_none() {
                    proof {
                        assert(rv.skip(j as int)[0] == rv[j as int]);
                        assert(rv.skip(j as int).drop_first() =~= rv.skip(j + 1));
                    }
                    if crate::text::str_eq(rb.sections[j].0.as_str(), name) {
                        found = Some(j);
                    }
                }
                j = j + 1;
            }
            proof {
                if found is None {
                    assert(rv.skip(j as int).len() == 0);
                }
                assert(lv[i as int][0] == name@);
            }
            let sd = match found {
                Some(f) => section_diff(name, lb.sections[i].1.as_str(), rb.sections[f].1.as_str()),
                None => section_diff(name, lb.sections[i].1.as_str(), ""),
            };
            proof {
                reveal_strlit("");
                assert(""@ =~= Seq::<char>::empty());
            }
            sections.push(sd);
            i = i + 1;
        }
        let mut j: usize = 0;
        while j < rb.sections.len()
            invariant
                j <= rb.sections@.len(),
                lv == body_view(lb),
                rv == body_view(rb),
                sections@.len() == lv.len() + right_only(lv, rv.take(j as int)).len(),
                forall|k: int| 0 <= k < lv.len() ==> section_diff_ok(#[trigger] sections@[k], lv[k][0], lv[k][1], first_text(rv, lv[k][0])),
                forall|k: int| 0 <= k < right_only(lv, rv.take(j as int)).len() ==> section_diff_ok(
                    #[trigger] sections@[lv.len() + k], right_only(lv, rv.take(j as int))[k].0,
                    right_only(lv, rv.take(j as int))[k].1, right_only(lv, rv.take(j as int))[k].2),
            decreases rb.sections@.len() - j,
        {
            let name = rb.sections[j].0.as_str();
            let mut seen = false;
            let mut a: usize = 0;
            while a < lb.sections.len()
                invariant
                    a <= lb.sections@.len(),
                    lv == body_view(lb),
                    seen == exists|x: int| 0 <= x < a && (#[trigger] lv[x])[0] == name@,
                decreases lb.sections@.len() - a,
            {
                assert(lv[a as int][0] == lb.sections@[a as int].0@);
                if crate::text::str_eq(lb.sections[a].0.as_str(), name) {
                    seen = true;
                }
                a = a + 1;
            }
            let ghost ro = right_only(lv, rv.take(j as int));
            proof {
                assert(rv.take(j + 1).drop_last() =~= rv.take(j as int));
                assert(rv.take(j + 1).last() == rv[j as int]);
                assert(rv[j as int][0] == name@);
                assert(seen == has_name(lv, name@));
            }
            if !seen {
                let sd = section_diff(name, "", rb.sections[j].1.as_str());
                proof {
                    reveal_strlit("");
                    assert(""@ =~= Seq::<char>::empty());
                }
                let ghost prev = sections@;
                sections.push(sd);
                proof {
                    let ro2 = right_only(lv, rv.take(j + 1));
                    assert(ro2 == ro.push((name@, Seq::empty(), rv[j as int][1])));
                    assert forall|k: int| 0 <= k < ro2.len() implies section_diff_ok(
                        #[trigger] sections@[lv.len() + k], ro2[k].0, ro2[k].1, ro2[k].2) by {
                        if k < ro.len() {
                            assert(sections@[lv.len() + k] == prev[lv.len() + k]);
                        }
                    }
                }
            }
            j = j + 1;
        }
        proof {
            assert(rv.take(j as int) =~= rv);
        }
        let h = DiffHunks { sections };
        proof {
            let hs = hunks_spec(lv, rv);
            assert forall|i: int| 0 <= i < h.sections@.len() implies section_diff_ok(#[trigger] h.sections@[i],
                hs[i].0, hs[i].1, hs[i].2) by {
                if i < lv.len() {
                } else {
                    assert(h.sections@[i] == h.sections@[lv.len() + (i - lv.len())]);
                }
            }
        }
        Ok(h)
    }
}

/// `rand_core::OsRng::next_u32`: a random number from the operating
/// system. Nothing is known of its value.
#[verifier::external_body]
fn os_random_u32() -> (r: u32) {
    rand_core::RngCore::next_u32(&mut rand_core::OsRng)
}

/// `rand_core::OsRng::fill_bytes`: `n` random bytes from the operating
/// system. Nothing is known of their values.
#[verifier::external_body]
fn os_random_bytes(n: usize) -> (r: Vec<u8>)
    ensures
        r@.len() == n,
{
    let mut v = vec![0u8; n];
    rand_core::RngCore::fill_bytes(&mut rand_core::OsRng, &mut v);
    v
}

/// A fresh session id: 128 random bits, lowercase hex.
pub fn random_session_id() -> (r: String)
    ensures
        exists|b: Seq<u8>| b.len() == 16 && r@ == #[trigger] crate::hex::hex_spec(b),
{
    let b = os_random_bytes(16);
    crate::hex::hex_encode(b.as_slice())
}

/// `v` in a random order: the same ids, each as often.
pub fn shuffle_ids(v: Vec<EinmoId>) -> (r: Vec<EinmoId>)
    ensures
        id_views(r@).to_multiset() == id_views(v@).to_multiset(),
{
    broadcast use vstd::seq_lib::group_to_multiset_ensures;
    broadcast use vstd::multiset::group_multiset_axioms;
    let ghost orig = id_views(v@).to_multiset();
    let mut rest = v;
    let mut out: Vec<EinmoId> = Vec::new();
    assert(id_views(out@) =~= Seq::<Seq<char>>::empty());
    assert(id_views(out@).to_multiset() =~= Multiset::<Seq<char>>::empty());
    while rest.len() > 0
        invariant
            id_views(out@).to_multiset().add(id_views(rest@).to_multiset()) == orig,
        decreases rest@.len(),
    {
        let n = rest.len();
        let j = (os_random_u32() as usize) % n;
        let ghost rv = id_views(rest@);
        let ghost ov = id_views(out@);
        let x = rest.remove(j);
        proof {
            assert(id_views(rest@) =~= rv.remove(j as int));
            assert(rv[j as int] == x@);
        }
        out.push(x);
        proof {
            assert(id_views(out@) =~= ov.push(x@));
            assert(rv.contains(x@)) by {
                assert(rv[j as int] == x@);
            }
            vstd::seq_lib::to_multiset_contains(rv, x@);
            vstd::seq_lib::to_multiset_build(ov, x@);
            vstd::seq_lib::to_multiset_remove(rv, j as int);
            assert(rv.to_multiset().count(x@) > 0);
            assert(id_views(out@).to_multiset() =~= ov.to_multiset().insert(x@));
            assert(id_views(rest@).to_multiset() =~= rv.to_multiset().remove(x@));
            assert(id_views(out@).to_multiset().add(id_views(rest@).to_multiset())
                =~= ov.to_multiset().add(rv.to_multiset()));
        }
    }
    assert(id_views(rest@) =~= Seq::<Seq<char>>::empty());
    assert(id_views(rest@).to_multiset() =~= Multiset::<Seq<char>>::empty());
    assert(id_views(out@).to_multiset() =~= orig);
    out
}

/// Output and checked are both present, verify, and agree under `policy`.
pub open spec fn agrees(m: Map<ArtifactKey, Seq<u8>>, id: Seq<char>, policy: MatchSections) -> bool {
    &&& !absent_at(m, id, Stage::Output)
    &&& !absent_at(m, id, Stage::Checked)
    &&& !tampered_at(m, id, Stage::Output)
    &&& !tampered_at(m, id, Stage::Checked)
    &&& diverged(file_at(m, id, Stage::Output).sections@, file_at(m, id, Stage::Checked).sections@,
        required_sections(policy)).len() == 0
}

/// What one worklist row says of case `id`.
pub open spec fn item_ok<S: EinmoStorage>(it: ReviewItem, rv: EinmoReview<S>) -> bool {
    let m = rv.artifacts();
    let x = it.id@;
    &&& in_suite(m, x)
    &&& passes(match rv.opts_spec().filter { Some(f) => Some(f@), None => None }, x)
    &&& it.differing == !agrees(m, x, rv.policy_spec())
    &&& (rv.opts_spec().mode == ReviewMode::NewOrBroken ==> it.differing)
    &&& it.decision == rv.decision_spec(x)
    &&& it.stages@.len() == 3
    &&& forall|k: int| 0 <= k < 3 ==> (#[trigger] it.stages@[k]).0 == crate::stage::all_stages()[k]
        && (it.stages@[k].1 matches Some(t) ==> stage_status_spec(m, x, it.stages@[k].0) == Some(t@))
        && (it.stages@[k].1 is None ==> stage_status_spec(m, x, it.stages@[k].0) is None)
}

/// The ids of a worklist.
pub open spec fn item_ids(items: Seq<ReviewItem>) -> Seq<Seq<char>> {
    Seq::new(items.len(), |i: int| items[i].id@)
}

impl<S: EinmoStorage> EinmoReview<S> {
    /// The worklist: every case in the suite passing the session's filter
    /// (only those whose output and checked do not agree, in `NewOrBroken`
    /// mode), with its per-stage status, whether it differs, and its
    /// pending decision; in id order, or shuffled in `Random` mode.
    ///
    /// # Errors
    /// Any storage failure.
    #[verifier::rlimit(80)]
    pub fn items(&self) -> (r: Result<Vec<ReviewItem>, EinmoError>)
        requires
            self.wf(),
        ensures
            r matches Ok(items) ==> (forall|i: int| 0 <= i < items@.len() ==> item_ok(#[trigger] items@[i], *self))
                && (self.opts_spec().mode != ReviewMode::Random ==> ids_strictly_sorted(item_ids(items@)))
                && (forall|x: Seq<char>| in_suite(self.artifacts(), x)
                    && passes(match self.opts_spec().filter { Some(f) => Some(f@), None => None }, x)
                    && (self.opts_spec().mode != ReviewMode::NewOrBroken || !agrees(self.artifacts(), x, self.policy_spec()))
                    ==> #[trigger] item_ids(items@).contains(x)),
            r matches Ok(items) ==> item_ids(items@).no_duplicates(),
            r matches Err(e) ==> e is Io || e is InvalidId,
            self.storage_infallible() ==> r is Ok,
    {
        let filter: Option<&str> = match &self.opts.filter {
            Some(f) => Some(f.as_str()),
            None => None,
        };
        assert(opt_chars(filter) == match self.opts_spec().filter { Some(f) => Some(f@), None => None::<Seq<char>> });
        let scanned = match scan_ids(&self.storage, filter) {
            Err(e) => return Err(e),
            Ok(v) => v,
        };
        let ghost sv = id_views(scanned@);
        let random = match self.opts.mode {
            ReviewMode::Random => true,
            _ => false,
        };
        let order = if random { shuffle_ids(scanned) } else { scanned };
        let ghost ov = id_views(order@);
        assert(random ==> ov.to_multiset() == sv.to_multiset());
        assert(!random ==> ov == sv);
        let new_or_broken = match self.opts.mode {
            ReviewMode::NewOrBroken => true,
            _ => false,
        };
        let mut items: Vec<ReviewItem> = Vec::new();
        let ghost mut pos: Seq<int> = Seq::empty();
        let mut i: usize = 0;
        while i < order.len()
            invariant
                i <= order@.len(),
                self.wf(),
                ov == id_views(order@),
                forall|x: Seq<char>| #[trigger] sv.contains(x) <==> in_suite(self.artifacts(), x)
                    && passes(opt_chars(filter), x),
                random ==> ov.to_multiset() == sv.to_multiset(),
                !random ==> ov == sv,
                ids_strictly_sorted(sv),
                opt_chars(filter) == match self.opts_spec().filter { Some(f) => Some(f@), None => None::<Seq<char>> },
                new_or_broken == (self.opts_spec().mode == ReviewMode::NewOrBroken),
                random == (self.opts_spec().mode == ReviewMode::Random),
                forall|a: int| 0 <= a < items@.len() ==> item_ok(#[trigger] items@[a], *self),
                pos.len() == items@.len(),
                forall|a: int| 0 <= a < items@.len() ==> 0 <= #[trigger] pos[a] < i && items@[a].id@ == ov[pos[a]],
                forall|a: int, b: int| 0 <= a < b < items@.len() ==> #[trigger] pos[a] < #[trigger] pos[b],
                forall|b: int| 0 <= b < i && (!new_or_broken || !agrees(self.artifacts(), #[trigger] ov[b], self.policy_spec()))
                    ==> item_ids(items@).contains(ov[b]),
            decreases order@.len() - i,
        {
            let id = &order[i];
            let case = EinmoCase::new(id.duplicate());
            let stages_req = vec![Stage::Output, Stage::Checked];
            let ag = match case.agreement(&self.storage, stages_req.as_slice(), self.policy) {
                Err(e) => return Err(e),
                Ok(a) => a,
            };
            let differing = match ag.pair(Stage::Output, Stage::Checked) {
                Some(StagePairAgreement::Agree) => false,
                _ => true,
            };
            proof {
                let m = self.artifacts();
                let st = ag.stages_spec();
                assert(st[0] == Stage::Output && st[1] == Stage::Checked);
                assert(pair_spec(ag.entry(0, 1).unwrap(), m, id@, Stage::Output, Stage::Checked, self.policy));
                assert(differing == !agrees(m, id@, self.policy)) by {
                    assert(ag.entry(0, 1) is Some);
                }
            }
            if new_or_broken && !differing {
                i = i + 1;
                continue;
            }
            let stages = match case.stages(&self.storage) {
                Err(e) => return Err(e),
                Ok(v) => v,
            };
            let decision = self.decision(id);
            let item = ReviewItem { id: id.duplicate(), stages, differing, decision };
            proof {
                let x = id@;
                assert(ov[i as int] == x);
                if random {
                    assert(ov.to_multiset().count(x) > 0) by {
                        broadcast use vstd::seq_lib::group_to_multiset_ensures;
                        assert(ov.contains(x));
                    }
                    assert(sv.contains(x)) by {
                        broadcast use vstd::seq_lib::group_to_multiset_ensures;
                    }
                } else {
                    assert(sv.contains(x));
                }
                assert(opt_chars(filter) == match self.opts_spec().filter { Some(f) => Some(f@), None => None::<Seq<char>> });
                assert(item_ok(item, *self));
            }
            let ghost prev = items@;
            let ghost prev_pos = pos;
            items.push(item);
            proof {
                pos = pos.push(i as int);
                assert forall|a: int| 0 <= a < items@.len() implies 0 <= #[trigger] pos[a] < i + 1 && items@[a].id@ == ov[pos[a]] by {
                    if a < prev.len() {
                        assert(items@[a] == prev[a]);
                        assert(pos[a] == prev_pos[a]);
                    }
                }
                assert forall|a: int, b: int| 0 <= a < b < items@.len() implies #[trigger] pos[a] < #[trigger] pos[b] by {
                    if b < prev.len() {
                        assert(pos[a] == prev_pos[a] && pos[b] == prev_pos[b]);
                    } else {
                        assert(pos[a] == prev_pos[a]);
                    }
                }
                assert forall|b: int| 0 <= b < i + 1 && (!new_or_broken || !agrees(self.artifacts(), #[trigger] ov[b], self.policy_spec()))
                    implies item_ids(items@).contains(ov[b]) by {
                    if b < i {
                        let w = choose|w: int| 0 <= w < prev.len() && item_ids(prev)[w] == ov[b];
                        assert(items@[w] == prev[w]);
                        assert(item_ids(items@)[w] == ov[b]);
                    } else {
                        assert(item_ids(items@)[prev.len() as int] == ov[b]);
                    }
                }
            }
            i = i + 1;
        }
        proof {
            let m = self.artifacts();
            if !random {
                assert forall|a: int, b: int| 0 <= a < b < item_ids(items@).len() implies crate::text::seq_lt(
                    #[trigger] item_ids(items@)[a], #[trigger] item_ids(items@)[b]) by {
                    assert(pos[a] < pos[b]);
                    assert(items@[a].id@ == ov[pos[a]] && items@[b].id@ == ov[pos[b]]);
                }
            }
            assert forall|x: Seq<char>| in_suite(m, x)
                && passes(match self.opts_spec().filter { Some(f) => Some(f@), None => None }, x)
                && (self.opts_spec().mode != ReviewMode::NewOrBroken || !agrees(m, x, self.policy_spec()))
                implies #[trigger] item_ids(items@).contains(x) by {
                assert(opt_chars(filter) == match self.opts_spec().filter { Some(f) => Some(f@), None => None::<Seq<char>> });
                assert(sv.contains(x));
                if random {
                    assert(ov.contains(x)) by {
                        broadcast use vstd::seq_lib::group_to_multiset_ensures;
                        assert(sv.to_multiset().count(x) > 0);
                    }
                }
                let b = choose|b: int| 0 <= b < ov.len() && ov[b] == x;
            }
            assert(sv.no_duplicates()) by {
                assert forall|a: int, b: int| 0 <= a < sv.len() && 0 <= b < sv.len() && a != b implies sv[a] != sv[b] by {
                    crate::text::lemma_seq_lt_irreflexive(sv[a]);
                    if a < b {
                        assert(crate::text::seq_lt(sv[a], sv[b]));
                    } else {
                        assert(crate::text::seq_lt(sv[b], sv[a]));
                    }
                }
            }
            assert(ov.no_duplicates()) by {
                if random {
                    sv.lemma_multiset_has_no_duplicates();
                    ov.lemma_multiset_has_no_duplicates_conv();
                }
            }
            assert(item_ids(items@).no_duplicates()) by {
                assert forall|a: int, b: int| 0 <= a < item_ids(items@).len() && 0 <= b < item_ids(items@).len() && a != b
                    implies item_ids(items@)[a] != item_ids(items@)[b] by {
                    assert(pos[a] != pos[b]) by {
                        if a < b { assert(pos[a] < pos[b]); } else { assert(pos[b] < pos[a]); }
                    }
                    assert(items@[a].id@ == ov[pos[a]] && items@[b].id@ == ov[pos[b]]);
                }
            }
        }
        Ok(items)
    }
}

/// The stage a retraction or flag decision is based on.
pub open spec fn fixed_basis_stage(d: Decision) -> Option<Stage> {
    match d {
        Decision::Retract { from } => Some(from),
        Decision::Flag { stage, .. } => Some(stage),
        _ => None,
    }
}

/// The stage a decision on case `id` would act on as `m` stands: a
/// promotion's present source, the retraction's or flag's stage; none for
/// `Skip` or a promotion with no source.
pub open spec fn decision_stage_spec(m: Map<ArtifactKey, Seq<u8>>, id: Seq<char>, d: Decision) -> Option<Stage> {
    match d {
        Decision::Promote { to } => promote_source_spec(m, id, to),
        Decision::Retract { from } => Some(from),
        Decision::Flag { stage, .. } => Some(stage),
        Decision::Skip => None,
    }
}

/// `refresh` reports case `k`: its pending decision recorded a basis, and
/// the stage the decision would act on no longer holds exactly that
/// content (or there is no such stage any more).
pub open spec fn refresh_reports<S: EinmoStorage>(rv: EinmoReview<S>, k: Seq<char>) -> bool {
    &&& rv.basis_spec(k) matches Some(Some(b))
    &&& rv.decision_spec(k) matches Some(d)
    &&& match decision_stage_spec(rv.artifacts(), k, d) {
        Some(st) => !(rv.artifacts().dom().contains((k, ArtifactLocation::Stage(st)))
            && rv.artifacts()[(k, ArtifactLocation::Stage(st))] == b),
        None => true,
    }
}

/// Book entry `e` is reported by `refresh` over artifacts `m`.
spec fn entry_reported(m: Map<ArtifactKey, Seq<u8>>, e: DecisionEntry) -> bool {
    &&& e.basis matches Some(b)
    &&& match decision_stage_spec(m, e.id@, e.decision) {
        Some(st) => !(m.dom().contains((e.id@, ArtifactLocation::Stage(st))) && m[(e.id@, ArtifactLocation::Stage(st))] == b@),
        None => true,
    }
}

/// Among the first `n` book entries, one for case `k` recorded a basis.
spec fn based_entry_before(es: Seq<DecisionEntry>, n: int, k: Seq<char>) -> bool {
    exists|j: int| 0 <= j < n && es[j].id@ == k && es[j].basis is Some
}

/// `k`'s pending retraction or flag was based on content its stage no
/// longer holds.
pub open spec fn must_report<S: EinmoStorage>(rv: EinmoReview<S>, k: Seq<char>) -> bool {
    &&& rv.basis_spec(k) matches Some(Some(b))
    &&& rv.decision_spec(k) matches Some(d)
    &&& fixed_basis_stage(d) matches Some(st)
    &&& !(rv.artifacts().dom().contains((k, ArtifactLocation::Stage(st)))
        && rv.artifacts()[(k, ArtifactLocation::Stage(st))] == b)
}

impl<S: EinmoStorage> EinmoReview<S> {
    /// The cases whose pending decision's basis content has changed since
    /// the decision was made (their decisions are kept): the stage the
    /// decision would act on holds other content, or nothing any more. A
    /// decision made with no basis is never reported.
    pub fn refresh(&self) -> (r: Vec<EinmoId>)
        requires
            self.wf(),
        ensures
            forall|a: int| 0 <= a < r@.len() ==> self.basis_spec((#[trigger] r@[a])@) matches Some(Some(_)),
            forall|k: Seq<char>| #[trigger] must_report(*self, k) ==> id_views(r@).contains(k),
            self.storage_infallible() ==> forall|k: Seq<char>| #[trigger] id_views(r@).contains(k) <==> refresh_reports(*self, k),
    {
        let mut out: Vec<EinmoId> = Vec::new();
        let mut i: usize = 0;
        while i < self.book.len()
            invariant
                i <= self.book@.len(),
                self.wf(),
                forall|a: int| 0 <= a < out@.len() ==> based_entry_before(self.book@, i as int, (#[trigger] out@[a])@),
                forall|j: int| 0 <= j < i ==> ((#[trigger] self.book@[j]).basis matches Some(b)
                    && fixed_basis_stage(self.book@[j].decision) matches Some(st)
                    && !(self.artifacts().dom().contains((self.book@[j].id@, ArtifactLocation::Stage(st)))
                        && self.artifacts()[(self.book@[j].id@, ArtifactLocation::Stage(st))] == b@)
                    ==> id_views(out@).contains(self.book@[j].id@)),
                self.storage_infallible() ==> forall|x: Seq<char>| #[trigger] id_views(out@).contains(x) <==> exists|j: int|
                    0 <= j < i && self.book@[j].id@ == x && entry_reported(self.artifacts(), #[trigger] self.book@[j]),
            decreases self.book@.len() - i,
        {
            let e = &self.book[i];
            let ghost prev = out@;
            match &e.basis {
                Some(b) => {
                    match decision_basis_stage(&self.storage, &e.id, &e.decision) {
                        Some(st) => {
                            let drifted = match stage_bytes(&self.storage, &e.id, st) {
                                Some(cur) => !bytes_eq(cur.as_slice(), b.as_slice()),
                                None => true,
                            };
                            if drifted {
                                out.push(e.id.duplicate());
                                proof {
                                    assert(id_views(out@)[prev.len() as int] == e.id@);
                                }
                            }
                        },
                        None => {
                            out.push(e.id.duplicate());
                            proof {
                                assert(id_views(out@)[prev.len() as int] == e.id@);
                            }
                        },
                    }
                },
                None => {},
            }
            proof {
                if self.storage_infallible() {
                    assert(out@.len() > prev.len() <==> entry_reported(self.artifacts(), self.book@[i as int]));
                    assert(out@.len() > prev.len() ==> out@ == prev.push(out@.last()) && out@.last()@ == self.book@[i as int].id@);
                    assert(out@.len() == prev.len() ==> out@ == prev);
                    assert forall|x: Seq<char>| #[trigger] id_views(out@).contains(x) <==> exists|j: int|
                        0 <= j < i + 1 && self.book@[j].id@ == x && entry_reported(self.artifacts(), #[trigger] self.book@[j]) by {
                        if out@.len() > prev.len() {
                            lemma_id_views_push(prev, out@.last());
                        }
                        if id_views(out@).contains(x) {
                            if id_views(prev).contains(x) {
                                let j = choose|j: int| 0 <= j < i && self.book@[j].id@ == x && entry_reported(self.artifacts(), #[trigger] self.book@[j]);
                            } else {
                                let w = choose|w: int| 0 <= w < id_views(out@).len() && id_views(out@)[w] == x;
                                if w < prev.len() {
                                    assert(id_views(prev)[w] == x);
                                }
                                assert(self.book@[i as int].id@ == x);
                            }
                        }
                        if exists|j: int| 0 <= j < i + 1 && self.book@[j].id@ == x && entry_reported(self.artifacts(), #[trigger] self.book@[j]) {
                            let j = choose|j: int| 0 <= j < i + 1 && self.book@[j].id@ == x && entry_reported(self.artifacts(), #[trigger] self.book@[j]);
                            if j < i {
                                assert(id_views(prev).contains(x));
                            } else {
                                assert(id_views(out@)[prev.len() as int] == x);
                            }
                        }
                    }
                }
                assert forall|a: int| 0 <= a < out@.len() implies based_entry_before(self.book@, i + 1, (#[trigger] out@[a])@) by {
                    if a < prev.len() {
                        assert(out@[a] == prev[a]);
                        assert(based_entry_before(self.book@, i as int, prev[a]@));
                        let j = choose|j: int| 0 <= j < i && self.book@[j].id@ == prev[a]@ && self.book@[j].basis is Some;
                        assert(0 <= j < i + 1 && self.book@[j].id@ == out@[a]@ && self.book@[j].basis is Some);
                    } else {
                        assert(self.book@[i as int].id@ == out@[a]@ && self.book@[i as int].basis is Some);
                    }
                }
                assert forall|j: int| 0 <= j < i + 1 && ((#[trigger] self.book@[j]).basis matches Some(b)
                    && fixed_basis_stage(self.book@[j].decision) matches Some(st)
                    && !(self.artifacts().dom().contains((self.book@[j].id@, ArtifactLocation::Stage(st)))
                        && self.artifacts()[(self.book@[j].id@, ArtifactLocation::Stage(st))] == b@))
                    implies id_views(out@).contains(self.book@[j].id@) by {
                    if j < i {
                        let w = choose|w: int| 0 <= w < prev.len() && id_views(prev)[w] == self.book@[j].id@;
                        assert(out@[w] == prev[w]);
                        assert(id_views(out@)[w] == self.book@[j].id@);
                    }
                }
            }
            i = i + 1;
        }
        proof {
            assert forall|a: int| 0 <= a < out@.len() implies self.basis_spec((#[trigger] out@[a])@) matches Some(Some(_)) by {
                assert(based_entry_before(self.book@, self.book@.len() as int, out@[a]@));
                let j = choose|j: int| 0 <= j < self.book@.len() && self.book@[j].id@ == out@[a]@ && self.book@[j].basis is Some;
                lemma_book_slot(self.book@, j);
            }
            assert forall|k: Seq<char>| #[trigger] must_report(*self, k) implies id_views(out@).contains(k) by {
                let j = book_slot(self.book@, k);
                assert(self.book@[j].id@ == k);
            }
            if self.storage_infallible() {
                assert forall|k: Seq<char>| #[trigger] id_views(out@).contains(k) <==> refresh_reports(*self, k) by {
                    if id_views(out@).contains(k) {
                        let j = choose|j: int| 0 <= j < self.book@.len() && self.book@[j].id@ == k
                            && entry_reported(self.artifacts(), #[trigger] self.book@[j]);
                        lemma_book_slot(self.book@, j);
                    }
                    if refresh_reports(*self, k) {
                        let j = book_slot(self.book@, k);
                        assert(self.book@[j].id@ == k);
                        assert(entry_reported(self.artifacts(), self.book@[j]));
                    }
                }
            }
        }
        out
    }

    /// Flag `id` at `stage` now (see [`EinmoCase::flag`]), and clear its
    /// pending decision.
    ///
    /// # Errors
    /// [`EinmoError::Io`] (not found) if `stage` holds nothing for `id`;
    /// [`EinmoError::Verification`] or [`EinmoError::Parse`] if it fails
    /// verify-on-inspect; any storage failure.
    pub fn flag_now(&mut self, id: &EinmoId, stage: Stage, reason: &str, timestamp: &str) -> (r: Result<(), EinmoError>)
        requires
            old(self).wf(),
        ensures
            final(self).wf(),
            final(self).claims_spec() == old(self).claims_spec(),
            final(self).journal_spec() == old(self).journal_spec(),
            final(self).level_spec() == old(self).level_spec(),
            final(self).opts_spec() == old(self).opts_spec(),
            final(self).policy_spec() == old(self).policy_spec(),
            r is Ok ==> flag_effect(old(self).artifacts(), final(self).artifacts(), id@, stage, reason@, timestamp@)
                && final(self).decision_spec(id@) is None
                && forall|k: Seq<char>| k != id@ ==> final(self).decision_spec(k) == old(self).decision_spec(k)
                    && final(self).basis_spec(k) == old(self).basis_spec(k),
            r is Err ==> forall|k: Seq<char>| final(self).decision_spec(k) == old(self).decision_spec(k),
            !(old(self).artifacts().dom().contains((id@, ArtifactLocation::Stage(stage)))
                && verifies(old(self).artifacts()[(id@, ArtifactLocation::Stage(stage))])) ==> r is Err,
            r matches Err(e) ==> e is Io || e is Verification || e is Parse,
            !old(self).artifacts().dom().contains((id@, ArtifactLocation::Stage(stage))) ==> (r matches Err(e) && e is Io
                && final(self).artifacts() == old(self).artifacts()),
            old(self).storage_infallible() && !old(self).artifacts().dom().contains((id@, ArtifactLocation::Stage(stage)))
                ==> (r matches Err(EinmoError::Io { not_found, .. }) && not_found),
            old(self).storage_infallible() && r is Err ==> final(self).artifacts() == old(self).artifacts(),
            old(self).storage_infallible() && old(self).artifacts().dom().contains((id@, ArtifactLocation::Stage(stage)))
                && verifies(old(self).artifacts()[(id@, ArtifactLocation::Stage(stage))]) ==> r is Ok,
            final(self).storage_infallible() == old(self).storage_infallible(),
    {
        let case = EinmoCase::new(id.duplicate());
        match case.read(&self.storage, ArtifactLocation::Stage(stage)) {
            Err(e) => return Err(e),
            Ok(None) => {
                proof {
                    reveal_strlit("nothing to flag at that stage");
                }
                return Err(EinmoError::Io {
                    path: stage_path(id, stage),
                    message: own("nothing to flag at that stage"),
                    not_found: true,
                });
            },
            Ok(Some(_)) => {},
        }
        match case.flag(&mut self.storage, stage, reason, timestamp) {
            Err(e) => return Err(e),
            Ok(()) => {},
        }
        let _cleared = book_undecide(&mut self.book, id);
        Ok(())
    }

    /// Retract `id` from `stage` now, cascading `checked` to `verified`
    /// (see [`EinmoCase::retract`]), and clear its pending decision.
    ///
    /// # Errors
    /// [`EinmoError::Config`] if `stage` is `output`; [`EinmoError::Io`]
    /// (not found) if `stage` holds nothing for `id` (then nothing is
    /// removed, even from a later stage); any storage failure.
    pub fn retract_now(&mut self, id: &EinmoId, stage: Stage) -> (r: Result<(), EinmoError>)
        requires
            old(self).wf(),
        ensures
            final(self).wf(),
            final(self).claims_spec() == old(self).claims_spec(),
            final(self).journal_spec() == old(self).journal_spec(),
            final(self).level_spec() == old(self).level_spec(),
            stage == Stage::Output ==> (r matches Err(e) && e is Config && final(self).artifacts() == old(self).artifacts()),
            r is Ok ==> retracted_spec(old(self).artifacts(), id@, stage).len() > 0
                && final(self).artifacts() == remove_keys(old(self).artifacts(), id@, retracted_spec(old(self).artifacts(), id@, stage))
                && final(self).decision_spec(id@) is None
                && forall|k: Seq<char>| k != id@ ==> final(self).decision_spec(k) == old(self).decision_spec(k)
                    && final(self).basis_spec(k) == old(self).basis_spec(k),
            r is Err ==> forall|k: Seq<char>| final(self).decision_spec(k) == old(self).decision_spec(k),
            stage != Stage::Output && retracted_spec(old(self).artifacts(), id@, stage).len() == 0 ==> r is Err,
            r matches Err(e) ==> e is Io || (e is Config && stage == Stage::Output),
            r is Ok ==> old(self).artifacts().dom().contains((id@, ArtifactLocation::Stage(stage))),
            stage != Stage::Output && !old(self).artifacts().dom().contains((id@, ArtifactLocation::Stage(stage)))
                ==> (r matches Err(e) && e is Io && final(self).artifacts() == old(self).artifacts()),
            old(self).storage_infallible() && stage != Stage::Output
                && !old(self).artifacts().dom().contains((id@, ArtifactLocation::Stage(stage)))
                ==> (r matches Err(EinmoError::Io { not_found, .. }) && not_found),
            old(self).storage_infallible() && stage != Stage::Output
                && old(self).artifacts().dom().contains((id@, ArtifactLocation::Stage(stage))) ==> r is Ok,
            final(self).storage_infallible() == old(self).storage_infallible(),
    {
        let case = EinmoCase::new(id.duplicate());
        if stage != Stage::Output {
            match self.storage.read(id, ArtifactLocation::Stage(stage)) {
                Err(e) => return Err(e),
                Ok(None) => {
                    proof {
                        reveal_strlit("nothing to retract at that stage");
                    }
                    return Err(EinmoError::Io {
                        path: stage_path(id, stage),
                        message: own("nothing to retract at that stage"),
                        not_found: true,
                    });
                },
                Ok(Some(_)) => {},
            }
        }
        let done = match case.retract(&mut self.storage, stage) {
            Err(e) => return Err(e),
            Ok(v) => v,
        };
        if done.len() == 0 {
            proof {
                reveal_strlit("nothing to retract at that stage");
            }
            return Err(EinmoError::Io {
                path: stage_path(id, stage),
                message: own("nothing to retract at that stage"),
                not_found: true,
            });
        }
        let _cleared = book_undecide(&mut self.book, id);
        Ok(())
    }
}

/// The stages a planned action's decision may have been based on: a
/// promotion's candidate sources, the retraction's or flag's stage.
pub open spec fn basis_stages(a: PlannedAction) -> Seq<Stage> {
    match a {
        PlannedAction::Promote { to, .. } => promote_sources(to),
        PlannedAction::Retract { from, .. } => seq![from],
        PlannedAction::Flag { stage, .. } => seq![stage],
    }
}

/// One of `a`'s basis stages still holds exactly `b`.
pub open spec fn basis_holds(m: Map<ArtifactKey, Seq<u8>>, a: PlannedAction, b: Seq<u8>) -> bool {
    exists|i: int| 0 <= i < basis_stages(a).len()
        && m.dom().contains((action_id(a), ArtifactLocation::Stage(#[trigger] basis_stages(a)[i])))
        && m[(action_id(a), ArtifactLocation::Stage(basis_stages(a)[i]))] == b
}

/// `a`'s decision recorded a content basis that none of `a`'s basis
/// stages holds any more: applying it would act on content nobody
/// reviewed.
pub open spec fn drifted<S: EinmoStorage>(rv: EinmoReview<S>, a: PlannedAction) -> bool {
    rv.basis_spec(action_id(a)) matches Some(Some(b)) && !basis_holds(rv.artifacts(), a, b)
}

/// The stage whose current content `a`'s recorded basis is checked
/// against: a promotion's present source, the retraction's or flag's stage.
pub open spec fn current_basis_stage(m: Map<ArtifactKey, Seq<u8>>, a: PlannedAction) -> Option<Stage> {
    match a {
        PlannedAction::Promote { to, .. } => promote_source_spec(m, action_id(a), to),
        PlannedAction::Retract { from, .. } => Some(from),
        PlannedAction::Flag { stage, .. } => Some(stage),
    }
}

/// `a` may run: its decision recorded no content basis, or the stage it
/// would act on now holds exactly that content.
pub open spec fn basis_unchanged_spec<S: EinmoStorage>(rv: EinmoReview<S>, a: PlannedAction) -> bool {
    match rv.basis_spec(action_id(a)) {
        Some(Some(b)) => match current_basis_stage(rv.artifacts(), a) {
            Some(st) => rv.artifacts().dom().contains((action_id(a), ArtifactLocation::Stage(st)))
                && rv.artifacts()[(action_id(a), ArtifactLocation::Stage(st))] == b,
            None => false,
        },
        _ => true,
    }
}

/// The report detail of a promotion from `from` to `to` with outcome `o`.
pub open spec fn promote_detail(from: Stage, to: Stage, o: PromoteOutcome) -> Seq<char> {
    match o {
        PromoteOutcome::Promoted { .. } => "promoted "@ + stage_dir_name(from) + " to "@ + stage_dir_name(to),
        PromoteOutcome::CoSigned { .. } => stage_dir_name(from) + " to "@ + stage_dir_name(to)
            + ": co-signed by a new signer"@,
        PromoteOutcome::AlreadySigned { .. } => stage_dir_name(from) + " to "@ + stage_dir_name(to)
            + ": already signed, unchanged"@,
    }
}

/// What attempting planned action `a` did to the artifacts (`m` before,
/// `m1` after), promoting from `from` under public key `pk`: when it
/// completed as `e`, exactly the case operation's effect; when it did not
/// complete (`None`), nothing is claimed.
pub open spec fn step_effect(
    m: Map<ArtifactKey, Seq<u8>>,
    m1: Map<ArtifactKey, Seq<u8>>,
    a: PlannedAction,
    from: Stage,
    pk: Seq<char>,
    timestamp: Seq<char>,
    e: Option<Executed>,
) -> bool {
    match e {
        None => true,
        Some(x) => x.id@ == action_id(a) && match a {
            PlannedAction::Promote { to, .. } => exists|o: PromoteOutcome|
                #[trigger] promote_effect(m, m1, action_id(a), from, to, pk, timestamp, o)
                && x.non_human == o.non_human_spec() && x.detail@ == promote_detail(from, to, o),
            PlannedAction::Retract { from: f, .. } => retracted_spec(m, action_id(a), f).len() > 0
                && m1 == remove_keys(m, action_id(a), retracted_spec(m, action_id(a), f))
                && !x.non_human && x.detail@ == "retracted from "@ + stage_dir_name(f),
            PlannedAction::Flag { stage, reason, .. } => flag_effect(m, m1, action_id(a), stage, reason@, timestamp)
                && !x.non_human && x.detail@ == "flagged from "@ + stage_dir_name(stage),
        },
    }
}

/// Whether attempting planned action `a` (a promotion reading from
/// `from`) completes on artifacts `m` when the storage never fails: a
/// promotion needs a legal pair and a verified source, a retraction
/// something to remove, a flag a verified envelope at its stage.
pub open spec fn step_completes(m: Map<ArtifactKey, Seq<u8>>, a: PlannedAction, from: Stage) -> bool {
    match a {
        PlannedAction::Promote { to, .. } => legal_transition(from, to)
            && m.dom().contains(key_at(action_id(a), ArtifactLocation::Stage(from)))
            && verifies(m[key_at(action_id(a), ArtifactLocation::Stage(from))]),
        PlannedAction::Retract { from: f, .. } => f != Stage::Output && retracted_spec(m, action_id(a), f).len() > 0,
        PlannedAction::Flag { stage, .. } => m.dom().contains(key_at(action_id(a), ArtifactLocation::Stage(stage)))
            && verifies(m[key_at(action_id(a), ArtifactLocation::Stage(stage))]),
    }
}

/// `"<a><b><c><d>"`.
fn concat4(a: &str, b: &str, c: &str, d: &str) -> (r: String)
    ensures
        r@ == a@ + b@ + c@ + d@,
{
    let ab = concat(a, b);
    let abc = concat(ab.as_str(), c);
    concat(abc.as_str(), d)
}

/// Attempt one planned action against `storage` (`from` and `keypair`
/// serve promotions only), returning what it did if it completed.
fn run_step<S: EinmoStorage>(
    storage: &mut S,
    a: &PlannedAction,
    from: Stage,
    keypair: Option<&StageKeypair>,
    timestamp: &str,
) -> (r: Option<Executed>)
    requires
        a is Promote ==> keypair is Some,
    ensures
        step_effect(old(storage).artifacts(), final(storage).artifacts(), *a, from,
            match keypair { Some(k) => k.pubkey_hex_spec(), None => Seq::empty() }, timestamp@, r),
        old(storage).infallible() ==> (r is Some <==> step_completes(old(storage).artifacts(), *a, from)),
        old(storage).infallible() && r is None ==> final(storage).artifacts() == old(storage).artifacts(),
        final(storage).infallible() == old(storage).infallible(),
{
    proof {
        reveal_strlit("promoted ");
        reveal_strlit(" to ");
        reveal_strlit(": co-signed by a new signer");
        reveal_strlit(": already signed, unchanged");
        reveal_strlit("retracted from ");
        reveal_strlit("flagged from ");
    }
    let id = planned_id(a);
    let case = EinmoCase::new(id.duplicate());
    match a {
        PlannedAction::Promote { to, .. } => {
            let kp = keypair.unwrap();
            match case.promote(storage, from, *to, kp, timestamp) {
                Ok(o) => {
                    let f = from.to_string();
                    let t = to.to_string();
                    let detail = match o {
                        PromoteOutcome::Promoted { .. } => concat4("promoted ", f.as_str(), " to ", t.as_str()),
                        PromoteOutcome::CoSigned { .. } => {
                            let x = concat4(f.as_str(), " to ", t.as_str(), "");
                            concat(x.as_str(), ": co-signed by a new signer")
                        },
                        PromoteOutcome::AlreadySigned { .. } => {
                            let x = concat4(f.as_str(), " to ", t.as_str(), "");
                            concat(x.as_str(), ": already signed, unchanged")
                        },
                    };
                    proof {
                        reveal_strlit("");
                        assert(detail@ == promote_detail(from, *to, o));
                    }
                    Some(Executed { id: id.duplicate(), detail, non_human: o.non_human() })
                },
                Err(_) => None,
            }
        },
        PlannedAction::Retract { from: f, .. } => {
            match case.retract(storage, *f) {
                Ok(v) => {
                    if v.len() > 0 {
                        let fs = f.to_string();
                        Some(Executed { id: id.duplicate(), detail: concat("retracted from ", fs.as_str()), non_human: false })
                    } else {
                        None
                    }
                },
                Err(_) => None,
            }
        },
        PlannedAction::Flag { stage, reason, .. } => {
            match case.flag(storage, *stage, reason.as_str(), timestamp) {
                Ok(()) => {
                    let ss = stage.to_string();
                    Some(Executed { id: id.duplicate(), detail: concat("flagged from ", ss.as_str()), non_human: false })
                },
                Err(_) => None,
            }
        },
    }
}

/// The ids of executed actions, in order.
pub open spec fn executed_ids(es: Seq<Executed>) -> Seq<Seq<char>> {
    Seq::new(es.len(), |i: int| es[i].id@)
}

/// The completed attempts of a trace, in order.
pub open spec fn completed(steps: Seq<(PlannedAction, Stage, Seq<char>, Option<Executed>)>) -> Seq<Executed>
    decreases steps.len(),
{
    if steps.len() == 0 {
        Seq::empty()
    } else {
        let p = completed(steps.drop_last());
        match steps.last().3 {
            Some(e) => p.push(e),
            None => p,
        }
    }
}

/// The public key a promotion to `to` is signed with under `keys`.
pub open spec fn signing_pubkey(keys: SignerSet, to: Stage) -> Seq<char> {
    if to == Stage::Verified {
        match keys.to_verified {
            Some(k) => derived_pubkey_hex(k.passphrase_spec()),
            None => Seq::empty(),
        }
    } else {
        derived_pubkey_hex(keys.to_checked.passphrase_spec())
    }
}

/// The plan holds a promotion to `verified`.
pub open spec fn plan_promotes_to_verified(plan: ExecutionPlan) -> bool {
    exists|j: int| 0 <= j < plan.actions@.len() && ((#[trigger] plan.actions@[j]) matches PlannedAction::Promote { to, .. }
        && to == Stage::Verified)
}

/// One attempt of an execute trace is a non-drifted action of the plan,
/// a promotion reading from one of its candidate sources that the
/// storage held when the batch began, signed with the stage's key.
pub open spec fn attempt_ok<S: EinmoStorage>(
    rv: EinmoReview<S>,
    plan: ExecutionPlan,
    keys: SignerSet,
    st: (PlannedAction, Stage, Seq<char>, Option<Executed>),
) -> bool {
    &&& exists|j: int| 0 <= j < plan.actions@.len() && plan.actions@[j] == st.0
    &&& !drifted(rv, st.0)
    &&& st.0 matches PlannedAction::Promote { to, .. } ==> promote_sources(to).contains(st.1)
        && rv.artifacts().dom().contains((action_id(st.0), ArtifactLocation::Stage(st.1)))
        && st.2 == signing_pubkey(keys, to)
        && (rv.storage_infallible() ==> Some(st.1) == promote_source_spec(rv.artifacts(), action_id(st.0), to))
}

impl<S: EinmoStorage> EinmoReview<S> {
    /// Whether `a` may run: its decision recorded no content basis, or one
    /// of its basis stages still holds that content (a failed read counts
    /// as drift).
    fn basis_unchanged(&self, a: &PlannedAction) -> (r: bool)
        requires
            self.wf(),
        ensures
            r ==> !drifted(*self, *a),
            self.storage.infallible() ==> r == basis_unchanged_spec(*self, *a),
    {
        let id = planned_id(a);
        let recorded = match book_find(&self.book, id) {
            Some(i) => {
                proof {
                    lemma_book_slot(self.book@, i as int);
                }
                match &self.book[i].basis {
                    Some(b) => b,
                    None => return true,
                }
            },
            None => return true,
        };
        let st = match a {
            PlannedAction::Promote { to, .. } => match source_stage_for_promote(&self.storage, id, *to) {
                Some(st) => st,
                None => return false,
            },
            PlannedAction::Retract { from, .. } => *from,
            PlannedAction::Flag { stage, .. } => *stage,
        };
        match stage_bytes(&self.storage, id, st) {
            Some(cur) => {
                let same = bytes_eq(cur.as_slice(), recorded.as_slice());
                proof {
                    if same {
                        let bs = basis_stages(*a);
                        if a is Promote {
                            let w = choose|w: int| 0 <= w < bs.len() && bs[w] == st;
                            assert(bs[w] == st);
                        } else {
                            assert(bs[0] == st);
                        }
                    }
                }
                same
            },
            None => false,
        }
    }
}

/// `k` is the case of one of the plan's actions.
pub open spec fn is_action_id(plan: ExecutionPlan, k: Seq<char>) -> bool {
    exists|j: int| 0 <= j < plan.actions@.len() && action_id(#[trigger] plan.actions@[j]) == k
}

/// Plan action `j` was skipped up front, or triaged as a promotion or as
/// a retraction or flag.
spec fn triaged(plan: ExecutionPlan, skipped: Seq<EinmoId>, promos: Seq<(usize, Stage)>, others: Seq<usize>, j: int) -> bool {
    ||| id_views(skipped).contains(action_id(plan.actions@[j]))
    ||| exists|p: int| 0 <= p < promos.len() && (#[trigger] promos[p]).0 == j
    ||| exists|o: int| 0 <= o < others.len() && (#[trigger] others[o]) == j
}

/// A triaged promotion: plan index `w.0`, a non-drifted promotion reading
/// from `w.1`, a candidate source the storage holds.
spec fn promo_ok<S: EinmoStorage>(rv: EinmoReview<S>, plan: ExecutionPlan, w: (usize, Stage)) -> bool {
    &&& w.0 < plan.actions@.len()
    &&& plan.actions@[w.0 as int] matches PlannedAction::Promote { to, .. }
    &&& promote_sources(to).contains(w.1)
    &&& rv.artifacts().dom().contains((action_id(plan.actions@[w.0 as int]), ArtifactLocation::Stage(w.1)))
    &&& !drifted(rv, plan.actions@[w.0 as int])
    &&& rv.storage_infallible() ==> Some(w.1) == promote_source_spec(rv.artifacts(), action_id(plan.actions@[w.0 as int]), to)
}

/// A triaged retraction or flag: plan index `j`, not drifted.
spec fn other_ok<S: EinmoStorage>(rv: EinmoReview<S>, plan: ExecutionPlan, j: usize) -> bool {
    &&& j < plan.actions@.len()
    &&& !(plan.actions@[j as int] is Promote)
    &&& !drifted(rv, plan.actions@[j as int])
}

/// `id_views` grows by one view when a vector grows by one id.
proof fn lemma_id_views_push(v: Seq<EinmoId>, e: EinmoId)
    ensures
        id_views(v.push(e)) == id_views(v).push(e@),
        forall|x: Seq<char>| id_views(v).contains(x) ==> id_views(v.push(e)).contains(x),
        id_views(v.push(e)).contains(e@),
{
    assert(id_views(v.push(e)) =~= id_views(v).push(e@));
    assert(id_views(v.push(e))[v.len() as int] == e@);
    assert forall|x: Seq<char>| id_views(v).contains(x) implies id_views(v.push(e)).contains(x) by {
        let w = choose|w: int| 0 <= w < id_views(v).len() && id_views(v)[w] == x;
        assert(id_views(v.push(e))[w] == x);
    }
}

impl<S: EinmoStorage> EinmoReview<S> {
    /// Sort a plan's actions into those skipped up front (drifted, or a
    /// promotion with no source), promotions with their sources, and
    /// retractions and flags, each in plan order.
    fn triage(&self, plan: &ExecutionPlan) -> (r: (Vec<EinmoId>, Vec<(usize, Stage)>, Vec<usize>))
        requires
            self.wf(),
        ensures
            r.0@.len() + r.1@.len() + r.2@.len() == plan.actions@.len(),
            forall|s: int| 0 <= s < r.0@.len() ==> is_action_id(*plan, (#[trigger] r.0@[s])@),
            forall|p: int| 0 <= p < r.1@.len() ==> promo_ok(*self, *plan, #[trigger] r.1@[p]),
            forall|o: int| 0 <= o < r.2@.len() ==> other_ok(*self, *plan, #[trigger] r.2@[o]),
            forall|j: int| 0 <= j < plan.actions@.len() ==> triaged(*plan, r.0@, r.1@, r.2@, j),
            forall|j: int| 0 <= j < plan.actions@.len() && drifted(*self, #[trigger] plan.actions@[j])
                ==> id_views(r.0@).contains(action_id(plan.actions@[j])),
            self.storage_infallible() ==> forall|j: int| 0 <= j < plan.actions@.len() && runnable(*self, #[trigger] plan.actions@[j])
                ==> (exists|p: int| 0 <= p < r.1@.len() && r.1@[p].0 == j) || (exists|o: int| 0 <= o < r.2@.len() && r.2@[o] == j),
    {
        let mut skipped: Vec<EinmoId> = Vec::new();
        let mut promos: Vec<(usize, Stage)> = Vec::new();
        let mut others: Vec<usize> = Vec::new();
        let mut i: usize = 0;
        while i < plan.actions.len()
            invariant
                i <= plan.actions@.len(),
                self.wf(),
                skipped@.len() + promos@.len() + others@.len() == i,
                forall|s: int| 0 <= s < skipped@.len() ==> is_action_id(*plan, (#[trigger] skipped@[s])@),
                forall|p: int| 0 <= p < promos@.len() ==> promo_ok(*self, *plan, #[trigger] promos@[p]),
                forall|o: int| 0 <= o < others@.len() ==> other_ok(*self, *plan, #[trigger] others@[o]),
                forall|j: int| 0 <= j < i ==> triaged(*plan, skipped@, promos@, others@, j),
                forall|j: int| 0 <= j < i && drifted(*self, #[trigger] plan.actions@[j])
                    ==> id_views(skipped@).contains(action_id(plan.actions@[j])),
                self.storage_infallible() ==> forall|j: int| 0 <= j < i && runnable(*self, #[trigger] plan.actions@[j])
                    ==> (exists|p: int| 0 <= p < promos@.len() && promos@[p].0 == j) || (exists|o: int| 0 <= o < others@.len() && others@[o] == j),
            decreases plan.actions@.len() - i,
        {
            let a = &plan.actions[i];
            let id = planned_id(a);
            let ghost ps = promos@;
            let ghost os = others@;
            let ghost ss = skipped@;
            if !self.basis_unchanged(a) {
                skipped.push(id.duplicate());
                proof {
                    lemma_id_views_push(ss, skipped@.last());
                    assert(skipped@.last()@ == action_id(plan.actions@[i as int]));
                }
            } else {
                match a {
                    PlannedAction::Promote { to, .. } => match source_stage_for_promote(&self.storage, id, *to) {
                        Some(f) => {
                            promos.push((i, f));
                            proof {
                                assert(promos@.last() == (i, f));
                                assert(promo_ok(*self, *plan, promos@.last()));
                            }
                        },
                        None => {
                            skipped.push(id.duplicate());
                            proof {
                                lemma_id_views_push(ss, skipped@.last());
                            }
                        },
                    },
                    _ => {
                        others.push(i);
                        proof {
                            assert(others@.last() == i);
                        }
                    },
                }
            }
            proof {
                assert forall|s: int| 0 <= s < skipped@.len() implies is_action_id(*plan, (#[trigger] skipped@[s])@) by {
                    if s < ss.len() {
                        assert(skipped@[s] == ss[s]);
                    } else {
                        assert(action_id(plan.actions@[i as int]) == skipped@[s]@);
                    }
                }
                assert forall|p: int| 0 <= p < promos@.len() implies promo_ok(*self, *plan, #[trigger] promos@[p]) by {
                    if p < ps.len() {
                        assert(promos@[p] == ps[p]);
                    }
                }
                assert forall|o: int| 0 <= o < others@.len() implies other_ok(*self, *plan, #[trigger] others@[o]) by {
                    if o < os.len() {
                        assert(others@[o] == os[o]);
                    }
                }
                assert forall|j: int| 0 <= j < i + 1 implies triaged(*plan, skipped@, promos@, others@, j) by {
                    if j < i {
                        assert(triaged(*plan, ss, ps, os, j));
                        if id_views(ss).contains(action_id(plan.actions@[j])) {
                            if skipped@.len() > ss.len() {
                                lemma_id_views_push(ss, skipped@.last());
                                assert(skipped@ == ss.push(skipped@.last()));
                            }
                        } else if exists|p: int| 0 <= p < ps.len() && (#[trigger] ps[p]).0 == j {
                            let p = choose|p: int| 0 <= p < ps.len() && (#[trigger] ps[p]).0 == j;
                            assert(promos@[p] == ps[p]);
                        } else {
                            let o = choose|o: int| 0 <= o < os.len() && (#[trigger] os[o]) == j;
                            assert(others@[o] == os[o]);
                        }
                    } else {
                        if skipped@.len() > ss.len() {
                            assert(skipped@ == ss.push(skipped@.last()));
                        } else if promos@.len() > ps.len() {
                            assert(promos@[ps.len() as int].0 == j);
                        } else {
                            assert(others@[os.len() as int] == j);
                        }
                    }
                }
                assert forall|j: int| 0 <= j < i + 1 && drifted(*self, #[trigger] plan.actions@[j])
                    implies id_views(skipped@).contains(action_id(plan.actions@[j])) by {
                    if j < i && skipped@.len() > ss.len() {
                        lemma_id_views_push(ss, skipped@.last());
                        assert(skipped@ == ss.push(skipped@.last()));
                    }
                }
            }
            proof {
                if self.storage_infallible() {
                    assert forall|j: int| 0 <= j < i + 1 && runnable(*self, #[trigger] plan.actions@[j])
                        implies (exists|p: int| 0 <= p < promos@.len() && promos@[p].0 == j)
                        || (exists|o: int| 0 <= o < others@.len() && others@[o] == j) by {
                        if j < i {
                            if exists|p: int| 0 <= p < ps.len() && ps[p].0 == j {
                                let p = choose|p: int| 0 <= p < ps.len() && ps[p].0 == j;
                                assert(promos@[p] == ps[p]);
                            } else {
                                let o = choose|o: int| 0 <= o < os.len() && os[o] == j;
                                assert(others@[o] == os[o]);
                            }
                        } else {
                            assert(plan.actions@[j] == *a);
                            if promos@.len() > ps.len() {
                                assert(promos@[ps.len() as int].0 == j);
                            } else {
                                assert(others@[os.len() as int] == j);
                            }
                        }
                    }
                }
            }
            i = i + 1;
        }
        (skipped, promos, others)
    }
}

/// `k` is the case of one of the plan's first `n` actions.
spec fn id_in_prefix(plan: ExecutionPlan, n: int, k: Seq<char>) -> bool {
    exists|j: int| 0 <= j < n && action_id(#[trigger] plan.actions@[j]) == k
}

/// An execute trace: `ms` are the artifacts before and after each attempt
/// of `steps`, from `m0` to `m1`, each attempt as `attempt_ok` and
/// `step_effect` say, and `done` the completed attempts in order.
pub open spec fn trace_ok<S: EinmoStorage>(
    rv: EinmoReview<S>,
    plan: ExecutionPlan,
    keys: SignerSet,
    timestamp: Seq<char>,
    m1: Map<ArtifactKey, Seq<u8>>,
    ms: Seq<Map<ArtifactKey, Seq<u8>>>,
    steps: Seq<(PlannedAction, Stage, Seq<char>, Option<Executed>)>,
    done: Seq<Executed>,
) -> bool {
    &&& ms.len() == steps.len() + 1
    &&& ms[0] == rv.artifacts()
    &&& ms.last() == m1
    &&& forall|i: int| 0 <= i < steps.len() ==> attempt_ok(rv, plan, keys, #[trigger] steps[i])
        && step_effect(ms[i], ms[i + 1], steps[i].0, steps[i].1, steps[i].2, timestamp, steps[i].3)
    &&& completed(steps) == done
    &&& rv.storage_infallible() ==> attempts_exact(ms, steps)
}

/// In an execute trace over a storage that never fails, every promotion
/// read from the highest stage below its destination that held the case
/// when the batch began: a promotion into `verified` of a case with a
/// reviewed `checked` baseline reads that baseline, never `output`.
pub proof fn lemma_execute_promotes_from_highest_source<S: EinmoStorage>(
    rv: EinmoReview<S>,
    plan: ExecutionPlan,
    keys: SignerSet,
    timestamp: Seq<char>,
    m1: Map<ArtifactKey, Seq<u8>>,
    ms: Seq<Map<ArtifactKey, Seq<u8>>>,
    steps: Seq<(PlannedAction, Stage, Seq<char>, Option<Executed>)>,
    done: Seq<Executed>,
    i: int,
    s: Stage,
)
    requires
        trace_ok(rv, plan, keys, timestamp, m1, ms, steps, done),
        rv.storage_infallible(),
        0 <= i < steps.len(),
    ensures
        steps[i].0 matches PlannedAction::Promote { to, .. } ==> {
            &&& stage_rank(steps[i].1) < stage_rank(to)
            &&& rv.artifacts().dom().contains((action_id(steps[i].0), ArtifactLocation::Stage(steps[i].1)))
            &&& stage_rank(steps[i].1) < stage_rank(s) < stage_rank(to)
                ==> !rv.artifacts().dom().contains((action_id(steps[i].0), ArtifactLocation::Stage(s)))
        },
{
    assert(attempt_ok(rv, plan, keys, steps[i]));
    if let PlannedAction::Promote { to, .. } = steps[i].0 {
        lemma_promotion_reads_highest_source(rv.artifacts(), action_id(steps[i].0), to, s);
    }
}

/// On a storage that never fails, each attempt completed exactly when its
/// case operation could (`step_completes` on the artifacts it met), and an
/// attempt that did not complete changed nothing.
pub open spec fn attempts_exact(
    ms: Seq<Map<ArtifactKey, Seq<u8>>>,
    steps: Seq<(PlannedAction, Stage, Seq<char>, Option<Executed>)>,
) -> bool {
    forall|i: int| 0 <= i < steps.len() ==> ((#[trigger] steps[i]).3 is Some <==> step_completes(ms[i], steps[i].0, steps[i].1))
        && (steps[i].3 is None ==> ms[i + 1] == ms[i])
}

/// Planned action `a` can run as `rv` stands: its recorded basis (if any)
/// is what the stage it acts on holds now, and a promotion has a source.
pub open spec fn runnable<S: EinmoStorage>(rv: EinmoReview<S>, a: PlannedAction) -> bool {
    &&& basis_unchanged_spec(rv, a)
    &&& a matches PlannedAction::Promote { to, .. } ==> promote_source_spec(rv.artifacts(), action_id(a), to) is Some
}

/// Some runnable action of `plan` promotes into `verified`.
pub open spec fn runnable_verified_promotion<S: EinmoStorage>(rv: EinmoReview<S>, plan: ExecutionPlan) -> bool {
    exists|j: int| 0 <= j < plan.actions@.len() && runnable(rv, #[trigger] plan.actions@[j])
        && (plan.actions@[j] matches PlannedAction::Promote { to, .. } && to == Stage::Verified)
}

/// Every runnable action of `plan` was attempted.
pub open spec fn runnable_attempted<S: EinmoStorage>(
    rv: EinmoReview<S>,
    plan: ExecutionPlan,
    steps: Seq<(PlannedAction, Stage, Seq<char>, Option<Executed>)>,
) -> bool {
    forall|j: int| 0 <= j < plan.actions@.len() && runnable(rv, #[trigger] plan.actions@[j])
        ==> exists|i: int| 0 <= i < steps.len() && steps[i].0 == plan.actions@[j]
}

/// Every triaged action (`promos`, `others`, by plan index) was attempted.
spec fn triaged_attempted(
    plan: ExecutionPlan,
    promos: Seq<(usize, Stage)>,
    others: Seq<usize>,
    steps: Seq<(PlannedAction, Stage, Seq<char>, Option<Executed>)>,
) -> bool {
    &&& forall|p: int| 0 <= p < promos.len() ==> exists|i: int| 0 <= i < steps.len()
        && steps[i].0 == plan.actions@[(#[trigger] promos[p]).0 as int]
    &&& forall|q: int| 0 <= q < others.len() ==> exists|i: int| 0 <= i < steps.len()
        && steps[i].0 == plan.actions@[(#[trigger] others[q]) as int]
}

/// The names of `ids`.
fn id_strings(ids: &Vec<EinmoId>) -> (r: Vec<String>)
    ensures
        strings_view(r@) == id_views(ids@),
{
    let mut out: Vec<String> = Vec::new();
    let mut i: usize = 0;
    while i < ids.len()
        invariant
            i <= ids@.len(),
            out@.len() == i,
            strings_view(out@) == id_views(ids@).take(i as int),
        decreases ids@.len() - i,
    {
        let ghost prev = out@;
        let name = own(ids[i].as_str());
        out.push(name);
        proof {
            assert(prev.len() == i);
            assert(out@.len() == i + 1);
            assert(out@ == prev.push(name));
            assert forall|k: int| 0 <= k < i + 1 implies strings_view(out@)[k] == id_views(ids@).take(i + 1)[k] by {
                if k < i {
                    assert(out@[k] == prev[k]);
                    assert(strings_view(prev)[k] == id_views(ids@).take(i as int)[k]);
                }
            }
            assert(strings_view(out@) =~= id_views(ids@).take(i + 1));
        }
        i = i + 1;
    }
    proof {
        assert(id_views(ids@).take(ids@.len() as int) =~= id_views(ids@));
    }
    out
}

/// The case names of `es`.
fn executed_strings(es: &Vec<Executed>) -> (r: Vec<String>)
    ensures
        strings_view(r@) == executed_ids(es@),
{
    let mut out: Vec<String> = Vec::new();
    let mut i: usize = 0;
    while i < es.len()
        invariant
            i <= es@.len(),
            out@.len() == i,
            strings_view(out@) == executed_ids(es@).take(i as int),
        decreases es@.len() - i,
    {
        let ghost prev = out@;
        let name = own(es[i].id.as_str());
        out.push(name);
        proof {
            assert(prev.len() == i);
            assert(out@.len() == i + 1);
            assert(out@ == prev.push(name));
            assert forall|k: int| 0 <= k < i + 1 implies strings_view(out@)[k] == executed_ids(es@).take(i + 1)[k] by {
                if k < i {
                    assert(out@[k] == prev[k]);
                    assert(strings_view(prev)[k] == executed_ids(es@).take(i as int)[k]);
                }
            }
            assert(strings_view(out@) =~= executed_ids(es@).take(i + 1));
        }
        i = i + 1;
    }
    proof {
        assert(executed_ids(es@).take(es@.len() as int) =~= executed_ids(es@));
    }
    out
}

/// `executed_ids` grows by one id when the list grows by one entry.
proof fn lemma_executed_ids_push(v: Seq<Executed>, e: Executed)
    ensures
        executed_ids(v.push(e)) == executed_ids(v).push(e.id@),
        forall|x: Seq<char>| executed_ids(v).contains(x) ==> executed_ids(v.push(e)).contains(x),
        executed_ids(v.push(e)).contains(e.id@),
{
    assert(executed_ids(v.push(e)) =~= executed_ids(v).push(e.id@));
    assert(executed_ids(v.push(e))[v.len() as int] == e.id@);
    assert forall|x: Seq<char>| executed_ids(v).contains(x) implies executed_ids(v.push(e)).contains(x) by {
        let w = choose|w: int| 0 <= w < executed_ids(v).len() && executed_ids(v)[w] == x;
        assert(executed_ids(v.push(e))[w] == x);
    }
}

impl<S: EinmoStorage> EinmoReview<S> {
    /// Clear the decision of every case the plan has an action for.
    fn clear_decisions(&mut self, plan: &ExecutionPlan)
        requires
            old(self).wf(),
        ensures
            final(self).wf(),
            final(self).storage == old(self).storage,
            final(self).claims == old(self).claims,
            final(self).lines == old(self).lines,
            final(self).level == old(self).level,
            final(self).session_id == old(self).session_id,
            final(self).opts == old(self).opts,
            final(self).policy == old(self).policy,
            forall|k: Seq<char>| is_action_id(*plan, k) ==> (#[trigger] final(self).decision_spec(k)) is None,
            forall|k: Seq<char>| !is_action_id(*plan, k) ==> final(self).decision_spec(k) == old(self).decision_spec(k)
                && final(self).basis_spec(k) == old(self).basis_spec(k),
    {
        let ghost b0 = self.book@;
        let mut i: usize = 0;
        while i < plan.actions.len()
            invariant
                i <= plan.actions@.len(),
                book_unique(self.book@),
                self.storage == old(self).storage,
                self.claims == old(self).claims,
                self.lines == old(self).lines,
                self.level == old(self).level,
                self.session_id == old(self).session_id,
                self.opts == old(self).opts,
                self.policy == old(self).policy,
                b0 == old(self).book@,
                forall|k: Seq<char>| id_in_prefix(*plan, i as int, k) ==> (#[trigger] book_decision(self.book@, k)) is None,
                forall|k: Seq<char>| !id_in_prefix(*plan, i as int, k) ==> book_decision(self.book@, k) == book_decision(b0, k)
                    && book_basis(self.book@, k) == book_basis(b0, k),
            decreases plan.actions@.len() - i,
        {
            let ghost before = self.book@;
            let id = planned_id(&plan.actions[i]);
            let _gone = book_undecide(&mut self.book, id);
            proof {
                assert forall|k: Seq<char>| id_in_prefix(*plan, i + 1, k) implies (#[trigger] book_decision(self.book@, k)) is None by {
                    if k != id@ {
                        let j = choose|j: int| 0 <= j < i + 1 && action_id(#[trigger] plan.actions@[j]) == k;
                        assert(j != i);
                        assert(id_in_prefix(*plan, i as int, k));
                    }
                }
                assert forall|k: Seq<char>| !id_in_prefix(*plan, i + 1, k) implies book_decision(self.book@, k) == book_decision(b0, k)
                    && book_basis(self.book@, k) == book_basis(b0, k) by {
                    assert(action_id(plan.actions@[i as int]) == id@);
                    if k == id@ {
                        assert(id_in_prefix(*plan, i + 1, k));
                    }
                    if id_in_prefix(*plan, i as int, k) {
                        let j = choose|j: int| 0 <= j < i && action_id(#[trigger] plan.actions@[j]) == k;
                        assert(id_in_prefix(*plan, i + 1, k));
                    }
                }
            }
            i = i + 1;
        }
        proof {
            assert forall|k: Seq<char>| is_action_id(*plan, k) implies (#[trigger] self.decision_spec(k)) is None by {
                let j = choose|j: int| 0 <= j < plan.actions@.len() && action_id(#[trigger] plan.actions@[j]) == k;
                assert(id_in_prefix(*plan, plan.actions@.len() as int, k));
            }
            assert forall|k: Seq<char>| !is_action_id(*plan, k) implies self.decision_spec(k) == old(self).decision_spec(k)
                && self.basis_spec(k) == old(self).basis_spec(k) by {
                if id_in_prefix(*plan, plan.actions@.len() as int, k) {
                    let j = choose|j: int| 0 <= j < plan.actions@.len() && action_id(#[trigger] plan.actions@[j]) == k;
                    assert(is_action_id(*plan, k));
                }
            }
        }
    }
}

/// The keypairs a batch signs with: `ckp` for promotions into `checked`,
/// `vkp` for promotions into `verified`, each present where a triaged
/// promotion needs it and derived from that stage's key.
spec fn keypairs_ok(
    plan: ExecutionPlan,
    keys: SignerSet,
    promos: Seq<(usize, Stage)>,
    ckp: Option<StageKeypair>,
    vkp: Option<StageKeypair>,
) -> bool {
    &&& forall|p: int| 0 <= p < promos.len() ==> (plan.actions@[(#[trigger] promos[p]).0 as int] matches PlannedAction::Promote { to, .. }
        && (if to == Stage::Verified { vkp is Some } else { ckp is Some }))
    &&& ckp matches Some(k) ==> k.pubkey_hex_spec() == derived_pubkey_hex(keys.to_checked.passphrase_spec())
    &&& vkp matches Some(k) ==> keys.to_verified matches Some(ks) && k.pubkey_hex_spec() == derived_pubkey_hex(ks.passphrase_spec())
}

impl<S: EinmoStorage> EinmoReview<S> {
    /// Attempt every triaged action, promotions first, each in plan order;
    /// a completed one is returned, one that did not complete is added to
    /// `skipped`.
    #[verifier::rlimit(40)]
    fn run_batch(
        &mut self,
        plan: &ExecutionPlan,
        keys: &SignerSet,
        promos: &Vec<(usize, Stage)>,
        others: &Vec<usize>,
        ckp: &Option<StageKeypair>,
        vkp: &Option<StageKeypair>,
        skipped: &mut Vec<EinmoId>,
        timestamp: &str,
    ) -> (executed: Vec<Executed>)
        requires
            forall|p: int| 0 <= p < promos@.len() ==> promo_ok(*old(self), *plan, #[trigger] promos@[p]),
            forall|o: int| 0 <= o < others@.len() ==> other_ok(*old(self), *plan, #[trigger] others@[o]),
            keypairs_ok(*plan, *keys, promos@, *ckp, *vkp),
        ensures
            final(self).book == old(self).book,
            final(self).claims == old(self).claims,
            final(self).lines == old(self).lines,
            final(self).level == old(self).level,
            final(self).session_id == old(self).session_id,
            final(self).opts == old(self).opts,
            final(self).policy == old(self).policy,
            executed@.len() + final(skipped)@.len() == old(skipped)@.len() + promos@.len() + others@.len(),
            final(skipped)@.len() >= old(skipped)@.len(),
            final(skipped)@.take(old(skipped)@.len() as int) == old(skipped)@,
            forall|s: int| old(skipped)@.len() <= s < final(skipped)@.len() ==> is_action_id(*plan, (#[trigger] final(skipped)@[s])@),
            forall|p: int| 0 <= p < promos@.len() ==> executed_ids(executed@).contains(action_id(plan.actions@[(#[trigger] promos@[p]).0 as int]))
                || id_views(final(skipped)@).contains(action_id(plan.actions@[promos@[p].0 as int])),
            forall|o: int| 0 <= o < others@.len() ==> executed_ids(executed@).contains(action_id(plan.actions@[(#[trigger] others@[o]) as int]))
                || id_views(final(skipped)@).contains(action_id(plan.actions@[others@[o] as int])),
            exists|ms: Seq<Map<ArtifactKey, Seq<u8>>>, steps: Seq<(PlannedAction, Stage, Seq<char>, Option<Executed>)>|
                trace_ok(*old(self), *plan, *keys, timestamp@, final(self).artifacts(), ms, steps, executed@)
                && triaged_attempted(*plan, promos@, others@, steps),
    {
        let ghost rv0 = *self;
        let ghost sk0 = skipped@;
        let ghost mut ms: Seq<Map<ArtifactKey, Seq<u8>>> = seq![self.storage.artifacts()];
        let ghost mut steps: Seq<(PlannedAction, Stage, Seq<char>, Option<Executed>)> = Seq::empty();
        let mut executed: Vec<Executed> = Vec::new();
        let mut k: usize = 0;
        while k < promos.len()
            invariant
                k <= promos@.len(),
                rv0 == *old(self),
                sk0 == old(skipped)@,
                self.book == old(self).book,
                self.claims == old(self).claims,
                self.lines == old(self).lines,
                self.level == old(self).level,
                self.session_id == old(self).session_id,
                self.opts == old(self).opts,
                self.policy == old(self).policy,
                forall|p: int| 0 <= p < promos@.len() ==> promo_ok(rv0, *plan, #[trigger] promos@[p]),
                keypairs_ok(*plan, *keys, promos@, *ckp, *vkp),
                executed@.len() + skipped@.len() == sk0.len() + k,
                skipped@.len() >= sk0.len(),
                skipped@.take(sk0.len() as int) == sk0,
                forall|s: int| sk0.len() <= s < skipped@.len() ==> is_action_id(*plan, (#[trigger] skipped@[s])@),
                forall|p: int| 0 <= p < k ==> executed_ids(executed@).contains(action_id(plan.actions@[(#[trigger] promos@[p]).0 as int]))
                    || id_views(skipped@).contains(action_id(plan.actions@[promos@[p].0 as int])),
                trace_ok(rv0, *plan, *keys, timestamp@, self.storage.artifacts(), ms, steps, executed@),
                self.storage.infallible() == rv0.storage.infallible(),
                triaged_attempted(*plan, promos@.take(k as int), Seq::<usize>::empty(), steps),
            decreases promos@.len() - k,
        {
            let (j, f) = promos[k];
            let a = &plan.actions[j];
            let kp = match a {
                PlannedAction::Promote { to: Stage::Verified, .. } => vkp.as_ref(),
                _ => ckp.as_ref(),
            };
            proof {
                assert(promo_ok(rv0, *plan, promos@[k as int]));
                assert(plan.actions@[promos@[k as int].0 as int] == *a);
            }
            let ghost m_before = self.storage.artifacts();
            let ghost pk = match kp { Some(kk) => kk.pubkey_hex_spec(), None => Seq::<char>::empty() };
            let ghost ex0 = executed@;
            let ghost skp = skipped@;
            let res = run_step(&mut self.storage, a, f, kp, timestamp);
            let ghost rres = res;
            match res {
                Some(e) => {
                    executed.push(e);
                    proof {
                        lemma_executed_ids_push(ex0, executed@.last());
                    }
                },
                None => {
                    skipped.push(planned_id(a).duplicate());
                    proof {
                        lemma_id_views_push(skp, skipped@.last());
                        assert(skipped@.last()@ == action_id(*a));
                    }
                },
            }
            proof {
                let st = (*a, f, pk, rres);
                assert(attempt_ok(rv0, *plan, *keys, st)) by {
                    assert(plan.actions@[j as int] == st.0);
                }
                let steps1 = steps.push(st);
                let ms1 = ms.push(self.storage.artifacts());
                assert(steps1.drop_last() =~= steps);
                assert forall|i: int| 0 <= i < steps1.len() implies attempt_ok(rv0, *plan, *keys, #[trigger] steps1[i])
                    && step_effect(ms1[i], ms1[i + 1], steps1[i].0, steps1[i].1, steps1[i].2, timestamp@, steps1[i].3) by {
                    if i < steps.len() {
                        assert(steps1[i] == steps[i]);
                        assert(ms1[i] == ms[i] && ms1[i + 1] == ms[i + 1]);
                    } else {
                        assert(ms1[i] == m_before);
                    }
                }
                assert(rv0.storage_infallible() ==> attempts_exact(ms1, steps1)) by {
                    if rv0.storage_infallible() {
                        assert forall|i: int| 0 <= i < steps1.len() implies ((#[trigger] steps1[i]).3 is Some
                            <==> step_completes(ms1[i], steps1[i].0, steps1[i].1)) && (steps1[i].3 is None ==> ms1[i + 1] == ms1[i]) by {
                            if i < steps.len() {
                                assert(steps1[i] == steps[i]);
                                assert(ms1[i] == ms[i] && ms1[i + 1] == ms[i + 1]);
                            } else {
                                assert(ms1[i] == m_before);
                            }
                        }
                    }
                }
                let ghost old_steps = steps;
                steps = steps1;
                ms = ms1;
                assert(triaged_attempted(*plan, promos@.take(k + 1), Seq::<usize>::empty(), steps)) by {
                    assert forall|p: int| 0 <= p < promos@.take(k + 1).len() implies exists|i: int| 0 <= i < steps.len()
                        && steps[i].0 == plan.actions@[(#[trigger] promos@.take(k + 1)[p]).0 as int] by {
                        if p < k {
                            assert(promos@.take(k + 1)[p] == promos@.take(k as int)[p]);
                            let i0 = choose|i: int| 0 <= i < old_steps.len() && old_steps[i].0 == plan.actions@[promos@.take(k as int)[p].0 as int];
                            assert(steps[i0] == old_steps[i0]);
                        } else {
                            assert(steps[old_steps.len() as int].0 == plan.actions@[promos@[k as int].0 as int]);
                        }
                    }
                }
                assert(skipped@.take(sk0.len() as int) =~= sk0) by {
                    assert(skp.take(sk0.len() as int) == sk0);
                    assert forall|x: int| 0 <= x < sk0.len() implies skipped@[x] == skp[x] by {
                        if skipped@.len() > skp.len() {
                            assert(skipped@ == skp.push(skipped@.last()));
                        }
                    }
                    assert forall|x: int| 0 <= x < sk0.len() implies skipped@.take(sk0.len() as int)[x] == sk0[x] by {
                        assert(skp.take(sk0.len() as int)[x] == sk0[x]);
                    }
                }
                assert forall|s: int| sk0.len() <= s < skipped@.len() implies is_action_id(*plan, (#[trigger] skipped@[s])@) by {
                    if s < skp.len() {
                        assert(skipped@[s] == skp[s]);
                    } else {
                        assert(action_id(plan.actions@[j as int]) == skipped@[s]@);
                    }
                }
                assert forall|p: int| 0 <= p < k + 1 implies executed_ids(executed@).contains(action_id(plan.actions@[(#[trigger] promos@[p]).0 as int]))
                    || id_views(skipped@).contains(action_id(plan.actions@[promos@[p].0 as int])) by {
                    if p < k {
                        if executed_ids(ex0).contains(action_id(plan.actions@[promos@[p].0 as int])) {
                            if executed@.len() > ex0.len() {
                                assert(executed@ == ex0.push(executed@.last()));
                            }
                        } else {
                            if skipped@.len() > skp.len() {
                                assert(skipped@ == skp.push(skipped@.last()));
                            }
                        }
                    } else {
                        if executed@.len() > ex0.len() {
                            assert(executed@ == ex0.push(executed@.last()));
                        } else {
                            assert(skipped@ == skp.push(skipped@.last()));
                        }
                    }
                }
            }
            k = k + 1;
        }
        proof {
            assert(promos@.take(k as int) =~= promos@);
            assert(others@.take(0) =~= Seq::<usize>::empty());
        }
        let mut o: usize = 0;
        while o < others.len()
            invariant
                o <= others@.len(),
                rv0 == *old(self),
                sk0 == old(skipped)@,
                self.book == old(self).book,
                self.claims == old(self).claims,
                self.lines == old(self).lines,
                self.level == old(self).level,
                self.session_id == old(self).session_id,
                self.opts == old(self).opts,
                self.policy == old(self).policy,
                forall|q: int| 0 <= q < others@.len() ==> other_ok(rv0, *plan, #[trigger] others@[q]),
                executed@.len() + skipped@.len() == sk0.len() + promos@.len() + o,
                skipped@.len() >= sk0.len(),
                skipped@.take(sk0.len() as int) == sk0,
                forall|s: int| sk0.len() <= s < skipped@.len() ==> is_action_id(*plan, (#[trigger] skipped@[s])@),
                forall|p: int| 0 <= p < promos@.len() ==> executed_ids(executed@).contains(action_id(plan.actions@[(#[trigger] promos@[p]).0 as int]))
                    || id_views(skipped@).contains(action_id(plan.actions@[promos@[p].0 as int])),
                forall|q: int| 0 <= q < o ==> executed_ids(executed@).contains(action_id(plan.actions@[(#[trigger] others@[q]) as int]))
                    || id_views(skipped@).contains(action_id(plan.actions@[others@[q] as int])),
                trace_ok(rv0, *plan, *keys, timestamp@, self.storage.artifacts(), ms, steps, executed@),
                self.storage.infallible() == rv0.storage.infallible(),
                triaged_attempted(*plan, promos@, others@.take(o as int), steps),
            decreases others@.len() - o,
        {
            let j = others[o];
            let a = &plan.actions[j];
            proof {
                assert(other_ok(rv0, *plan, others@[o as int]));
            }
            let ghost m_before = self.storage.artifacts();
            let ghost ex0 = executed@;
            let ghost skp = skipped@;
            let res = run_step(&mut self.storage, a, Stage::Output, None, timestamp);
            let ghost rres = res;
            match res {
                Some(e) => {
                    executed.push(e);
                    proof {
                        lemma_executed_ids_push(ex0, executed@.last());
                    }
                },
                None => {
                    skipped.push(planned_id(a).duplicate());
                    proof {
                        lemma_id_views_push(skp, skipped@.last());
                        assert(skipped@.last()@ == action_id(*a));
                    }
                },
            }
            proof {
                let st = (*a, Stage::Output, Seq::<char>::empty(), rres);
                assert(attempt_ok(rv0, *plan, *keys, st)) by {
                    assert(plan.actions@[j as int] == st.0);
                }
                let steps1 = steps.push(st);
                let ms1 = ms.push(self.storage.artifacts());
                assert(steps1.drop_last() =~= steps);
                assert forall|i: int| 0 <= i < steps1.len() implies attempt_ok(rv0, *plan, *keys, #[trigger] steps1[i])
                    && step_effect(ms1[i], ms1[i + 1], steps1[i].0, steps1[i].1, steps1[i].2, timestamp@, steps1[i].3) by {
                    if i < steps.len() {
                        assert(steps1[i] == steps[i]);
                        assert(ms1[i] == ms[i] && ms1[i + 1] == ms[i + 1]);
                    } else {
                        assert(ms1[i] == m_before);
                    }
                }
                assert(rv0.storage_infallible() ==> attempts_exact(ms1, steps1)) by {
                    if rv0.storage_infallible() {
                        assert forall|i: int| 0 <= i < steps1.len() implies ((#[trigger] steps1[i]).3 is Some
                            <==> step_completes(ms1[i], steps1[i].0, steps1[i].1)) && (steps1[i].3 is None ==> ms1[i + 1] == ms1[i]) by {
                            if i < steps.len() {
                                assert(steps1[i] == steps[i]);
                                assert(ms1[i] == ms[i] && ms1[i + 1] == ms[i + 1]);
                            } else {
                                assert(ms1[i] == m_before);
                            }
                        }
                    }
                }
                let ghost old_steps = steps;
                steps = steps1;
                ms = ms1;
                assert(triaged_attempted(*plan, promos@, others@.take(o + 1), steps)) by {
                    assert forall|p: int| 0 <= p < promos@.len() implies exists|i: int| 0 <= i < steps.len()
                        && steps[i].0 == plan.actions@[(#[trigger] promos@[p]).0 as int] by {
                        let i0 = choose|i: int| 0 <= i < old_steps.len() && old_steps[i].0 == plan.actions@[promos@[p].0 as int];
                        assert(steps[i0] == old_steps[i0]);
                    }
                    assert forall|q: int| 0 <= q < others@.take(o + 1).len() implies exists|i: int| 0 <= i < steps.len()
                        && steps[i].0 == plan.actions@[(#[trigger] others@.take(o + 1)[q]) as int] by {
                        if q < o {
                            assert(others@.take(o + 1)[q] == others@.take(o as int)[q]);
                            let i0 = choose|i: int| 0 <= i < old_steps.len() && old_steps[i].0 == plan.actions@[others@.take(o as int)[q] as int];
                            assert(steps[i0] == old_steps[i0]);
                        } else {
                            assert(steps[old_steps.len() as int].0 == plan.actions@[others@[o as int] as int]);
                        }
                    }
                }
                assert(skipped@.take(sk0.len() as int) =~= sk0) by {
                    assert(skp.take(sk0.len() as int) == sk0);
                    assert forall|x: int| 0 <= x < sk0.len() implies skipped@[x] == skp[x] by {
                        if skipped@.len() > skp.len() {
                            assert(skipped@ == skp.push(skipped@.last()));
                        }
                    }
                    assert forall|x: int| 0 <= x < sk0.len() implies skipped@.take(sk0.len() as int)[x] == sk0[x] by {
                        assert(skp.take(sk0.len() as int)[x] == sk0[x]);
                    }
                }
                assert forall|s: int| sk0.len() <= s < skipped@.len() implies is_action_id(*plan, (#[trigger] skipped@[s])@) by {
                    if s < skp.len() {
                        assert(skipped@[s] == skp[s]);
                    } else {
                        assert(action_id(plan.actions@[j as int]) == skipped@[s]@);
                    }
                }
                assert forall|p: int| 0 <= p < promos@.len() implies executed_ids(executed@).contains(action_id(plan.actions@[(#[trigger] promos@[p]).0 as int]))
                    || id_views(skipped@).contains(action_id(plan.actions@[promos@[p].0 as int])) by {
                    if executed_ids(ex0).contains(action_id(plan.actions@[promos@[p].0 as int])) {
                        if executed@.len() > ex0.len() {
                            assert(executed@ == ex0.push(executed@.last()));
                        }
                    } else {
                        if skipped@.len() > skp.len() {
                            assert(skipped@ == skp.push(skipped@.last()));
                        }
                    }
                }
                assert forall|q: int| 0 <= q < o + 1 implies executed_ids(executed@).contains(action_id(plan.actions@[(#[trigger] others@[q]) as int]))
                    || id_views(skipped@).contains(action_id(plan.actions@[others@[q] as int])) by {
                    if q < o {
                        if executed_ids(ex0).contains(action_id(plan.actions@[others@[q] as int])) {
                            if executed@.len() > ex0.len() {
                                assert(executed@ == ex0.push(executed@.last()));
                            }
                        } else {
                            if skipped@.len() > skp.len() {
                                assert(skipped@ == skp.push(skipped@.last()));
                            }
                        }
                    } else {
                        if executed@.len() > ex0.len() {
                            assert(executed@ == ex0.push(executed@.last()));
                        } else {
                            assert(skipped@ == skp.push(skipped@.last()));
                        }
                    }
                }
            }
            o = o + 1;
        }
        proof {
            assert(trace_ok(*old(self), *plan, *keys, timestamp@, self.artifacts(), ms, steps, executed@));
            assert(others@.take(o as int) =~= others@);
        }
        executed
    }
}

/// What `execute` did when it returned `rep`: every action of the plan
/// either executed or skipped, drifted ones skipped, the storage changed
/// by exactly a trace of attempts whose completed ones are `rep.executed`,
/// every touched case's decision cleared, and `ExecuteBatch` journaled.
pub open spec fn executed_as_reported<S: EinmoStorage>(
    before: EinmoReview<S>,
    after: EinmoReview<S>,
    plan: ExecutionPlan,
    keys: SignerSet,
    timestamp: Seq<char>,
    rep: ExecutionReport,
) -> bool {
        &&& rep.executed@.len() + rep.skipped@.len() == plan.actions@.len()
        &&& forall|j: int| 0 <= j < plan.actions@.len() ==> executed_ids(rep.executed@).contains(action_id(#[trigger] plan.actions@[j]))
            || id_views(rep.skipped@).contains(action_id(plan.actions@[j]))
        &&& forall|s: int| 0 <= s < rep.skipped@.len() ==> is_action_id(plan, (#[trigger] rep.skipped@[s])@)
        &&& forall|j: int| 0 <= j < plan.actions@.len() && drifted(before, #[trigger] plan.actions@[j])
            ==> id_views(rep.skipped@).contains(action_id(plan.actions@[j]))
        &&& exists|ms: Seq<Map<ArtifactKey, Seq<u8>>>, steps: Seq<(PlannedAction, Stage, Seq<char>, Option<Executed>)>|
            trace_ok(before, plan, keys, timestamp, after.artifacts(), ms, steps, rep.executed@)
            && (before.storage_infallible() ==> runnable_attempted(before, plan, steps))
        &&& forall|k: Seq<char>| is_action_id(plan, k) ==> (#[trigger] after.decision_spec(k)) is None
        &&& forall|k: Seq<char>| !is_action_id(plan, k) ==> after.decision_spec(k) == before.decision_spec(k)
            && after.basis_spec(k) == before.basis_spec(k)
        &&& after.journal_spec().drop_last() == before.journal_spec()
        &&& after.journal_spec().last().timestamp@ == timestamp
        &&& after.journal_spec().last().event matches JournalEvent::ExecuteBatch { executed: ex, skipped: sk }
            && strings_view(ex@) == executed_ids(rep.executed@) && strings_view(sk@) == id_views(rep.skipped@)
}

/// One of the triaged promotions `promos[..n]` goes to `verified` (when
/// `verified`) or to another stage (when not).
spec fn promotes_among(plan: ExecutionPlan, promos: Seq<(usize, Stage)>, n: int, verified: bool) -> bool {
    exists|p: int| 0 <= p < n && (plan.actions@[(#[trigger] promos[p]).0 as int] matches PlannedAction::Promote { to, .. }
        && (to == Stage::Verified) == verified)
}

impl<S: EinmoStorage> EinmoReview<S> {
    /// Apply a plan: every action whose decision's content basis still
    /// holds is attempted, signing promotions into `checked` with
    /// `keys.to_checked` and into `verified` with `keys.to_verified` (each
    /// key derived once for the batch), promotions first, then retractions
    /// and flags, each in plan order. A drifted action, a promotion with no
    /// source, and an attempt that fails are skipped, never applied
    /// against content nobody reviewed. Every case the plan
    /// touched has its decision cleared; `ExecuteBatch` is journaled.
    ///
    /// # Errors
    /// [`EinmoError::NoKey`] if a promotion into `verified` is to run and
    /// `keys` has no `verified` key: then nothing at all is done.
    #[verifier::spinoff_prover]
    #[verifier::rlimit(100)]
    pub fn execute(&mut self, plan: &ExecutionPlan, keys: &SignerSet, timestamp: &str) -> (r: Result<ExecutionReport, EinmoError>)
        requires
            old(self).wf(),
        ensures
            final(self).wf(),
            final(self).claims_spec() == old(self).claims_spec(),
            final(self).session_spec() == old(self).session_spec(),
            final(self).opts_spec() == old(self).opts_spec(),
            final(self).policy_spec() == old(self).policy_spec(),
            final(self).level_spec() == old(self).level_spec(),
            keys.to_verified is Some || !plan_promotes_to_verified(*plan) ==> r is Ok,
            old(self).storage_infallible() && keys.to_verified is None && runnable_verified_promotion(*old(self), *plan)
                ==> (r matches Err(e) && e is NoKey),
            r matches Err(e) ==> e is NoKey && keys.to_verified is None && plan_promotes_to_verified(*plan)
                && final(self).artifacts() == old(self).artifacts()
                && final(self).journal_spec() == old(self).journal_spec()
                && forall|k: Seq<char>| final(self).decision_spec(k) == old(self).decision_spec(k)
                    && final(self).basis_spec(k) == old(self).basis_spec(k),
            r matches Ok(rep) ==> executed_as_reported(*old(self), *final(self), *plan, *keys, timestamp@, rep),
    {
        let ghost rv0 = *self;
        let (mut skipped, promos, others) = self.triage(plan);
        let mut need_checked = false;
        let mut need_verified = false;
        let mut first_from: Option<Stage> = None;
        let mut n_first: usize = 0;
        let mut k: usize = 0;
        while k < promos.len()
            invariant
                k <= promos@.len(),
                n_first <= k,
                forall|p: int| 0 <= p < promos@.len() ==> promo_ok(rv0, *plan, #[trigger] promos@[p]),
                need_checked == promotes_among(*plan, promos@, k as int, false),
                need_verified == promotes_among(*plan, promos@, k as int, true),
            decreases promos@.len() - k,
        {
            let (j, f) = promos[k];
            proof {
                assert(promo_ok(rv0, *plan, promos@[k as int]));
            }
            match &plan.actions[j] {
                PlannedAction::Promote { to: Stage::Verified, .. } => {
                    need_verified = true;
                    match first_from {
                        None => {
                            first_from = Some(f);
                            n_first = 1;
                        },
                        Some(ff) => {
                            if ff.same(&f) {
                                n_first = n_first + 1;
                            }
                        },
                    }
                },
                _ => {
                    need_checked = true;
                },
            }
            proof {
                assert(promotes_among(*plan, promos@, k + 1, false) == (need_checked)) by {
                    if promotes_among(*plan, promos@, k as int, false) {
                        let p = choose|p: int| 0 <= p < k && (plan.actions@[(#[trigger] promos@[p]).0 as int] matches PlannedAction::Promote { to, .. }
                            && (to == Stage::Verified) == false);
                    }
                    if promotes_among(*plan, promos@, k + 1, false) && !promotes_among(*plan, promos@, k as int, false) {
                        let p = choose|p: int| 0 <= p < k + 1 && (plan.actions@[(#[trigger] promos@[p]).0 as int] matches PlannedAction::Promote { to, .. }
                            && (to == Stage::Verified) == false);
                        assert(p == k);
                    }
                }
                assert(promotes_among(*plan, promos@, k + 1, true) == (need_verified)) by {
                    if promotes_among(*plan, promos@, k as int, true) {
                        let p = choose|p: int| 0 <= p < k && (plan.actions@[(#[trigger] promos@[p]).0 as int] matches PlannedAction::Promote { to, .. }
                            && (to == Stage::Verified) == true);
                    }
                    if promotes_among(*plan, promos@, k + 1, true) && !promotes_among(*plan, promos@, k as int, true) {
                        let p = choose|p: int| 0 <= p < k + 1 && (plan.actions@[(#[trigger] promos@[p]).0 as int] matches PlannedAction::Promote { to, .. }
                            && (to == Stage::Verified) == true);
                        assert(p == k);
                    }
                }
            }
            k = k + 1;
        }
        assert(rv0.storage_infallible() && runnable_verified_promotion(rv0, *plan) ==> need_verified) by {
            if rv0.storage_infallible() && runnable_verified_promotion(rv0, *plan) {
                let j = choose|j: int| 0 <= j < plan.actions@.len() && runnable(rv0, #[trigger] plan.actions@[j])
                    && (plan.actions@[j] matches PlannedAction::Promote { to, .. } && to == Stage::Verified);
                if exists|p: int| 0 <= p < promos@.len() && promos@[p].0 == j {
                    let p = choose|p: int| 0 <= p < promos@.len() && promos@[p].0 == j;
                    assert(plan.actions@[(promos@[p]).0 as int] == plan.actions@[j]);
                    assert(promotes_among(*plan, promos@, promos@.len() as int, true));
                } else {
                    let o = choose|o: int| 0 <= o < others@.len() && others@[o] == j;
                    assert(other_ok(rv0, *plan, others@[o]));
                }
            }
        }
        if need_verified && keys.to_verified.is_none() {
            proof {
                let p = choose|p: int| 0 <= p < promos@.len() && (plan.actions@[(#[trigger] promos@[p]).0 as int] matches PlannedAction::Promote { to, .. }
                    && (to == Stage::Verified) == true);
                assert(promo_ok(rv0, *plan, promos@[p]));
                assert(plan_promotes_to_verified(*plan)) by {
                    let j = promos@[p].0 as int;
                    assert(plan.actions@[j] matches PlannedAction::Promote { to, .. } && to == Stage::Verified);
                }
            }
            let mut msg: Vec<char> = Vec::new();
            crate::text::push_str(&mut msg, "promoting to verified needs a verified-stage key (");
            crate::numtext::push_dec(&mut msg, n_first);
            crate::text::push_str(&mut msg, " case(s) pending)");
            return Err(EinmoError::NoKey(crate::text::string_of(msg.as_slice())));
        }
        proof {
            if plan_promotes_to_verified(*plan) && keys.to_verified is None {
                assert(!need_verified);
            }
        }
        let ckp = if need_checked {
            Some(StageKeypair::derive(keys.to_checked.passphrase()))
        } else {
            None
        };
        let vkp = if need_verified {
            match &keys.to_verified {
                Some(ks) => Some(StageKeypair::derive(ks.passphrase())),
                None => None,
            }
        } else {
            None
        };
        proof {
            assert forall|p: int| 0 <= p < promos@.len() implies (plan.actions@[(#[trigger] promos@[p]).0 as int] matches PlannedAction::Promote { to, .. }
                && (if to == Stage::Verified { vkp is Some } else { ckp is Some })) by {
                assert(promo_ok(rv0, *plan, promos@[p]));
                let j = promos@[p].0 as int;
                if plan.actions@[j] matches PlannedAction::Promote { to, .. } && to == Stage::Verified {
                    assert(promotes_among(*plan, promos@, promos@.len() as int, true));
                } else {
                    assert(promotes_among(*plan, promos@, promos@.len() as int, false));
                }
            }
            assert(keypairs_ok(*plan, *keys, promos@, ckp, vkp));
        }
        let ghost sk0 = skipped@;
        let ghost pre = *self;
        let executed = self.run_batch(plan, keys, &promos, &others, &ckp, &vkp, &mut skipped, timestamp);
        let ghost m1 = self.artifacts();
        let ghost (wms, wsteps) = choose|ms: Seq<Map<ArtifactKey, Seq<u8>>>, steps: Seq<(PlannedAction, Stage, Seq<char>, Option<Executed>)>|
            trace_ok(pre, *plan, *keys, timestamp@, m1, ms, steps, executed@) && triaged_attempted(*plan, promos@, others@, steps);
        proof {
            assert(pre == rv0);
            assert(trace_ok(rv0, *plan, *keys, timestamp@, m1, wms, wsteps, executed@));
            if rv0.storage_infallible() {
                assert forall|j: int| 0 <= j < plan.actions@.len() && runnable(rv0, #[trigger] plan.actions@[j])
                    implies exists|i: int| 0 <= i < wsteps.len() && wsteps[i].0 == plan.actions@[j] by {
                    if exists|p: int| 0 <= p < promos@.len() && promos@[p].0 == j {
                        let p = choose|p: int| 0 <= p < promos@.len() && promos@[p].0 == j;
                        assert(plan.actions@[(promos@[p]).0 as int] == plan.actions@[j]);
                    } else {
                        let o = choose|o: int| 0 <= o < others@.len() && others@[o] == j;
                        assert(plan.actions@[(others@[o]) as int] == plan.actions@[j]);
                    }
                }
                assert(runnable_attempted(rv0, *plan, wsteps));
            }
        }
        proof {
            assert forall|j: int| 0 <= j < plan.actions@.len() implies executed_ids(executed@).contains(action_id(#[trigger] plan.actions@[j]))
                || id_views(skipped@).contains(action_id(plan.actions@[j])) by {
                assert(triaged(*plan, sk0, promos@, others@, j));
                if id_views(sk0).contains(action_id(plan.actions@[j])) {
                    let w = choose|w: int| 0 <= w < id_views(sk0).len() && id_views(sk0)[w] == action_id(plan.actions@[j]);
                    assert(skipped@.take(sk0.len() as int)[w] == sk0[w]);
                    assert(id_views(skipped@)[w] == action_id(plan.actions@[j]));
                } else if exists|p: int| 0 <= p < promos@.len() && (#[trigger] promos@[p]).0 == j {
                    let p = choose|p: int| 0 <= p < promos@.len() && (#[trigger] promos@[p]).0 == j;
                    assert(promos@[p].0 as int == j);
                } else {
                    let q = choose|q: int| 0 <= q < others@.len() && (#[trigger] others@[q]) == j;
                    assert(others@[q] as int == j);
                }
            }
            assert forall|s: int| 0 <= s < skipped@.len() implies is_action_id(*plan, (#[trigger] skipped@[s])@) by {
                if s < sk0.len() {
                    assert(skipped@.take(sk0.len() as int)[s] == sk0[s]);
                    assert(is_action_id(*plan, sk0[s]@));
                }
            }
            assert forall|j: int| 0 <= j < plan.actions@.len() && drifted(*old(self), #[trigger] plan.actions@[j])
                implies id_views(skipped@).contains(action_id(plan.actions@[j])) by {
                assert(id_views(sk0).contains(action_id(plan.actions@[j])));
                let w = choose|w: int| 0 <= w < id_views(sk0).len() && id_views(sk0)[w] == action_id(plan.actions@[j]);
                assert(skipped@.take(sk0.len() as int)[w] == sk0[w]);
                assert(id_views(skipped@)[w] == action_id(plan.actions@[j]));
            }
        }
        self.clear_decisions(plan);
        let ghost s1 = *self;
        let ex_names = executed_strings(&executed);
        let sk_names = id_strings(&skipped);
        self.log_at(JournalLevel::Terse, JournalEvent::ExecuteBatch { executed: ex_names, skipped: sk_names }, timestamp);
        proof {
            assert(self.artifacts() == m1);
            assert forall|k: Seq<char>| is_action_id(*plan, k) implies (#[trigger] self.decision_spec(k)) is None by {
                assert(s1.decision_spec(k) is None);
                assert(self.book == s1.book);
            }
        }
        let rep = ExecutionReport { executed, skipped };
        proof {
            assert(rep.executed@ == executed@);
            assert(rv0 == *old(self));
            assert(rep.executed@.len() + rep.skipped@.len() == plan.actions@.len());
            assert(forall|j: int| 0 <= j < plan.actions@.len() ==> executed_ids(rep.executed@).contains(action_id(#[trigger] plan.actions@[j]))
                || id_views(rep.skipped@).contains(action_id(plan.actions@[j])));
            assert(forall|s: int| 0 <= s < rep.skipped@.len() ==> is_action_id(*plan, (#[trigger] rep.skipped@[s])@));
            assert(forall|j: int| 0 <= j < plan.actions@.len() && drifted(*old(self), #[trigger] plan.actions@[j])
                ==> id_views(rep.skipped@).contains(action_id(plan.actions@[j])));
            assert(forall|k: Seq<char>| !is_action_id(*plan, k) ==> self.decision_spec(k) == old(self).decision_spec(k)
                && self.basis_spec(k) == old(self).basis_spec(k));
            assert(self.journal_spec().drop_last() == old(self).journal_spec());
            assert(self.journal_spec().last().timestamp@ == timestamp@);
            assert(trace_ok(*old(self), *plan, *keys, timestamp@, self.artifacts(), wms, wsteps, rep.executed@));
            assert(self.journal_spec().last().event matches JournalEvent::ExecuteBatch { executed: ex, skipped: sk }
                && strings_view(ex@) == executed_ids(rep.executed@) && strings_view(sk@) == id_views(rep.skipped@));
            assert(executed_as_reported(*old(self), *self, *plan, *keys, timestamp@, rep));
        }
        Ok(rep)
    }
}

/// `plan` is the one-action plan `decision` turns into for case `k`.
pub open spec fn single_action_plan(plan: ExecutionPlan, k: Seq<char>, decision: Decision) -> bool {
    &&& plan.actions@.len() == 1
    &&& action_for(k, decision, plan.actions@[0])
    &&& plan.claims@.len() == 0
}

/// What `execute_one` did for case `k` with pending decision `d`: either
/// it refused for want of a `verified` key and changed nothing, or it ran
/// `execute` on `d`'s one-action plan and returned the executed entry, or
/// a drift refusal when the action was skipped.
pub open spec fn executed_one<S: EinmoStorage>(
    before: EinmoReview<S>,
    after: EinmoReview<S>,
    k: Seq<char>,
    keys: SignerSet,
    timestamp: Seq<char>,
    d: Decision,
    r: Result<Executed, EinmoError>,
) -> bool {
    ||| (r matches Err(e) && e is NoKey && keys.to_verified is None && d == (Decision::Promote { to: Stage::Verified })
        && after.artifacts() == before.artifacts() && after.journal_spec() == before.journal_spec()
        && forall|x: Seq<char>| after.decision_spec(x) == before.decision_spec(x))
    ||| exists|plan: ExecutionPlan, rep: ExecutionReport| single_action_plan(plan, k, d)
        && #[trigger] executed_as_reported(before, after, plan, keys, timestamp, rep)
        && match r {
            Ok(e) => rep.executed@ == seq![e] && e.id@ == k,
            Err(e) => rep.executed@.len() == 0 && (e matches EinmoError::Verification(m)
                && m@ == k + "'s decision drifted or its source no longer exists — re-decide against current content"@),
        }
}

impl<S: EinmoStorage> EinmoReview<S> {
    /// Execute `id`'s pending decision now: `execute` on the one action it
    /// turns into, with the same drift check and the same clearing of the
    /// decision afterwards.
    ///
    /// # Errors
    /// [`EinmoError::Config`] if `id` has no pending decision or it is
    /// `Skip` (nothing changes); [`EinmoError::NoKey`] as for `execute`;
    /// [`EinmoError::Verification`] if the action was skipped (drifted,
    /// source gone, or failed), in which case the decision is still
    /// cleared.
    pub fn execute_one(&mut self, id: &EinmoId, keys: &SignerSet, timestamp: &str) -> (r: Result<Executed, EinmoError>)
        requires
            old(self).wf(),
        ensures
            final(self).wf(),
            final(self).claims_spec() == old(self).claims_spec(),
            final(self).session_spec() == old(self).session_spec(),
            final(self).level_spec() == old(self).level_spec(),
            old(self).decision_spec(id@) is None ==> (r matches Err(EinmoError::Config(m))
                && m@ == "no pending decision for "@ + id@ && *final(self) == *old(self)),
            old(self).decision_spec(id@) == Some(Decision::Skip) ==> (r matches Err(EinmoError::Config(m))
                && m@ == id@ + " is Skip: nothing to execute"@ && *final(self) == *old(self)),
            old(self).decision_spec(id@) is Some && !(old(self).decision_spec(id@).unwrap() is Skip)
                ==> executed_one(*old(self), *final(self), id@, *keys, timestamp@, old(self).decision_spec(id@).unwrap(), r),
            keys.to_verified is Some ==> !(r matches Err(e) && e is NoKey),
    {
        let decision = self.decision(id);
        let action = match decision {
            None => {
                return Err(EinmoError::Config(concat("no pending decision for ", id.as_str())));
            },
            Some(Decision::Skip) => {
                return Err(EinmoError::Config(concat(id.as_str(), " is Skip: nothing to execute")));
            },
            Some(Decision::Promote { to }) => PlannedAction::Promote { id: id.duplicate(), to },
            Some(Decision::Retract { from }) => PlannedAction::Retract { id: id.duplicate(), from },
            Some(Decision::Flag { stage, reason }) => PlannedAction::Flag { id: id.duplicate(), stage, reason },
        };
        let ghost d = decision.unwrap();
        let mut actions: Vec<PlannedAction> = Vec::new();
        actions.push(action);
        let plan = ExecutionPlan { actions, claims: Vec::new() };
        proof {
            assert(single_action_plan(plan, id@, d));
        }
        let ghost before = *self;
        match self.execute(&plan, keys, timestamp) {
            Err(e) => {
                proof {
                    let j = choose|j: int| 0 <= j < plan.actions@.len() && ((#[trigger] plan.actions@[j]) matches PlannedAction::Promote { to, .. }
                        && to == Stage::Verified);
                    assert(j == 0);
                }
                Err(e)
            },
            Ok(rep) => {
                proof {
                    assert(executed_as_reported(before, *self, plan, *keys, timestamp@, rep));
                }
                let mut executed = rep.executed;
                if executed.len() > 0 {
                    let e = executed.remove(0);
                    proof {
                        assert(executed_ids(rep.executed@).contains(action_id(plan.actions@[0])) || id_views(rep.skipped@).contains(action_id(plan.actions@[0])));
                        assert(rep.executed@ =~= seq![e]);
                        assert(executed_ids(rep.executed@)[0] == e.id@);
                    }
                    Ok(e)
                } else {
                    proof {
                        reveal_strlit("'s decision drifted or its source no longer exists — re-decide against current content");
                    }
                    Err(EinmoError::Verification(concat(id.as_str(),
                        "'s decision drifted or its source no longer exists — re-decide against current content")))
                }
            },
        }
    }
}

/// The decision for case `k` that replaying `lines` leaves pending, in
/// wire form: the last `Decide` for `k` whose stage names parse, unless an
/// `Undecide` for `k` came after it.
pub open spec fn replayed(lines: Seq<JournalLine>, k: Seq<char>) -> Option<JournalDecision>
    decreases lines.len(),
{
    if lines.len() == 0 {
        None
    } else {
        let prev = replayed(lines.drop_last(), k);
        match lines.last().event {
            JournalEvent::Decide { id, decision } => if id@ == k && stages_parse(decision) {
                Some(decision)
            } else {
                prev
            },
            JournalEvent::Undecide { id } => if id@ == k {
                None
            } else {
                prev
            },
            _ => prev,
        }
    }
}

/// The session's journal, replayed, gives back exactly its pending
/// decisions (each in wire form).
pub open spec fn journal_tracks<S: EinmoStorage>(rv: EinmoReview<S>) -> bool {
    forall|k: Seq<char>| {
        &&& (#[trigger] rv.decision_spec(k) is None) <==> replayed(rv.journal_spec(), k) is None
        &&& replayed(rv.journal_spec(), k) is Some ==> rv.decision_spec(k) is Some
            && represents(replayed(rv.journal_spec(), k).unwrap(), rv.decision_spec(k).unwrap())
    }
}

/// Replaying one more line.
proof fn lemma_replayed_push(lines: Seq<JournalLine>, line: JournalLine, k: Seq<char>)
    ensures
        replayed(lines.push(line), k) == match line.event {
            JournalEvent::Decide { id, decision } => if id@ == k && stages_parse(decision) {
                Some(decision)
            } else {
                replayed(lines, k)
            },
            JournalEvent::Undecide { id } => if id@ == k {
                None
            } else {
                replayed(lines, k)
            },
            _ => replayed(lines, k),
        },
{
    assert(lines.push(line).drop_last() =~= lines);
}

/// A session whose journal replays to its decisions is restored by
/// resuming from that journal: every case's decision comes back the same.
pub proof fn lemma_resume_reconstructs<S: EinmoStorage, T: EinmoStorage>(
    session: EinmoReview<S>,
    resumed: EinmoReview<T>,
)
    requires
        journal_tracks(session),
        forall|k: Seq<char>| (#[trigger] resumed.decision_spec(k) is None) <==> replayed(session.journal_spec(), k) is None,
        forall|k: Seq<char>| #[trigger] replayed(session.journal_spec(), k) matches Some(j)
            ==> resumed.decision_spec(k) matches Some(d) && represents(j, d),
    ensures
        forall|k: Seq<char>| (#[trigger] resumed.decision_spec(k) is None) == (session.decision_spec(k) is None),
        forall|k: Seq<char>| #[trigger] session.decision_spec(k) is Some
            ==> same_decision(resumed.decision_spec(k).unwrap(), session.decision_spec(k).unwrap()),
{
    assert forall|k: Seq<char>| #[trigger] session.decision_spec(k) is Some
        implies same_decision(resumed.decision_spec(k).unwrap(), session.decision_spec(k).unwrap()) by {
        assert(session.decision_spec(k) is None <==> replayed(session.journal_spec(), k) is None);
        let j = replayed(session.journal_spec(), k).unwrap();
        assert(resumed.decision_spec(k) is None <==> replayed(session.journal_spec(), k) is None);
        lemma_journal_round_trip(j, resumed.decision_spec(k).unwrap(), session.decision_spec(k).unwrap());
        lemma_same_decision_symmetric(session.decision_spec(k).unwrap(), resumed.decision_spec(k).unwrap());
    }
    assert forall|k: Seq<char>| (#[trigger] resumed.decision_spec(k) is None) == (session.decision_spec(k) is None) by {
        assert(session.decision_spec(k) is None <==> replayed(session.journal_spec(), k) is None);
    }
}

/// `same_decision` is symmetric.
proof fn lemma_same_decision_symmetric(a: Decision, b: Decision)
    ensures
        same_decision(a, b) == same_decision(b, a),
{
}

/// Every `Decide` and `Undecide` in `lines` names a valid case id.
pub open spec fn replayable(lines: Seq<JournalLine>) -> bool {
    forall|i: int| 0 <= i < lines.len() ==> match (#[trigger] lines[i]).event {
        JournalEvent::Decide { id, .. } => valid_id(id@),
        JournalEvent::Undecide { id } => valid_id(id@),
        _ => true,
    }
}

impl<S: EinmoStorage> EinmoReview<S> {
    /// Continue session `session_id` after its process ended: open it
    /// afresh (see `open_with`) and replay the `Decide` and `Undecide`
    /// lines of its journal (`lines`, as the binary read them back) in
    /// order, so the decisions left pending are pending again. Each replayed
    /// decision takes its drift basis from the content there now. A decision
    /// whose stage names do not parse is passed over; other events are
    /// ignored. An empty journal gives a fresh, empty review.
    ///
    /// # Errors
    /// [`EinmoError::InvalidId`] if a replayed line names an invalid case.
    pub fn resume(
        storage: S,
        opts: ReviewOpts,
        policy: MatchSections,
        session_id: &str,
        suite: &str,
        level: JournalLevel,
        lines: Vec<JournalLine>,
        timestamp: &str,
    ) -> (r: Result<EinmoReview<S>, EinmoError>)
        ensures
            r is Ok <==> replayable(lines@),
            r matches Err(e) ==> e is InvalidId,
            r matches Ok(rv) ==> {
                &&& rv.wf()
                &&& rv.artifacts() == storage.artifacts()
                &&& rv.opts_spec() == opts
                &&& rv.policy_spec() == policy
                &&& rv.session_spec() == session_id@
                &&& rv.level_spec() == level
                &&& rv.claims_spec().len() == 0
                &&& forall|k: Seq<char>| (#[trigger] rv.decision_spec(k) is None) <==> replayed(lines@, k) is None
                &&& forall|k: Seq<char>| #[trigger] replayed(lines@, k) matches Some(j)
                    ==> rv.decision_spec(k) matches Some(d) && represents(j, d)
                &&& crate::journal::level_rank(JournalLevel::Normal) <= crate::journal::level_rank(level) ==> journal_tracks(rv)
            },
    {
        let mut rv = EinmoReview::open_with(storage, opts, policy, session_id, suite, level, timestamp);
        let mut i: usize = 0;
        while i < lines.len()
            invariant
                i <= lines@.len(),
                rv.wf(),
                rv.artifacts() == storage.artifacts(),
                rv.opts_spec() == opts,
                rv.policy_spec() == policy,
                rv.session_spec() == session_id@,
                rv.level_spec() == level,
                rv.claims_spec().len() == 0,
                replayable(lines@.take(i as int)),
                forall|k: Seq<char>| (#[trigger] rv.decision_spec(k) is None) <==> replayed(lines@.take(i as int), k) is None,
                forall|k: Seq<char>| #[trigger] replayed(lines@.take(i as int), k) matches Some(j)
                    ==> rv.decision_spec(k) matches Some(d) && represents(j, d),
                crate::journal::level_rank(JournalLevel::Normal) <= crate::journal::level_rank(level) ==> journal_tracks(rv),
            decreases lines@.len() - i,
        {
            let ghost pre = lines@.take(i as int);
            let ghost now = lines@.take(i + 1);
            proof {
                assert(now.drop_last() =~= pre);
                assert(now.last() == lines@[i as int]);
            }
            match &lines[i].event {
                JournalEvent::Decide { id, decision } => {
                    let eid = match EinmoId::try_from(id.as_str()) {
                        Ok(x) => x,
                        Err(e) => {
                            proof {
                                assert(!replayable(lines@)) by {
                                    assert(lines@[i as int] == now.last());
                                }
                            }
                            return Err(e);
                        },
                    };
                    match decision.duplicate().into_decision() {
                        Some(d) => {
                            let ghost d0 = d;
                            let _prev = rv.decide(eid, d, timestamp);
                            proof {
                                assert forall|k: Seq<char>| (#[trigger] rv.decision_spec(k) is None) <==> replayed(now, k) is None by {}
                                assert forall|k: Seq<char>| (#[trigger] replayed(now, k)) is Some
                                    implies rv.decision_spec(k) is Some && represents(replayed(now, k).unwrap(), rv.decision_spec(k).unwrap()) by {
                                    if k == id@ {
                                        assert(rv.decision_spec(k) == Some(d0));
                                    }
                                }
                            }
                        },
                        None => {},
                    }
                },
                JournalEvent::Undecide { id } => {
                    let eid = match EinmoId::try_from(id.as_str()) {
                        Ok(x) => x,
                        Err(e) => {
                            proof {
                                assert(!replayable(lines@)) by {
                                    assert(lines@[i as int] == now.last());
                                }
                            }
                            return Err(e);
                        },
                    };
                    let _prev = rv.undecide(&eid, timestamp);
                },
                _ => {},
            }
            proof {
                assert forall|x: int| 0 <= x < now.len() implies match (#[trigger] now[x]).event {
                    JournalEvent::Decide { id, .. } => valid_id(id@),
                    JournalEvent::Undecide { id } => valid_id(id@),
                    _ => true,
                } by {
                    if x < i {
                        assert(now[x] == pre[x]);
                    }
                }
            }
            i = i + 1;
        }
        proof {
            assert(lines@.take(lines@.len() as int) =~= lines@);
        }
        Ok(rv)
    }
}

} // verus!
