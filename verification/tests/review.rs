use einmo::compare::MatchSections;
use einmo::config::KeySource;
use einmo::format::{EinmoFile, Metadata, Section, Status};
use einmo::journal::{JournalEvent, JournalLevel, JournalLine};
use einmo::case::EinmoCase;
use einmo::review::{Decision, DiffLine, EinmoReview, PlannedAction, ReviewMode, ReviewOpts, SignerSet};
use einmo::signature::{StageKeypair, Stamps};
use einmo::{ArtifactLocation, EinmoError, EinmoId, EinmoStorage, InMemoryStorage, Stage};

const T: &str = "2026-07-12T00:00:00Z";

fn id(rel: &str) -> EinmoId {
    EinmoId::from_input_rel(rel).unwrap()
}

fn signed_bytes(rel: &str, input: &str, output: &str, comments: &str) -> Vec<u8> {
    let bodies = vec![Section::new("INPUT", input), Section::new("OUTPUT", output), Section::new("COMMENTS", comments)];
    let meta = Metadata {
        test: rel.into(),
        suite: "s".into(),
        producer: "abc".into(),
        producer_diff: String::new(),
        generated: "2026-07-11T07:00:00Z".into(),
        status: Status::Normal,
        status_detail: String::new(),
        reference: String::new(),
        sections: vec!["INPUT".into(), "OUTPUT".into(), "COMMENTS".into(), "STAMPS".into()],
    };
    let mut file = EinmoFile::new("utf-8", "---", meta, bodies, Stamps::new());
    let configured = StageKeypair::derive("cfg");
    let stage = StageKeypair::derive("");
    let stamps = Stamps::generate(&file.signed_prefix(), &configured, &stage, "2026-07-11T07:00:00Z");
    file.set_stamps(stamps);
    file.serialize().unwrap()
}

/// Two evaluated cases: `a.foo` (`{1+1;}`) and `b.foo` (`{2+2;}`), each
/// with its input and a signed output whose OUTPUT echoes the source.
fn seeded_storage() -> InMemoryStorage {
    let mut storage = InMemoryStorage::new();
    for (rel, src) in [("a.foo", "{1+1;}"), ("b.foo", "{2+2;}")] {
        storage.write(&id(rel), ArtifactLocation::Input, src.as_bytes()).unwrap();
        storage
            .write(&id(rel), ArtifactLocation::Stage(Stage::Output), &signed_bytes(rel, src, src, ""))
            .unwrap();
    }
    storage
}

fn open(storage: InMemoryStorage) -> EinmoReview<InMemoryStorage> {
    EinmoReview::open(storage, "session-1", "suite", T)
}

fn open_with(storage: InMemoryStorage, opts: ReviewOpts) -> EinmoReview<InMemoryStorage> {
    EinmoReview::open_with(storage, opts, MatchSections::InputOutput, "session-1", "suite", JournalLevel::Normal, T)
}

fn checked_key() -> SignerSet {
    SignerSet { to_checked: KeySource::from_passphrase(""), to_verified: None }
}

fn item_ids(review: &EinmoReview<InMemoryStorage>) -> Vec<String> {
    review.items().unwrap().iter().map(|i| i.id.as_str().to_string()).collect()
}

fn resume(storage: InMemoryStorage, session: &str, lines: Vec<JournalLine>) -> EinmoReview<InMemoryStorage> {
    EinmoReview::resume(
        storage,
        ReviewOpts::default_opts(),
        MatchSections::InputOutput,
        session,
        "suite",
        JournalLevel::Normal,
        lines,
        T,
    )
    .unwrap()
}

#[test]
fn items_reflects_suite_scan() {
    let review = open(seeded_storage());
    let items = review.items().unwrap();
    let ids: Vec<_> = items.iter().map(|i| i.id.as_str().to_string()).collect();
    assert!(ids.contains(&"a.foo".to_string()));
    assert!(ids.contains(&"b.foo".to_string()));
    for item in &items {
        assert!(item.decision.is_none());
    }
}

#[test]
fn default_review_opts_is_full_mode_no_filter() {
    let opts = ReviewOpts::default_opts();
    assert_eq!(opts.mode, ReviewMode::Full);
    assert_eq!(opts.filter, None);
}

#[test]
fn open_matches_open_with_default_opts() {
    let mut plain = item_ids(&open(seeded_storage()));
    let mut explicit = item_ids(&open_with(seeded_storage(), ReviewOpts::default_opts()));
    plain.sort();
    explicit.sort();
    assert_eq!(plain, explicit);
}

#[test]
fn filter_restricts_items_by_substring() {
    let review = open_with(seeded_storage(), ReviewOpts { mode: ReviewMode::Full, filter: Some("a.foo".to_string()) });
    assert_eq!(item_ids(&review), vec!["a.foo".to_string()]);
}

#[test]
fn random_mode_returns_the_same_set_as_full() {
    let mut full = item_ids(&open_with(seeded_storage(), ReviewOpts { mode: ReviewMode::Full, filter: None }));
    let mut random = item_ids(&open_with(seeded_storage(), ReviewOpts { mode: ReviewMode::Random, filter: None }));
    assert_eq!(full.len(), random.len());
    full.sort();
    random.sort();
    assert_eq!(full, random, "Random must be a reordering, never a different set");
}

#[test]
fn new_or_broken_mode_excludes_a_fully_matching_case() {
    let mut storage = seeded_storage();
    storage
        .write(&id("a.foo"), ArtifactLocation::Stage(Stage::Checked), &signed_bytes("a.foo", "{1+1;}", "{1+1;}", ""))
        .unwrap();
    let review = open_with(storage, ReviewOpts { mode: ReviewMode::NewOrBroken, filter: None });
    assert_eq!(item_ids(&review), vec!["b.foo".to_string()]);
}

#[test]
fn refresh_reports_nothing_when_no_decisions_are_pending() {
    let review = open(seeded_storage());
    assert!(review.refresh().is_empty());
}

#[test]
fn refresh_reports_nothing_when_basis_content_is_unchanged() {
    let mut review = open(seeded_storage());
    review.decide(id("a.foo"), Decision::Promote { to: Stage::Checked }, T);
    assert!(review.refresh().is_empty());
}

#[test]
fn refresh_reports_a_case_whose_basis_content_changed_since_decide() {
    let mut storage = seeded_storage();
    let a = id("a.foo");
    storage.write(&a, ArtifactLocation::Stage(Stage::Checked), &signed_bytes("a.foo", "{1+1;}", "2", "")).unwrap();
    let mut review = open(storage);
    review.decide(a.clone(), Decision::Retract { from: Stage::Checked }, T);
    assert!(review.refresh().is_empty());
    review
        .storage_mut()
        .write(&a, ArtifactLocation::Stage(Stage::Checked), &signed_bytes("a.foo", "{1+1;}", "3", ""))
        .unwrap();
    assert_eq!(review.refresh(), vec![a.clone()]);
    assert_eq!(review.decision(&a), Some(Decision::Retract { from: Stage::Checked }), "refresh keeps the decision");
}

#[test]
fn execute_one_applies_a_pending_decision() {
    let mut review = open(seeded_storage());
    let a = id("a.foo");
    review.decide(a.clone(), Decision::Promote { to: Stage::Checked }, T);
    let executed = review.execute_one(&a, &checked_key(), T).unwrap();
    assert_eq!(executed.id, a);
    assert_eq!(executed.detail, "promoted output to checked");
    assert!(review.storage().read(&a, ArtifactLocation::Stage(Stage::Checked)).unwrap().is_some());
}

#[test]
fn execute_one_clears_the_decision_afterward() {
    let mut review = open(seeded_storage());
    let a = id("a.foo");
    review.decide(a.clone(), Decision::Promote { to: Stage::Checked }, T);
    review.execute_one(&a, &checked_key(), T).unwrap();
    assert!(review.plan(0).actions.is_empty());
}

#[test]
fn execute_one_errors_when_no_decision_is_pending() {
    let mut review = open(seeded_storage());
    let err = review.execute_one(&id("a.foo"), &checked_key(), T).unwrap_err();
    assert_eq!(err, EinmoError::Config("no pending decision for a.foo".to_string()));
}

#[test]
fn execute_one_errors_on_a_skip_decision() {
    let mut review = open(seeded_storage());
    let a = id("a.foo");
    review.decide(a.clone(), Decision::Skip, T);
    let err = review.execute_one(&a, &checked_key(), T).unwrap_err();
    assert_eq!(err, EinmoError::Config("a.foo is Skip: nothing to execute".to_string()));
}

#[test]
fn execute_one_errors_when_the_decision_has_drifted() {
    let a = id("a.foo");
    let mut review = open(seeded_storage());
    review.decide(a.clone(), Decision::Promote { to: Stage::Checked }, T);
    review
        .storage_mut()
        .write(&a, ArtifactLocation::Stage(Stage::Output), &signed_bytes("a.foo", "{9+9;}", "{9+9;}", ""))
        .unwrap();
    let err = review.execute_one(&a, &checked_key(), T).unwrap_err();
    assert_eq!(
        err,
        EinmoError::Verification(
            "a.foo's decision drifted or its source no longer exists \u{2014} re-decide against current content".to_string()
        )
    );
    assert!(review.storage().read(&a, ArtifactLocation::Stage(Stage::Checked)).unwrap().is_none());
    assert_eq!(review.decision(&a), None, "a skipped decision is still cleared");
}

#[test]
fn body_reverifies_a_different_artifact() {
    let mut review = EinmoReview::open_with(
        seeded_storage(),
        ReviewOpts::default_opts(),
        MatchSections::InputOutput,
        "s",
        "suite",
        JournalLevel::Fine,
        T,
    );
    review.take_journal();
    review.body(&id("a.foo"), Stage::Output, T).unwrap();
    review.body(&id("b.foo"), Stage::Output, T).unwrap();
    let verifies = review
        .take_journal()
        .iter()
        .filter(|l| matches!(l.event, JournalEvent::VerifyStart { .. }))
        .count();
    assert_eq!(verifies, 2);
}

#[test]
fn body_of_an_absent_stage_is_an_error() {
    let mut review = open(seeded_storage());
    assert!(matches!(review.body(&id("a.foo"), Stage::Checked, T), Err(EinmoError::Io { not_found: true, .. })));
    let body = review.body(&id("a.foo"), Stage::Output, T).unwrap();
    assert_eq!(
        body.sections,
        vec![
            ("INPUT".to_string(), "{1+1;}".to_string()),
            ("OUTPUT".to_string(), "{1+1;}".to_string()),
            ("COMMENTS".to_string(), String::new())
        ]
    );
}

#[test]
fn decide_replaces_not_stacks() {
    let mut review = open(seeded_storage());
    let a = id("a.foo");
    let prev = review.decide(a.clone(), Decision::Skip, T);
    assert_eq!(prev, None);
    let prev = review.decide(a.clone(), Decision::Promote { to: Stage::Checked }, T);
    assert_eq!(prev, Some(Decision::Skip));
    let items = review.items().unwrap();
    let item = items.iter().find(|i| i.id == a).unwrap();
    assert_eq!(item.decision, Some(Decision::Promote { to: Stage::Checked }));
}

#[test]
fn resume_reconstructs_a_pending_decision_left_by_a_dropped_session() {
    let a = id("a.foo");
    let (storage, session_id, lines) = {
        let mut review = open(seeded_storage());
        review.decide(a.clone(), Decision::Promote { to: Stage::Checked }, T);
        let session = review.session_id().to_string();
        let lines = review.take_journal();
        (review.into_storage(), session, lines)
    };
    let resumed = resume(storage, &session_id, lines);
    assert_eq!(
        resumed.decision(&a),
        Some(Decision::Promote { to: Stage::Checked }),
        "resume must reconstruct the decision the dropped session left pending"
    );
}

#[test]
fn resume_replays_undecide_so_a_cleared_decision_stays_cleared() {
    let a = id("a.foo");
    let mut review = open(seeded_storage());
    review.decide(a.clone(), Decision::Promote { to: Stage::Checked }, T);
    review.undecide(&a, T);
    let session = review.session_id().to_string();
    let lines = review.take_journal();
    let resumed = resume(review.into_storage(), &session, lines);
    assert_eq!(resumed.decision(&a), None);
}

#[test]
fn resume_of_an_unknown_session_id_is_a_fresh_empty_review() {
    let resumed = resume(seeded_storage(), "never-seen-before-session", Vec::new());
    assert_eq!(resumed.decision(&id("a.foo")), None);
}

#[test]
fn resume_reconstructs_multiple_decisions_and_undecides() {
    let a = id("a.foo");
    let b = id("b.foo");
    let mut review = open(seeded_storage());
    review.decide(a.clone(), Decision::Promote { to: Stage::Checked }, T);
    review.decide(b.clone(), Decision::Skip, T);
    review.decide(a.clone(), Decision::Flag { stage: Stage::Output, reason: "changed my mind".into() }, T);
    review.undecide(&b, T);
    let session = review.session_id().to_string();
    let lines = review.take_journal();
    let resumed = resume(review.into_storage(), &session, lines);
    assert_eq!(
        resumed.decision(&a),
        Some(Decision::Flag { stage: Stage::Output, reason: "changed my mind".into() }),
        "the last decide for a.foo must win (replace-not-stack)"
    );
    assert_eq!(resumed.decision(&b), None, "undecide must clear b.foo even after a decide");
}

#[test]
fn resume_refuses_a_journal_naming_an_invalid_id() {
    let lines = vec![JournalLine { timestamp: T.to_string(), event: JournalEvent::Undecide { id: "../x".to_string() } }];
    let r = EinmoReview::resume(
        seeded_storage(),
        ReviewOpts::default_opts(),
        MatchSections::InputOutput,
        "s",
        "suite",
        JournalLevel::Normal,
        lines,
        T,
    );
    assert!(matches!(r, Err(EinmoError::InvalidId(_))));
}

#[test]
fn claim_appears_in_plan_output() {
    let mut review = open(seeded_storage());
    let a = id("a.foo");
    review.claim(&a, 1000);
    let plan = review.plan(1000);
    let claim = plan.claims.iter().find(|c| c.id == a);
    assert!(claim.is_some(), "an active claim must appear in plan().claims");
    assert!(claim.unwrap().remaining_ms <= 5 * 60 * 1000);
}

#[test]
fn claim_is_advisory_and_never_blocks_decide_or_execute() {
    let mut review = open(seeded_storage());
    let a = id("a.foo");
    review.claim(&a, 1000);
    review.decide(a.clone(), Decision::Promote { to: Stage::Checked }, T);
    let plan = review.plan(1000);
    let report = review.execute(&plan, &checked_key(), T).unwrap();
    assert!(report.executed.iter().any(|e| e.id == a), "an active claim must never block a decision from executing");
}

#[test]
fn claim_refreshes_rather_than_stacks() {
    let mut review = open(seeded_storage());
    let a = id("a.foo");
    review.claim(&a, 1000);
    review.claim(&a, 2000);
    let plan = review.plan(2000);
    assert_eq!(
        plan.claims.iter().filter(|c| c.id == a).count(),
        1,
        "re-claiming the same case must refresh, not accumulate entries"
    );
}

#[test]
fn an_expired_claim_is_auto_reclaimed() {
    let mut review = open(seeded_storage());
    let a = id("a.foo");
    review.claim_for(&a, 10, 1000);
    let plan = review.plan(1050);
    assert!(!plan.claims.iter().any(|c| c.id == a));
}

#[test]
fn decision_reports_the_answer_so_far() {
    let mut review = open(seeded_storage());
    let a = id("a.foo");
    assert_eq!(review.decision(&a), None);
    review.decide(a.clone(), Decision::Skip, T);
    assert_eq!(review.decision(&a), Some(Decision::Skip));
    review.undecide(&a, T);
    assert_eq!(review.decision(&a), None);
}

#[test]
fn undecide_clears_back_to_untouched() {
    let mut review = open(seeded_storage());
    let a = id("a.foo");
    assert_eq!(review.undecide(&a, T), None, "undecide on untouched is a no-op");
    review.decide(a.clone(), Decision::Skip, T);
    let cleared = review.undecide(&a, T);
    assert_eq!(cleared, Some(Decision::Skip));
    let items = review.items().unwrap();
    let item = items.iter().find(|i| i.id == a).unwrap();
    assert!(item.decision.is_none());
}

#[test]
fn plan_turns_each_non_skip_decision_into_one_action() {
    let mut review = open(seeded_storage());
    review.decide(id("a.foo"), Decision::Promote { to: Stage::Checked }, T);
    review.decide(id("b.foo"), Decision::Skip, T);
    let plan = review.plan(0);
    assert_eq!(plan.actions.len(), 1);
    assert!(matches!(&plan.actions[0], PlannedAction::Promote { id: x, to: Stage::Checked } if x.as_str() == "a.foo"));
}

#[test]
fn execute_promote_appends_a_second_signers_stamp_when_content_matches() {
    let a = id("a.foo");
    let mut review = open(seeded_storage());
    review.decide(a.clone(), Decision::Promote { to: Stage::Checked }, T);
    let first = review.plan(0);
    let rep = review.execute(&first, &checked_key(), T).unwrap();
    assert_eq!(rep.executed[0].detail, "promoted output to checked");
    let before = review.storage().read(&a, ArtifactLocation::Stage(Stage::Checked)).unwrap().unwrap();

    review.decide(a.clone(), Decision::Promote { to: Stage::Checked }, T);
    let second = review.plan(0);
    let keys = SignerSet { to_checked: KeySource::from_passphrase("second signer"), to_verified: None };
    let rep = review.execute(&second, &keys, T).unwrap();
    assert_eq!(rep.executed.len(), 1);
    assert_eq!(rep.executed[0].detail, "output to checked: co-signed by a new signer");

    let after_bytes = review.storage().read(&a, ArtifactLocation::Stage(Stage::Checked)).unwrap().unwrap();
    let before_file = EinmoFile::parse(&before).unwrap();
    let after_file = EinmoFile::parse(&after_bytes).unwrap();
    assert_eq!(before_file.signed_prefix(), after_file.signed_prefix(), "content must be untouched by the co-sign");
    let first_pk = StageKeypair::derive("").pubkey_hex();
    let second_pk = StageKeypair::derive("second signer").pubkey_hex();
    assert!(
        after_file.stamps().has_stage_stamp_from("stage:checked", &first_pk)
            && after_file.stamps().has_stage_stamp_from("stage:checked", &second_pk),
        "both signers' stage:checked stamps must be present"
    );

    review.decide(a.clone(), Decision::Promote { to: Stage::Checked }, T);
    let third = review.plan(0);
    let rep = review.execute(&third, &keys, T).unwrap();
    assert_eq!(rep.executed[0].detail, "output to checked: already signed, unchanged");
}

#[test]
fn execute_clears_pending_decisions_it_applied() {
    let a = id("a.foo");
    let mut review = open(seeded_storage());
    review.decide(a.clone(), Decision::Promote { to: Stage::Checked }, T);
    let plan = review.plan(0);
    let report = review.execute(&plan, &checked_key(), T).unwrap();
    assert!(report.executed.iter().any(|e| e.id == a));
    assert!(review.decision(&a).is_none());
    assert!(review.plan(0).actions.is_empty(), "an executed decision must not linger in the next plan");
}

#[test]
fn execute_skips_a_drifted_decision_and_never_applies_stale_content() {
    let a = id("a.foo");
    let mut review = open(seeded_storage());
    review.decide(a.clone(), Decision::Promote { to: Stage::Checked }, T);
    review.decide(id("b.foo"), Decision::Promote { to: Stage::Checked }, T);
    let plan = review.plan(0);
    review
        .storage_mut()
        .write(&a, ArtifactLocation::Stage(Stage::Output), &signed_bytes("a.foo", "{9+9;}", "{9+9;}", ""))
        .unwrap();
    let report = review.execute(&plan, &checked_key(), T).unwrap();
    assert_eq!(report.skipped, vec![a.clone()]);
    assert_eq!(report.executed.len(), 1);
    assert_eq!(report.executed[0].id, id("b.foo"));
    assert!(review.storage().read(&a, ArtifactLocation::Stage(Stage::Checked)).unwrap().is_none());
}

#[test]
fn execute_promote_to_verified_without_key_errors() {
    let a = id("a.foo");
    let mut review = open(seeded_storage());
    review.decide(a.clone(), Decision::Promote { to: Stage::Verified }, T);
    let plan = review.plan(0);
    let err = review.execute(&plan, &checked_key(), T).unwrap_err();
    assert_eq!(err, EinmoError::NoKey("promoting to verified needs a verified-stage key (1 case(s) pending)".to_string()));
    assert!(review.storage().read(&a, ArtifactLocation::Stage(Stage::Verified)).unwrap().is_none());
    assert_eq!(review.decision(&a), Some(Decision::Promote { to: Stage::Verified }));
}

#[test]
fn execute_reports_non_human_for_a_computer_key_verified_promotion() {
    let a = id("a.foo");
    let mut review = open(seeded_storage());
    review.decide(a.clone(), Decision::Promote { to: Stage::Verified }, T);
    let plan = review.plan(0);
    let keys = SignerSet { to_checked: KeySource::from_passphrase(""), to_verified: Some(KeySource::from_passphrase("")) };
    let report = review.execute(&plan, &keys, T).unwrap();
    assert_eq!(report.executed.len(), 1);
    assert!(report.executed[0].non_human);
}

#[test]
fn execute_logs_one_execute_batch_entry() {
    let a = id("a.foo");
    let mut review = open(seeded_storage());
    review.decide(a.clone(), Decision::Promote { to: Stage::Checked }, T);
    review.decide(id("b.foo"), Decision::Retract { from: Stage::Checked }, T);
    let plan = review.plan(0);
    review.take_journal();
    let report = review.execute(&plan, &checked_key(), T).unwrap();
    assert_eq!(report.skipped, vec![id("b.foo")]);
    let lines = review.take_journal();
    assert_eq!(lines.len(), 1);
    match &lines[0].event {
        JournalEvent::ExecuteBatch { executed, skipped } => {
            assert_eq!(executed, &vec!["a.foo".to_string()]);
            assert_eq!(skipped, &vec!["b.foo".to_string()]);
        }
        other => panic!("expected ExecuteBatch, got {other:?}"),
    }
}

#[test]
fn execute_flag_moves_and_writes_advisory() {
    let a = id("a.foo");
    let mut review = open(seeded_storage());
    review.decide(a.clone(), Decision::Flag { stage: Stage::Output, reason: "bad".into() }, T);
    let plan = review.plan(0);
    let report = review.execute(&plan, &checked_key(), T).unwrap();
    assert_eq!(report.executed[0].detail, "flagged from output");
    assert!(review.storage().read(&a, ArtifactLocation::Stage(Stage::Output)).unwrap().is_none());
    let bytes = review.storage().read(&a, ArtifactLocation::Flagged(Stage::Output)).unwrap().unwrap();
    let f = EinmoFile::parse(&bytes).unwrap();
    assert!(f.advisory().unwrap().contains("bad"));
}

#[test]
fn flag_now_clears_any_pending_decision() {
    let a = id("a.foo");
    let mut review = open(seeded_storage());
    review.decide(a.clone(), Decision::Promote { to: Stage::Checked }, T);
    review.flag_now(&a, Stage::Output, "actually no", T).unwrap();
    assert_eq!(review.decision(&a), None);
}

#[test]
fn flag_now_errors_when_stage_has_nothing_for_id() {
    let mut review = open(seeded_storage());
    assert!(review.flag_now(&id("a.foo"), Stage::Checked, "n/a", T).is_err());
}

#[test]
fn retract_now_errors_when_stage_has_nothing_for_id() {
    let mut review = open(seeded_storage());
    assert!(review.retract_now(&id("a.foo"), Stage::Checked).is_err());
}

#[test]
fn retract_now_refuses_output_stage() {
    let mut review = open(seeded_storage());
    assert!(matches!(review.retract_now(&id("a.foo"), Stage::Output), Err(EinmoError::Config(_))));
}

#[test]
fn retract_now_cascades_checked_to_verified() {
    let a = id("a.foo");
    let mut storage = seeded_storage();
    let bytes = signed_bytes("a.foo", "{1+1;}", "{1+1;}", "");
    storage.write(&a, ArtifactLocation::Stage(Stage::Checked), &bytes).unwrap();
    storage.write(&a, ArtifactLocation::Stage(Stage::Verified), &bytes).unwrap();
    let mut review = open(storage);
    review.retract_now(&a, Stage::Checked).unwrap();
    assert!(review.storage().read(&a, ArtifactLocation::Stage(Stage::Checked)).unwrap().is_none());
    assert!(review.storage().read(&a, ArtifactLocation::Stage(Stage::Verified)).unwrap().is_none());
    assert!(review.storage().read(&a, ArtifactLocation::Stage(Stage::Output)).unwrap().is_some());
}

#[test]
fn journal_path_names_the_session() {
    let review = open(seeded_storage());
    assert_eq!(review.journal_path(), "session-1.jsonl");
}

/// The seeded suite with both cases promoted output to checked under the
/// computer key.
fn promoted_to_checked() -> InMemoryStorage {
    let mut storage = seeded_storage();
    for rel in ["a.foo", "b.foo"] {
        EinmoCase::new(id(rel))
            .promote(&mut storage, Stage::Output, Stage::Checked, &StageKeypair::derive(""), T)
            .unwrap();
    }
    storage
}

/// As `promoted_to_checked`, then on to verified.
fn promoted_to_verified() -> InMemoryStorage {
    let mut storage = promoted_to_checked();
    for rel in ["a.foo", "b.foo"] {
        EinmoCase::new(id(rel))
            .promote(&mut storage, Stage::Checked, Stage::Verified, &StageKeypair::derive(""), T)
            .unwrap();
    }
    storage
}

fn present(review: &EinmoReview<InMemoryStorage>, rel: &str, stage: Stage) -> bool {
    review.storage().read(&id(rel), ArtifactLocation::Stage(stage)).unwrap().is_some()
}

#[test]
fn diff_excludes_stamps_section() {
    let mut review = open(promoted_to_checked());
    let hunks = review.diff(&id("a.foo"), Stage::Output, Stage::Checked, T).unwrap();
    assert!(!hunks.sections.iter().any(|s| s.name == "STAMPS"));
}

#[test]
fn diff_is_all_equal_when_stage_bodies_match() {
    let mut review = open(promoted_to_checked());
    let hunks = review.diff(&id("a.foo"), Stage::Output, Stage::Checked, T).unwrap();
    assert!(!hunks.sections.is_empty());
    for section in &hunks.sections {
        assert!(
            section.lines.iter().all(|l| matches!(l, DiffLine::Equal(_))),
            "section {:?} should be all-Equal when bodies match: {:?}",
            section.name,
            section.lines
        );
    }
}

#[test]
fn diff_reports_line_level_changes_between_differing_stages() {
    let mut storage = promoted_to_checked();
    // Regenerated output for a changed input.
    storage.write(&id("a.foo"), ArtifactLocation::Input, b"{3+3;}").unwrap();
    storage
        .write(&id("a.foo"), ArtifactLocation::Stage(Stage::Output), &signed_bytes("a.foo", "{3+3;}", "{3+3;}", ""))
        .unwrap();
    let mut review = open(storage);
    let hunks = review.diff(&id("a.foo"), Stage::Output, Stage::Checked, T).unwrap();
    let output_section = hunks.sections.iter().find(|s| s.name == "OUTPUT").expect("OUTPUT section present on both sides");
    assert!(
        output_section.lines.iter().any(|l| matches!(l, DiffLine::Removed(_) | DiffLine::Added(_))),
        "differing OUTPUT bodies must produce a non-Equal line: {:?}",
        output_section.lines
    );
}

#[test]
fn execute_missing_verified_key_aborts_the_whole_batch_untouched() {
    let mut storage = promoted_to_checked();
    let a = id("a.foo");
    let b = id("b.foo");
    // b.foo back out of checked, so promoting it again is a real write.
    EinmoCase::new(b.clone()).retract(&mut storage, Stage::Checked).unwrap();
    let mut review = open(storage);

    review.decide(a.clone(), Decision::Promote { to: Stage::Verified }, T);
    review.decide(b.clone(), Decision::Promote { to: Stage::Checked }, T);
    let plan = review.plan(0);
    assert_eq!(plan.actions.len(), 2);

    let keys = SignerSet { to_checked: KeySource::from_passphrase(""), to_verified: None };
    let err = review.execute(&plan, &keys, T).unwrap_err();
    assert!(matches!(err, EinmoError::NoKey(_)));

    assert!(
        !present(&review, "b.foo", Stage::Checked),
        "b.foo's (Output, Checked) group must not be applied when a.foo's (Checked, Verified) group in the SAME batch is missing its key"
    );
    assert!(!present(&review, "a.foo", Stage::Verified), "a.foo must not be (partially) promoted to verified either");
    assert_eq!(review.decision(&a), Some(Decision::Promote { to: Stage::Verified }));
    assert_eq!(review.decision(&b), Some(Decision::Promote { to: Stage::Checked }));
}

#[test]
fn execute_reports_non_human_for_a_computer_key_verified_promotion_but_not_a_real_one() {
    let mut review = open(promoted_to_checked());
    let a = id("a.foo");
    let b = id("b.foo");

    review.decide(a.clone(), Decision::Promote { to: Stage::Verified }, T);
    let computer_keys = SignerSet { to_checked: KeySource::from_passphrase(""), to_verified: Some(KeySource::from_passphrase("")) };
    let plan = review.plan(0);
    let computer_report = review.execute(&plan, &computer_keys, T).unwrap();
    assert_eq!(computer_report.executed.len(), 1);
    assert!(computer_report.executed[0].non_human, "empty-passphrase verified promotion must report non_human: true");

    review.decide(b.clone(), Decision::Promote { to: Stage::Verified }, T);
    let human_keys = SignerSet {
        to_checked: KeySource::from_passphrase(""),
        to_verified: Some(KeySource::from_passphrase("a-real-passphrase")),
    };
    let plan = review.plan(0);
    let human_report = review.execute(&plan, &human_keys, T).unwrap();
    assert_eq!(human_report.executed.len(), 1);
    assert!(!human_report.executed[0].non_human, "a real passphrase's verified promotion is a human attestation");
}

#[test]
fn execute_retract_from_verified_removes_only_verified() {
    let mut review = open(promoted_to_verified());
    review.decide(id("a.foo"), Decision::Retract { from: Stage::Verified }, T);
    let plan = review.plan(0);
    let report = review.execute(&plan, &checked_key(), T).unwrap();
    assert_eq!(report.executed.len(), 1);
    assert!(!present(&review, "a.foo", Stage::Verified), "verified artifact must be removed");
    assert!(present(&review, "a.foo", Stage::Checked), "checked baseline must survive - verified is the top of the chain");
}

#[test]
fn execute_retract_matches_cli_retract_and_cascades() {
    let mut review = open(promoted_to_verified());
    assert!(present(&review, "a.foo", Stage::Verified));
    review.decide(id("a.foo"), Decision::Retract { from: Stage::Checked }, T);
    let plan = review.plan(0);
    let report = review.execute(&plan, &checked_key(), T).unwrap();
    assert_eq!(report.executed.len(), 1);
    assert!(!present(&review, "a.foo", Stage::Checked), "checked artifact removed");
    assert!(!present(&review, "a.foo", Stage::Verified), "cascade must remove the verified artifact too");
}

#[test]
fn decide_and_undecide_are_journaled() {
    let mut review = open(seeded_storage());
    let a = id("a.foo");
    review.decide(a.clone(), Decision::Skip, T);
    review.undecide(&a, T);

    let lines = review.take_journal();
    let decided = lines.iter().any(|l| matches!(&l.event, JournalEvent::Decide { id: eid, .. } if eid == a.as_str()));
    let undecided = lines.iter().any(|l| matches!(&l.event, JournalEvent::Undecide { id: eid } if eid == a.as_str()));
    assert!(decided, "decide() must be journaled: {lines:?}");
    assert!(undecided, "undecide() must be journaled: {lines:?}");
}

#[test]
fn open_writes_a_session_open_entry() {
    let mut review = open(seeded_storage());
    let session = review.session_id().to_string();
    let lines = review.take_journal();
    assert!(lines.iter().any(|l| matches!(&l.event, JournalEvent::SessionOpen { session: s, .. } if *s == session)));
}

#[test]
fn retract_now_clears_any_pending_decision() {
    let mut review = open(promoted_to_checked());
    let a = id("a.foo");
    review.decide(a.clone(), Decision::Promote { to: Stage::Verified }, T);
    review.retract_now(&a, Stage::Checked).unwrap();
    let items = review.items().unwrap();
    let item = items.iter().find(|i| i.id == a).unwrap();
    assert_eq!(item.decision, None);
}

#[test]
fn retract_now_is_atomic_no_decide_or_execute_needed() {
    let mut review = open(promoted_to_checked());
    review.retract_now(&id("a.foo"), Stage::Checked).unwrap();
    assert!(!present(&review, "a.foo", Stage::Checked));
}

#[test]
fn new_or_broken_excludes_cases_whose_verified_stage_is_simply_unpopulated_p1_repro() {
    let review = open_with(promoted_to_checked(), ReviewOpts { mode: ReviewMode::NewOrBroken, filter: None });
    let items = review.items().unwrap();
    assert!(
        items.is_empty(),
        "output and checked agree for every case; an unpopulated verified/ must not make NewOrBroken report anything: {:?}",
        items.iter().map(|i| i.id.as_str().to_string()).collect::<Vec<_>>()
    );
}

#[test]
fn execute_derives_stage_key_once_per_batch_not_per_case() {
    let mut storage = InMemoryStorage::new();
    for i in 0..5 {
        let rel = format!("case{i}.foo");
        storage.write(&id(&rel), ArtifactLocation::Input, b"{1+1;}").unwrap();
        storage
            .write(&id(&rel), ArtifactLocation::Stage(Stage::Output), &signed_bytes(&rel, "{1+1;}", "{1+1;}", ""))
            .unwrap();
    }
    let mut review = open(storage);
    for i in 0..5 {
        review.decide(id(&format!("case{i}.foo")), Decision::Promote { to: Stage::Checked }, T);
    }
    let plan = review.plan(0);
    assert_eq!(plan.actions.len(), 5);

    let keys = SignerSet { to_checked: KeySource::from_passphrase("a-non-empty-batch-passphrase"), to_verified: None };
    let start = std::time::Instant::now();
    let report = review.execute(&plan, &keys, T).unwrap();
    let elapsed = start.elapsed();

    assert_eq!(report.executed.len(), 5);
    assert!(report.skipped.is_empty());
    assert!(
        elapsed < std::time::Duration::from_secs(5),
        "5-case batch took {elapsed:?} - looks like the stage key was derived per case instead of once for the whole (from, to) group"
    );
}

#[test]
fn retract_now_of_an_empty_stage_removes_nothing_downstream() {
    let a = id("a.foo");
    let mut storage = seeded_storage();
    let bytes = signed_bytes("a.foo", "{1+1;}", "{1+1;}", "");
    storage.write(&a, ArtifactLocation::Stage(Stage::Verified), &bytes).unwrap();
    let mut review = open(storage);
    assert!(matches!(review.retract_now(&a, Stage::Checked), Err(EinmoError::Io { not_found: true, .. })));
    assert!(review.storage().read(&a, ArtifactLocation::Stage(Stage::Verified)).unwrap().is_some());
}

#[test]
fn flag_now_of_an_absent_stage_is_not_found_and_writes_nothing() {
    let a = id("a.foo");
    let mut review = open(seeded_storage());
    assert!(matches!(review.flag_now(&a, Stage::Checked, "why", T), Err(EinmoError::Io { not_found: true, .. })));
    assert!(review.storage().read(&a, ArtifactLocation::Flagged(Stage::Checked)).unwrap().is_none());
}

#[test]
fn diff_against_an_absent_stage_is_not_found() {
    let mut review = open(seeded_storage());
    assert!(matches!(
        review.diff(&id("a.foo"), Stage::Output, Stage::Checked, T),
        Err(EinmoError::Io { not_found: true, .. })
    ));
}

#[test]
fn stage_keys_are_stable_per_passphrase_and_distinct_across_passphrases() {
    let a = StageKeypair::derive("correct horse");
    let b = StageKeypair::derive("correct horse");
    let c = StageKeypair::derive("battery staple");
    assert_eq!(a.pubkey_hex(), b.pubkey_hex());
    assert_ne!(a.pubkey_hex(), c.pubkey_hex());
}
