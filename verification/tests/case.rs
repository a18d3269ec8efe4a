use einmo::case::{evaluate_case, EinmoCase, EvaluateOutcome, PromoteOutcome, StagePairAgreement};
use einmo::compare::MatchSections;
use einmo::format::{EinmoFile, Metadata, Section, Status};
use einmo::signature::{StageKeypair, Stamps};
use einmo::{ArtifactLocation, EinmoError, EinmoId, EinmoStorage, InMemoryStorage, Stage};

const TS: &str = "2026-07-12T00:00:00Z";

/// A minimal signed envelope's bytes: the compiled, configured and
/// stage:output chain a fresh output carries.
fn signed_bytes(rel: &str, output: &str, comments: &str) -> Vec<u8> {
    let bodies = vec![Section::new("INPUT", "{5;}"), Section::new("OUTPUT", output), Section::new("COMMENTS", comments)];
    let meta = Metadata {
        test: rel.into(),
        suite: "s".into(),
        producer: "abc".into(),
        producer_diff: String::new(),
        generated: "2026-07-11T07:00:00Z".into(),
        status: Status::Normal,
        status_detail: String::new(),
        reference: String::new(),
        sections: vec!["INPUT".into(), "OUTPUT".into(), "COMMENTS".into(), "STAMPS".into()],
    };
    let mut file = EinmoFile::new("utf-8", "---", meta, bodies, Stamps::new());
    let configured = StageKeypair::derive("cfg");
    let stage = StageKeypair::derive("");
    let stamps = Stamps::generate(&file.signed_prefix(), &configured, &stage, "2026-07-11T07:00:00Z");
    file.set_stamps(stamps);
    file.serialize().unwrap()
}

fn derive(passphrase: &str) -> StageKeypair {
    StageKeypair::derive(passphrase)
}

fn out() -> ArtifactLocation {
    ArtifactLocation::Stage(Stage::Output)
}

fn checked() -> ArtifactLocation {
    ArtifactLocation::Stage(Stage::Checked)
}

fn id(rel: &str) -> EinmoId {
    EinmoId::from_input_rel(rel).unwrap()
}

#[test]
fn agreement_both_absent() {
    let storage = InMemoryStorage::new();
    let case = EinmoCase::new(id("a.foo"));
    let agreement = case.agreement(&storage, &[Stage::Output, Stage::Checked], MatchSections::InputOutput).unwrap();
    assert_eq!(agreement.pair(Stage::Output, Stage::Checked), Some(&StagePairAgreement::BothAbsent));
    assert!(agreement.present.is_empty());
    assert_eq!(agreement.missing, vec![Stage::Output, Stage::Checked]);
}

#[test]
fn agreement_records_the_policy_it_was_computed_under() {
    let storage = InMemoryStorage::new();
    let case = EinmoCase::new(id("a.foo"));
    let agreement = case
        .agreement(&storage, &[Stage::Output, Stage::Checked], MatchSections::InputOutputComments)
        .unwrap();
    assert_eq!(agreement.policy, MatchSections::InputOutputComments);
}

#[test]
fn retract_refuses_output() {
    let mut storage = InMemoryStorage::new();
    let case = EinmoCase::new(id("a.foo"));
    assert!(matches!(case.retract(&mut storage, Stage::Output).unwrap_err(), EinmoError::Config(_)));
}

#[test]
fn retract_of_nothing_reports_nothing() {
    let mut storage = InMemoryStorage::new();
    let case = EinmoCase::new(id("a.foo"));
    assert!(case.retract(&mut storage, Stage::Checked).unwrap().is_empty());
}

#[test]
fn agreement_all_present_and_agree() {
    let mut storage = InMemoryStorage::new();
    let case_id = id("a.foo");
    let bytes = signed_bytes("a.foo", "5", "");
    storage.write(&case_id, out(), &bytes).unwrap();
    storage.write(&case_id, checked(), &bytes).unwrap();

    let case = EinmoCase::new(case_id);
    let agreement = case.agreement(&storage, &[Stage::Output, Stage::Checked], MatchSections::InputOutput).unwrap();
    assert_eq!(agreement.pair(Stage::Output, Stage::Checked), Some(&StagePairAgreement::Agree));
    assert_eq!(agreement.pair(Stage::Checked, Stage::Output), Some(&StagePairAgreement::Agree));
    assert_eq!(agreement.present, vec![Stage::Output, Stage::Checked]);
    assert!(agreement.missing.is_empty());
}

#[test]
fn agreement_differ_reports_the_diverged_section_names() {
    let mut storage = InMemoryStorage::new();
    let case_id = id("a.foo");
    storage.write(&case_id, out(), &signed_bytes("a.foo", "5", "")).unwrap();
    storage.write(&case_id, checked(), &signed_bytes("a.foo", "6", "")).unwrap();

    let case = EinmoCase::new(case_id);
    let agreement = case.agreement(&storage, &[Stage::Output, Stage::Checked], MatchSections::InputOutput).unwrap();
    assert_eq!(
        agreement.pair(Stage::Output, Stage::Checked),
        Some(&StagePairAgreement::Differ { sections: vec!["OUTPUT".to_string()] })
    );
}

#[test]
fn agreement_one_sided_reports_which_side_is_present_both_directions() {
    let mut storage = InMemoryStorage::new();
    let case_id = id("a.foo");
    storage.write(&case_id, out(), &signed_bytes("a.foo", "5", "")).unwrap();

    let case = EinmoCase::new(case_id);
    let agreement = case.agreement(&storage, &[Stage::Output, Stage::Checked], MatchSections::InputOutput).unwrap();
    assert_eq!(
        agreement.pair(Stage::Output, Stage::Checked),
        Some(&StagePairAgreement::OneSided { present: Stage::Output, absent: Stage::Checked })
    );
    assert_eq!(
        agreement.pair(Stage::Checked, Stage::Output),
        Some(&StagePairAgreement::OneSided { present: Stage::Output, absent: Stage::Checked })
    );
    assert_eq!(agreement.present, vec![Stage::Output]);
    assert_eq!(agreement.missing, vec![Stage::Checked]);
}

#[test]
fn agreement_tampered_is_never_folded_into_differ() {
    let mut storage = InMemoryStorage::new();
    let case_id = id("a.foo");
    storage.write(&case_id, out(), &signed_bytes("a.foo", "5", "")).unwrap();
    storage.write(&case_id, checked(), b"not a valid einmo envelope").unwrap();

    let case = EinmoCase::new(case_id);
    let agreement = case.agreement(&storage, &[Stage::Output, Stage::Checked], MatchSections::InputOutput).unwrap();
    assert_eq!(
        agreement.pair(Stage::Output, Stage::Checked),
        Some(&StagePairAgreement::Tampered { stages: vec![Stage::Checked] })
    );
}

#[test]
fn agreement_p1_repro_unpopulated_verified_does_not_affect_output_checked_agreement() {
    let mut storage = InMemoryStorage::new();
    let case_id = id("a.foo");
    let bytes = signed_bytes("a.foo", "5", "");
    storage.write(&case_id, out(), &bytes).unwrap();
    storage.write(&case_id, checked(), &bytes).unwrap();

    let case = EinmoCase::new(case_id);
    let agreement = case.agreement(&storage, &[Stage::Output, Stage::Checked], MatchSections::InputOutput).unwrap();
    assert_eq!(agreement.pair(Stage::Output, Stage::Checked), Some(&StagePairAgreement::Agree));
}

#[test]
fn agreement_comments_repro_policy_controls_whether_comments_only_divergence_counts() {
    let mut storage = InMemoryStorage::new();
    let case_id = id("a.foo");
    storage.write(&case_id, out(), &signed_bytes("a.foo", "5", "looks fine")).unwrap();
    storage.write(&case_id, checked(), &signed_bytes("a.foo", "5", "actually reconsider this")).unwrap();

    let case = EinmoCase::new(case_id);
    let under_input_output =
        case.agreement(&storage, &[Stage::Output, Stage::Checked], MatchSections::InputOutput).unwrap();
    assert_eq!(
        under_input_output.pair(Stage::Output, Stage::Checked),
        Some(&StagePairAgreement::Agree),
        "COMMENTS is not policy-required under InputOutput"
    );
    let under_input_output_comments =
        case.agreement(&storage, &[Stage::Output, Stage::Checked], MatchSections::InputOutputComments).unwrap();
    assert_eq!(
        under_input_output_comments.pair(Stage::Output, Stage::Checked),
        Some(&StagePairAgreement::Differ { sections: vec!["COMMENTS".to_string()] })
    );
}

fn stamp_keys(file: &EinmoFile) -> Vec<String> {
    file.stamps().entries().iter().map(|s| s.key().to_string()).collect()
}

#[test]
fn promote_writes_a_fresh_baseline_when_destination_absent() {
    let mut storage = InMemoryStorage::new();
    let case_id = id("a.foo");
    storage.write(&case_id, out(), &signed_bytes("a.foo", "5", "")).unwrap();

    let case = EinmoCase::new(case_id);
    let outcome = case.promote(&mut storage, Stage::Output, Stage::Checked, &derive(""), TS).unwrap();
    assert_eq!(outcome, PromoteOutcome::Promoted { non_human: false, passphrase_score: None });

    let checked_file = case.read(&storage, checked()).unwrap().expect("destination must now exist");
    assert_eq!(stamp_keys(&checked_file), vec!["compiled", "configured", "stage:output", "stage:checked"]);
}

#[test]
fn promote_cosigns_when_destination_content_matches() {
    let mut storage = InMemoryStorage::new();
    let case_id = id("a.foo");
    storage.write(&case_id, out(), &signed_bytes("a.foo", "5", "")).unwrap();
    let case = EinmoCase::new(case_id);
    case.promote(&mut storage, Stage::Output, Stage::Checked, &derive("signer-one"), TS).unwrap();

    let outcome = case.promote(&mut storage, Stage::Output, Stage::Checked, &derive("signer-two"), TS).unwrap();
    assert_eq!(outcome, PromoteOutcome::CoSigned { non_human: false, passphrase_score: None });

    let checked_file = case.read(&storage, checked()).unwrap().unwrap();
    let count = checked_file.stamps().entries().iter().filter(|s| s.key() == "stage:checked").count();
    assert_eq!(count, 2, "both signers' stage:checked stamps must survive");
}

#[test]
fn promote_already_signed_by_this_key_is_a_true_noop() {
    let mut storage = InMemoryStorage::new();
    let case_id = id("a.foo");
    storage.write(&case_id, out(), &signed_bytes("a.foo", "5", "")).unwrap();
    let case = EinmoCase::new(case_id);
    let key = derive("same-signer");
    case.promote(&mut storage, Stage::Output, Stage::Checked, &key, TS).unwrap();
    let bytes_before = storage.read(case.id(), checked()).unwrap().unwrap();

    let outcome = case.promote(&mut storage, Stage::Output, Stage::Checked, &key, TS).unwrap();
    assert_eq!(outcome, PromoteOutcome::AlreadySigned { non_human: false, passphrase_score: None });
    let bytes_after = storage.read(case.id(), checked()).unwrap().unwrap();
    assert_eq!(bytes_before, bytes_after, "re-promoting unchanged content under the same signer must not touch the file");
}

#[test]
fn promote_genuinely_different_content_writes_a_fresh_baseline_not_a_cosign() {
    let mut storage = InMemoryStorage::new();
    let case_id = id("a.foo");
    storage.write(&case_id, out(), &signed_bytes("a.foo", "5", "")).unwrap();
    storage.write(&case_id, checked(), &signed_bytes("a.foo", "999", "")).unwrap();
    let case = EinmoCase::new(case_id);
    let outcome = case.promote(&mut storage, Stage::Output, Stage::Checked, &derive(""), TS).unwrap();
    assert_eq!(outcome, PromoteOutcome::Promoted { non_human: false, passphrase_score: None });
    let checked_file = case.read(&storage, checked()).unwrap().unwrap();
    assert_eq!(checked_file.section("OUTPUT").unwrap().body(), "5");
}

#[test]
fn promote_deliberate_asymmetry_comments_only_difference_is_not_a_match() {
    let mut storage = InMemoryStorage::new();
    let case_id = id("a.foo");
    storage.write(&case_id, out(), &signed_bytes("a.foo", "5", "the signer's real comment")).unwrap();
    storage.write(&case_id, checked(), &signed_bytes("a.foo", "5", "a stale, different comment")).unwrap();
    let case = EinmoCase::new(case_id);

    let agreement = case.agreement(&storage, &[Stage::Output, Stage::Checked], MatchSections::InputOutput).unwrap();
    assert_eq!(agreement.pair(Stage::Output, Stage::Checked), Some(&StagePairAgreement::Agree));

    let outcome = case.promote(&mut storage, Stage::Output, Stage::Checked, &derive(""), TS).unwrap();
    assert_eq!(
        outcome,
        PromoteOutcome::Promoted { non_human: false, passphrase_score: None },
        "a COMMENTS-only difference must still count as genuinely different content for promote"
    );
    let checked_file = case.read(&storage, checked()).unwrap().unwrap();
    assert_eq!(
        checked_file.section("COMMENTS").unwrap().body(),
        "the signer's real comment",
        "the fresh baseline carries the SOURCE's comment, overwriting the stale one"
    );
}

#[test]
fn promote_flags_non_human_for_the_computer_key_on_verified() {
    let mut storage = InMemoryStorage::new();
    let case_id = id("a.foo");
    storage.write(&case_id, out(), &signed_bytes("a.foo", "5", "")).unwrap();
    let case = EinmoCase::new(case_id);
    let outcome = case.promote(&mut storage, Stage::Output, Stage::Verified, &derive(""), TS).unwrap();
    assert_eq!(outcome, PromoteOutcome::Promoted { non_human: true, passphrase_score: None });
}

#[test]
fn promote_errors_when_source_is_absent() {
    let mut storage = InMemoryStorage::new();
    let case = EinmoCase::new(id("a.foo"));
    let err = case.promote(&mut storage, Stage::Output, Stage::Checked, &derive(""), TS).unwrap_err();
    assert!(matches!(err, EinmoError::Verification(_)));
}

#[test]
fn promote_refuses_an_illegal_transition() {
    let mut storage = InMemoryStorage::new();
    let case_id = id("a.foo");
    storage.write(&case_id, ArtifactLocation::Stage(Stage::Verified), &signed_bytes("a.foo", "5", "")).unwrap();
    let case = EinmoCase::new(case_id);
    let err = case.promote(&mut storage, Stage::Verified, Stage::Output, &derive(""), TS).unwrap_err();
    assert!(matches!(err, EinmoError::IllegalTransition { .. }));
}

#[test]
fn flag_moves_the_artifact_into_the_origin_stages_own_sink() {
    let mut storage = InMemoryStorage::new();
    let case_id = id("a.foo");
    storage.write(&case_id, out(), &signed_bytes("a.foo", "5", "")).unwrap();
    let case = EinmoCase::new(case_id);

    case.flag(&mut storage, Stage::Output, "looks wrong", TS).unwrap();

    assert!(case.read(&storage, out()).unwrap().is_none(), "origin must be vacated");
    let flagged =
        case.read(&storage, ArtifactLocation::Flagged(Stage::Output)).unwrap().expect("flagged sink must hold the artifact");
    assert!(flagged.advisory().unwrap().starts_with("# flagged: looks wrong"));
}

#[test]
fn flag_concatenates_with_an_existing_flagged_note() {
    let mut storage = InMemoryStorage::new();
    let case_id = id("a.foo");
    let case = EinmoCase::new(case_id.clone());

    storage.write(&case_id, out(), &signed_bytes("a.foo", "5", "")).unwrap();
    case.flag(&mut storage, Stage::Output, "first", TS).unwrap();

    storage.write(&case_id, out(), &signed_bytes("a.foo", "5", "")).unwrap();
    case.flag(&mut storage, Stage::Output, "second", TS).unwrap();

    let flagged = case.read(&storage, ArtifactLocation::Flagged(Stage::Output)).unwrap().unwrap();
    let advisory = flagged.advisory().unwrap();
    assert!(advisory.starts_with("# flagged: second"));
    assert!(advisory.contains("# flagged: first"));
}

#[test]
fn retract_checked_cascades_to_verified_and_reports_only_what_existed() {
    let mut storage = InMemoryStorage::new();
    let case_id = id("a.foo");
    let case = EinmoCase::new(case_id.clone());
    storage.write(&case_id, checked(), &signed_bytes("a.foo", "5", "")).unwrap();

    let retracted = case.retract(&mut storage, Stage::Checked).unwrap();
    assert_eq!(retracted, vec![Stage::Checked], "verified was never present, so it must not be reported as retracted");
    assert!(case.read(&storage, checked()).unwrap().is_none());
}

#[test]
fn retract_verified_leaves_checked() {
    let mut storage = InMemoryStorage::new();
    let case_id = id("a.foo");
    let case = EinmoCase::new(case_id.clone());
    let bytes = signed_bytes("a.foo", "5", "");
    storage.write(&case_id, checked(), &bytes).unwrap();
    storage.write(&case_id, ArtifactLocation::Stage(Stage::Verified), &bytes).unwrap();

    let retracted = case.retract(&mut storage, Stage::Verified).unwrap();
    assert_eq!(retracted, vec![Stage::Verified]);
    assert!(case.read(&storage, checked()).unwrap().is_some(), "the checked baseline survives");
}

#[test]
fn promote_refuses_tampered_source() {
    let mut storage = InMemoryStorage::new();
    let case_id = id("a.foo");
    storage.write(&case_id, out(), b"not a valid einmo envelope").unwrap();
    let case = EinmoCase::new(case_id);
    let err = case.promote(&mut storage, Stage::Output, Stage::Checked, &derive(""), TS).unwrap_err();
    assert!(matches!(err, EinmoError::Verification(_) | EinmoError::Parse(_)));
}

fn fresh_output(rel: &str, output: &str) -> EinmoFile {
    let meta = Metadata {
        test: rel.into(),
        suite: "s".into(),
        producer: "abc".into(),
        producer_diff: String::new(),
        generated: TS.into(),
        status: Status::Normal,
        status_detail: String::new(),
        reference: String::new(),
        sections: vec!["INPUT".into(), "OUTPUT".into(), "COMMENTS".into(), "STAMPS".into()],
    };
    let bodies = vec![Section::new("INPUT", "{5;}"), Section::new("OUTPUT", output), Section::new("COMMENTS", "")];
    EinmoFile::new("utf-8", "---", meta, bodies, Stamps::new())
}

#[test]
fn evaluate_writes_a_signed_output_and_keeps_a_differing_baseline_unless_forced() {
    let mut s = InMemoryStorage::new();
    let a = EinmoId::from_input_rel("a.foo").unwrap();
    let (cfg, stage) = (derive("cfg"), derive(""));
    let r = evaluate_case(&mut s, &a, fresh_output("a.foo", "5"), false, &cfg, &stage, TS).unwrap();
    assert_eq!(r, EvaluateOutcome::Written);
    let first = s.read(&a, out()).unwrap().unwrap();
    assert!(einmo::verify::verify_bytes(&first).is_ok());
    let r = evaluate_case(&mut s, &a, fresh_output("a.foo", "5"), false, &cfg, &stage, TS).unwrap();
    assert_eq!(r, EvaluateOutcome::Written);
    let r = evaluate_case(&mut s, &a, fresh_output("a.foo", "6"), false, &cfg, &stage, TS).unwrap();
    assert_eq!(r, EvaluateOutcome::Mismatch);
    assert_eq!(s.read(&a, out()).unwrap().unwrap(), first);
    let r = evaluate_case(&mut s, &a, fresh_output("a.foo", "6"), true, &cfg, &stage, TS).unwrap();
    assert_eq!(r, EvaluateOutcome::Replaced);
    let replaced = einmo::verify::verify_bytes(&s.read(&a, out()).unwrap().unwrap()).unwrap();
    assert_eq!(replaced.section("OUTPUT").unwrap().body(), "6");
}

#[test]
fn agreement_reports_present_missing_and_policy() {
    let mut s = InMemoryStorage::new();
    let a = EinmoId::from_input_rel("a.foo").unwrap();
    s.write(&a, out(), b"not a valid einmo envelope").unwrap();
    let ag = EinmoCase::new(a).agreement(&s, &[Stage::Output, Stage::Checked], MatchSections::InputOutputComments).unwrap();
    assert_eq!(ag.present(), &[Stage::Output]);
    assert_eq!(ag.missing(), &[Stage::Checked]);
    assert_eq!(ag.policy(), MatchSections::InputOutputComments);
}
