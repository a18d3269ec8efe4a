use einmo::journal::{journal_path, JournalDecision, JournalLevel};
use einmo::review::Decision;
use einmo::Stage;

#[test]
fn journal_level_orders_terse_normal_fine() {
    assert!(JournalLevel::Terse.lt(&JournalLevel::Normal));
    assert!(JournalLevel::Normal.lt(&JournalLevel::Fine));
    assert_eq!(JournalLevel::default_level(), JournalLevel::Normal);
}

#[test]
fn journal_level_records_only_at_or_below_its_own_level() {
    assert!(JournalLevel::Normal.records(JournalLevel::Terse));
    assert!(JournalLevel::Normal.records(JournalLevel::Normal));
    assert!(!JournalLevel::Normal.records(JournalLevel::Fine));
    assert!(!JournalLevel::Terse.records(JournalLevel::Normal));
}

#[test]
fn journal_path_is_the_session_id_with_jsonl() {
    assert_eq!(journal_path("abc123"), "abc123.jsonl");
}

#[test]
fn journal_decision_round_trips_through_its_wire_form() {
    for decision in [
        Decision::Promote { to: Stage::Checked },
        Decision::Retract { from: Stage::Checked },
        Decision::Flag { stage: Stage::Output, reason: "looks wrong".into() },
        Decision::Skip,
    ] {
        let wire = JournalDecision::from_decision(&decision);
        assert_eq!(wire.into_decision().unwrap(), decision);
    }
}

#[test]
fn log_at_respects_the_configured_level() {
    // A Terse journal drops a Fine-level event and keeps a Terse one.
    let journal = JournalLevel::Terse;
    assert!(!journal.records(JournalLevel::Fine), "the Fine-level event must be dropped by a Terse journal");
    assert!(journal.records(JournalLevel::Terse));
}
