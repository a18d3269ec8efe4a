use einmo::review::{Decision, ExecutionPlan, PlannedAction, ReviewMode};
use einmo::review_cli::{
    action_line, confirm_gate, decision_tag, list_opts, parse_decidable_stage, parse_decision, plan_needs_verified_key,
    session_file_path,
};
use einmo::{EinmoId, Stage};

fn toks(v: &[&str]) -> Vec<String> {
    v.iter().map(|s| s.to_string()).collect()
}

#[test]
fn parse_decision_promote_spoken_and_bare() {
    assert_eq!(parse_decision(&toks(&["promote", "to", "checked"])).unwrap(), Decision::Promote { to: Stage::Checked });
    assert_eq!(parse_decision(&toks(&["promote", "verified"])).unwrap(), Decision::Promote { to: Stage::Verified });
    assert_eq!(parse_decision(&toks(&["PROMOTE", "to", "checked"])).unwrap(), Decision::Promote { to: Stage::Checked });
}

#[test]
fn parse_decision_retract_spoken_and_bare() {
    assert_eq!(parse_decision(&toks(&["retract", "from", "verified"])).unwrap(), Decision::Retract { from: Stage::Verified });
    assert_eq!(parse_decision(&toks(&["retract", "checked"])).unwrap(), Decision::Retract { from: Stage::Checked });
}

#[test]
fn parse_decision_flag_joins_reason_words() {
    assert_eq!(
        parse_decision(&toks(&["flag", "checked", "looks", "wrong"])).unwrap(),
        Decision::Flag { stage: Stage::Checked, reason: "looks wrong".to_string() }
    );
}

#[test]
fn parse_decision_flag_needs_a_reason() {
    assert!(parse_decision(&toks(&["flag", "checked"])).is_err());
}

#[test]
fn parse_decision_skip_takes_nothing_else() {
    assert_eq!(parse_decision(&toks(&["skip"])).unwrap(), Decision::Skip);
    assert!(parse_decision(&toks(&["skip", "extra"])).is_err());
}

#[test]
fn parse_decision_rejects_unknown_kind() {
    assert!(parse_decision(&toks(&["frobnicate", "checked"])).is_err());
}

#[test]
fn parse_decision_rejects_empty() {
    assert!(parse_decision(&[]).is_err());
}

#[test]
fn parse_decision_promote_with_a_wrong_keyword_is_an_error() {
    assert!(parse_decision(&toks(&["promote", "from", "checked"])).is_err());
    assert!(parse_decision(&toks(&["promote", "output"])).is_err());
}

#[test]
fn parse_decidable_stage_accepts_only_checked_and_verified() {
    assert_eq!(parse_decidable_stage("checked").unwrap(), Stage::Checked);
    assert_eq!(parse_decidable_stage("verified").unwrap(), Stage::Verified);
    assert!(parse_decidable_stage("output").is_err());
    assert!(parse_decidable_stage("flagged").is_err());
    assert!(parse_decidable_stage("bogus").is_err());
}

#[test]
fn list_opts_maps_differing_to_new_or_broken_mode() {
    let opts = list_opts(true, Some("a.foo".to_string()));
    assert_eq!(opts.mode, ReviewMode::NewOrBroken);
    assert_eq!(opts.filter.as_deref(), Some("a.foo"));
}

#[test]
fn list_opts_defaults_to_full_mode() {
    assert_eq!(list_opts(false, None).mode, ReviewMode::Full);
}

fn promote_plan(to: Stage) -> ExecutionPlan {
    ExecutionPlan { actions: vec![PlannedAction::Promote { id: EinmoId::try_from("a.foo").unwrap(), to }], claims: Vec::new() }
}

#[test]
fn confirm_gate_refuses_a_pending_promotion_without_promote() {
    let plan = promote_plan(Stage::Checked);
    assert!(confirm_gate(&plan, "").is_err());
    assert!(confirm_gate(&plan, "promote").is_err());
}

#[test]
fn confirm_gate_accepts_the_literal_promote_token() {
    assert!(confirm_gate(&promote_plan(Stage::Checked), "PROMOTE").is_ok());
}

#[test]
fn confirm_gate_is_a_noop_with_no_pending_promotion() {
    let plan = ExecutionPlan {
        actions: vec![PlannedAction::Retract { id: EinmoId::try_from("a.foo").unwrap(), from: Stage::Checked }],
        claims: Vec::new(),
    };
    assert!(confirm_gate(&plan, "").is_ok());
}

#[test]
fn plan_needs_verified_key_only_for_verified_promotions() {
    assert!(plan_needs_verified_key(&promote_plan(Stage::Verified)));
    assert!(!plan_needs_verified_key(&promote_plan(Stage::Checked)));
    let empty = ExecutionPlan { actions: Vec::new(), claims: Vec::new() };
    assert!(!plan_needs_verified_key(&empty));
}

#[test]
fn tags_and_lines_read_as_words() {
    assert_eq!(decision_tag(&Decision::Promote { to: Stage::Checked }), "promote to checked");
    assert_eq!(decision_tag(&Decision::Retract { from: Stage::Verified }), "retract from verified");
    assert_eq!(decision_tag(&Decision::Flag { stage: Stage::Checked, reason: "bad".into() }), "flag checked: bad");
    assert_eq!(decision_tag(&Decision::Skip), "skip");
    let a = EinmoId::try_from("a.foo").unwrap();
    assert_eq!(action_line(&PlannedAction::Promote { id: a.clone(), to: Stage::Checked }), "promote a.foo to checked");
    assert_eq!(action_line(&PlannedAction::Retract { id: a.clone(), from: Stage::Checked }), "retract a.foo from checked");
    assert_eq!(
        action_line(&PlannedAction::Flag { id: a, stage: Stage::Output, reason: "r".into() }),
        "flag a.foo at output: r"
    );
}

#[test]
fn session_file_sits_beside_the_socket() {
    assert_eq!(session_file_path("/run/einmo.sock"), "/run/einmo.sock.session");
}
