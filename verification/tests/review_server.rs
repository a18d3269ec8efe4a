use einmo::review::{ActiveClaim, Decision, DiffLine, ExecutionPlan, PlannedAction, SectionDiff};
use einmo::review_server::{
    execute_confirmed, execute_keys, ApiError, ClaimRequest, DecidableStage, DecisionRequest, DiffLineResponse,
    PlanResponse, PlannedActionResponse, ReviewEvent, SectionDiffResponse, SessionId,
};
use einmo::review_server::{tcp_admission, TcpAdmission};
use einmo::{EinmoError, EinmoId, Stage};

#[test]
fn session_id_renders_sixteen_lowercase_hex_digits() {
    assert_eq!(SessionId(0).to_hex(), "0000000000000000");
    assert_eq!(SessionId(255).to_hex(), "00000000000000ff");
    assert_eq!(SessionId(u64::MAX).to_hex(), "ffffffffffffffff");
    assert_eq!(SessionId(0x0123_4567_89ab_cdef).to_hex(), "0123456789abcdef");
}

#[test]
fn session_id_parses_what_it_renders() {
    for v in [0u64, 1, 42, 0xdead_beef, u64::MAX] {
        let id = SessionId(v);
        assert_eq!(SessionId::parse_hex(&id.to_hex()), Some(id));
    }
    assert_eq!(SessionId::parse_hex("FF"), Some(SessionId(255)));
    assert_eq!(SessionId::parse_hex("+a"), Some(SessionId(10)));
}

#[test]
fn session_id_rejects_non_hex_and_overflow() {
    assert_eq!(SessionId::parse_hex(""), None);
    assert_eq!(SessionId::parse_hex("+"), None);
    assert_eq!(SessionId::parse_hex("xyz"), None);
    assert_eq!(SessionId::parse_hex("10000000000000000"), None);
}

#[test]
fn api_errors_map_to_status_codes() {
    assert_eq!(ApiError::UnknownSession(SessionId(1)).status_code(), 404);
    assert_eq!(ApiError::UnknownCase("a.foo".into()).status_code(), 404);
    assert_eq!(ApiError::BadRequest("x".into()).status_code(), 400);
    assert_eq!(ApiError::from_einmo(EinmoError::InvalidId("x".into())).status_code(), 400);
    assert_eq!(ApiError::from_einmo(EinmoError::NoKey("x".into())).status_code(), 400);
    assert_eq!(ApiError::from_einmo(EinmoError::Config("x".into())).status_code(), 400);
    assert_eq!(ApiError::from_einmo(EinmoError::Verification("x".into())).status_code(), 422);
    let missing = EinmoError::Io { path: "p".into(), message: "m".into(), not_found: true };
    assert_eq!(ApiError::from_einmo(missing).status_code(), 404);
    let broken = EinmoError::Io { path: "p".into(), message: "m".into(), not_found: false };
    assert_eq!(ApiError::from_einmo(broken).status_code(), 500);
    assert_eq!(ApiError::from_einmo(EinmoError::Parse("x".into())).status_code(), 500);
}

#[test]
fn api_error_messages() {
    assert_eq!(ApiError::UnknownSession(SessionId(10)).to_string(), "no such session: 000000000000000a");
    assert_eq!(ApiError::UnknownCase("a.foo".into()).to_string(), "no such case: a.foo");
    assert_eq!(ApiError::BadRequest("nope".into()).to_string(), "bad request: nope");
    let e = EinmoError::Config("bad".into());
    assert_eq!(ApiError::from_einmo(e.clone()).to_string(), e.to_string());
}

#[test]
fn decision_requests_name_decisions() {
    assert_eq!(DecisionRequest::Promote { to: DecidableStage::Checked }.into_decision(), Decision::Promote { to: Stage::Checked });
    assert_eq!(
        DecisionRequest::Retract { from: DecidableStage::Verified }.into_decision(),
        Decision::Retract { from: Stage::Verified }
    );
    assert_eq!(
        DecisionRequest::Flag { stage: DecidableStage::Checked, reason: "r".into() }.into_decision(),
        Decision::Flag { stage: Stage::Checked, reason: "r".into() }
    );
    assert_eq!(DecisionRequest::Skip.into_decision(), Decision::Skip);
}

#[test]
fn claim_request_ttl() {
    assert_eq!(ClaimRequest { ttl_secs: 0 }.ttl_ms(), 300_000);
    assert_eq!(ClaimRequest { ttl_secs: 60 }.ttl_ms(), 60_000);
    assert_eq!(ClaimRequest { ttl_secs: u64::MAX }.ttl_ms(), u64::MAX);
}

#[test]
fn plan_answers_action_for_action() {
    let a = EinmoId::try_from("a.foo").unwrap();
    let plan = ExecutionPlan {
        actions: vec![
            PlannedAction::Promote { id: a.clone(), to: Stage::Checked },
            PlannedAction::Flag { id: a.clone(), stage: Stage::Output, reason: "r".into() },
        ],
        claims: vec![ActiveClaim { id: a.clone(), remaining_ms: 61_999 }],
    };
    let r = PlanResponse::from_plan(plan);
    assert_eq!(
        r.actions,
        vec![
            PlannedActionResponse::Promote { id: "a.foo".into(), to: "checked".into() },
            PlannedActionResponse::Flag { id: "a.foo".into(), stage: "output".into(), reason: "r".into() },
        ]
    );
    assert_eq!(r.claims[0].remaining_secs, 61);
}

#[test]
fn section_diff_answers_line_for_line() {
    let s = SectionDiff {
        name: "OUTPUT".into(),
        lines: vec![DiffLine::Equal("a".into()), DiffLine::Removed("b".into()), DiffLine::Added("c".into())],
    };
    let r = SectionDiffResponse::from_section(s);
    assert_eq!(r.name, "OUTPUT");
    assert_eq!(
        r.lines,
        vec![
            DiffLineResponse::Equal { text: "a".into() },
            DiffLineResponse::Removed { text: "b".into() },
            DiffLineResponse::Added { text: "c".into() },
        ]
    );
}

#[test]
fn execute_needs_the_literal_confirmation_only_for_promotions() {
    let a = EinmoId::try_from("a.foo").unwrap();
    let promote = ExecutionPlan { actions: vec![PlannedAction::Promote { id: a.clone(), to: Stage::Checked }], claims: vec![] };
    assert!(matches!(execute_confirmed(&promote, "yes"), Err(ApiError::BadRequest(_))));
    assert!(execute_confirmed(&promote, "PROMOTE").is_ok());
    let retract = ExecutionPlan { actions: vec![PlannedAction::Retract { id: a, from: Stage::Checked }], claims: vec![] };
    assert!(execute_confirmed(&retract, "").is_ok());
}

#[test]
fn execute_keys_sign_checked_with_the_computer_key() {
    let keys = execute_keys(Some("pw".into()));
    assert_eq!(keys.to_checked.passphrase(), "");
    assert_eq!(keys.to_verified.as_ref().unwrap().passphrase(), "pw");
    assert!(execute_keys(None).to_verified.is_none());
}

#[test]
fn review_event_names() {
    assert_eq!(ReviewEvent::DecisionMade { id: "a".into() }.name(), "decision-made");
    assert_eq!(ReviewEvent::ItemChanged { id: "a".into() }.name(), "item-changed");
    assert_eq!(ReviewEvent::Executed { executed: vec![], skipped: vec![] }.name(), "executed");
}

#[test]
fn tcp_admission_needs_the_exact_bearer_token() {
    assert_eq!(tcp_admission(None, "tok", false, false, "/einmo/x/plan"), TcpAdmission::Unauthorized);
    assert_eq!(tcp_admission(Some("Bearer wrong"), "tok", false, false, "/einmo/x/plan"), TcpAdmission::Unauthorized);
    assert_eq!(tcp_admission(Some("bearer tok"), "tok", false, false, "/einmo/x/plan"), TcpAdmission::Unauthorized);
    assert_eq!(tcp_admission(Some("Bearer tok"), "tok", false, false, "/einmo/x/plan"), TcpAdmission::Pass);
}

#[test]
fn tcp_admission_inspects_only_an_execute_post_without_the_opt_in() {
    let auth = Some("Bearer tok");
    assert_eq!(tcp_admission(auth, "tok", false, true, "/einmo/abc/execute"), TcpAdmission::InspectExecuteBody);
    assert_eq!(tcp_admission(auth, "tok", true, true, "/einmo/abc/execute"), TcpAdmission::Pass);
    assert_eq!(tcp_admission(auth, "tok", false, false, "/einmo/abc/execute"), TcpAdmission::Pass);
    assert_eq!(tcp_admission(auth, "tok", false, true, "/einmo/abc/plan"), TcpAdmission::Pass);
    assert!(einmo::review_server::tcp_passphrase_refusal().starts_with("execute with a verified passphrase is refused over TCP"));
}
