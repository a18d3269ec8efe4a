use einmo::cli::{files_ref, flags_fail_the_gate, parse_transition, resolve_files_from_iter, split_promote_args};
use einmo::Stage;

fn strs(v: &[&str]) -> Vec<String> {
    v.iter().map(|s| s.to_string()).collect()
}

#[test]
fn parse_transition_ok_and_errors() {
    assert_eq!(parse_transition("output:checked").unwrap(), (Stage::Output, Stage::Checked));
    assert!(parse_transition("output>checked").is_err());
    assert!(parse_transition("output:bogus").is_err());
}

#[test]
fn transition_accepts_redirect_safe_separators() {
    let want = (Stage::Checked, Stage::Verified);
    assert_eq!(parse_transition("checked:verified").unwrap(), want);
    assert_eq!(parse_transition("checked..verified").unwrap(), want);
    assert!(parse_transition("checked->verified").is_err());
}

#[test]
fn transition_halves_are_trimmed() {
    assert_eq!(parse_transition(" output : checked ").unwrap(), (Stage::Output, Stage::Checked));
}

#[test]
fn split_promote_spaced_and_glued_agree() {
    let want = (Stage::Checked, Stage::Verified);
    let (f, t, dir, files) = split_promote_args(&strs(&["checked", "to", "verified", "suite", "a.einmo"])).unwrap();
    assert_eq!((f, t), want);
    assert_eq!(dir, "suite");
    assert_eq!(files, vec!["a.einmo".to_string()]);

    assert_eq!(
        split_promote_args(&strs(&["checked", "TO", "verified", "suite"])).map(|(f, t, _, _)| (f, t)).unwrap(),
        want
    );

    for glued in ["checked:verified", "checked..verified"] {
        let (f, t, dir, files) = split_promote_args(&strs(&[glued, "suite"])).unwrap();
        assert_eq!((f, t), want, "{glued}");
        assert_eq!(dir, "suite");
        assert!(files.is_empty());
    }

    assert!(split_promote_args(&strs(&["checked->verified", "suite"])).is_err());
}

#[test]
fn split_promote_missing_work_dir_is_an_error() {
    assert!(split_promote_args(&strs(&["checked", "to", "verified"])).is_err());
    assert!(split_promote_args(&strs(&["checked:verified"])).is_err());
}

#[test]
fn flags_fail_the_gate_by_default() {
    assert!(flags_fail_the_gate(1, false));
    assert!(flags_fail_the_gate(3, false));
}

#[test]
fn flags_do_not_fail_the_gate_when_downgraded() {
    assert!(!flags_fail_the_gate(1, true));
    assert!(!flags_fail_the_gate(3, true));
}

#[test]
fn no_flags_never_fails_the_gate_either_way() {
    assert!(!flags_fail_the_gate(0, false));
    assert!(!flags_fail_the_gate(0, true));
}

#[test]
fn resolve_files_from_iter_empty() {
    assert!(resolve_files_from_iter(Vec::new(), Vec::new()).is_empty());
}

#[test]
fn resolve_files_from_iter_no_dash() {
    let files = strs(&["a.einmo", "b.einmo"]);
    let out = resolve_files_from_iter(files.clone(), strs(&["c"]));
    assert_eq!(out, files);
}

#[test]
fn resolve_files_from_iter_dash_replaced_by_stdin() {
    let out = resolve_files_from_iter(strs(&["-"]), strs(&["a.einmo", "b.einmo"]));
    assert_eq!(out, strs(&["a.einmo", "b.einmo"]));
}

#[test]
fn resolve_files_from_iter_dash_mixed_with_files() {
    let out = resolve_files_from_iter(strs(&["pre.einmo", "-", "post.einmo"]), strs(&["a.einmo", "b.einmo"]));
    assert_eq!(out, strs(&["pre.einmo", "a.einmo", "b.einmo", "post.einmo"]));
}

#[test]
fn resolve_files_from_iter_skips_blank_lines() {
    let out = resolve_files_from_iter(strs(&["-"]), strs(&["a.einmo", "", "  ", "b.einmo"]));
    assert_eq!(out, strs(&["a.einmo", "b.einmo"]));
}

#[test]
fn files_ref_empty_is_none() {
    let none: Vec<String> = Vec::new();
    assert!(files_ref(&none).is_none());
    let v = strs(&["a.einmo"]);
    assert_eq!(files_ref(&v), Some(v.as_slice()));
}

#[test]
fn cli_promote_spaced_form_parses() {
    let (f, t, dir, files) = split_promote_args(&strs(&["checked", "to", "verified", "/tmp/s", "x.einmo"])).unwrap();
    assert_eq!((f, t), (Stage::Checked, Stage::Verified));
    assert_eq!(dir, "/tmp/s");
    assert_eq!(files, vec!["x.einmo".to_string()]);
}

#[test]
fn cli_promote_collects_positional_args() {
    let (f, t, dir, files) = split_promote_args(&strs(&["output:checked", "/tmp/s", "a.einmo", "b.einmo"])).unwrap();
    assert_eq!((f, t), (Stage::Output, Stage::Checked));
    assert_eq!(dir, "/tmp/s");
    assert_eq!(files, vec!["a.einmo".to_string(), "b.einmo".to_string()]);
}

#[test]
fn cli_promote_no_files_is_empty() {
    let (_, _, _, files) = split_promote_args(&strs(&["output:checked", "/tmp/s"])).unwrap();
    assert!(files.is_empty());
}
