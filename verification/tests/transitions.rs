use einmo::transitions::{confirm_signatures, glob_match, is_legal_transition, normalize_file_path};
use einmo::format::{EinmoFile, Metadata, Section, Status};
use einmo::signature::{StageKeypair, Stamps};
use einmo::Stage;

#[test]
fn glob_matches_subtree() {
    assert!(glob_match("algorithms/sorting/quick.foo", "algorithms/sorting/*"));
    assert!(!glob_match("algorithms/searching/bin.foo", "algorithms/sorting/*"));
    assert!(glob_match("anything", "*"));
    assert!(glob_match("a/b/c", "*b*"));
}

#[test]
fn glob_match_consecutive_stars_dont_backtrack() {
    assert!(glob_match("hello", "*****hello"));
    assert!(!glob_match("hello", "****x"));
}

#[test]
fn glob_edge_cases() {
    assert!(glob_match("", ""));
    assert!(glob_match("", "*"));
    assert!(!glob_match("", "a"));
    assert!(!glob_match("a", ""));
    assert!(glob_match("abc", "abc"));
    assert!(!glob_match("abc", "ab"));
    assert!(glob_match("caf\u{e9}", "caf*"));
}

#[test]
fn normalize_paths() {
    assert_eq!(normalize_file_path("test.einmo"), "test.einmo");
    assert_eq!(normalize_file_path("sub/test.einmo"), "sub/test.einmo");
    assert_eq!(normalize_file_path("output/test.einmo"), "test.einmo");
    assert_eq!(normalize_file_path("checked/sub/test.einmo"), "sub/test.einmo");
    assert_eq!(normalize_file_path("verified/x.einmo"), "x.einmo");
    assert_eq!(normalize_file_path("test.foo"), "test.foo.einmo");
}

#[test]
fn legal_transitions() {
    assert!(is_legal_transition(Stage::Output, Stage::Checked));
    assert!(is_legal_transition(Stage::Output, Stage::Verified));
    assert!(is_legal_transition(Stage::Checked, Stage::Verified));
    assert!(is_legal_transition(Stage::Verified, Stage::Checked));
    assert!(!is_legal_transition(Stage::Checked, Stage::Output));
    assert!(!is_legal_transition(Stage::Output, Stage::Output));
}

#[test]
fn confirm_signatures_rejects_an_unverifiable_file() {
    let files = vec![("a.foo.einmo".to_string(), b"not an envelope".to_vec())];
    assert!(confirm_signatures(&files, "ab").is_err());
    let empty: Vec<(String, Vec<u8>)> = Vec::new();
    let rep = confirm_signatures(&empty, "ab").unwrap();
    assert!(rep.all_matched());
}

fn output_bytes(rel: &str, output: &str) -> Vec<u8> {
    let bodies = vec![Section::new("INPUT", "{5;}"), Section::new("OUTPUT", output), Section::new("COMMENTS", "")];
    let meta = Metadata {
        test: rel.into(),
        suite: "s".into(),
        producer: "abc".into(),
        producer_diff: String::new(),
        generated: "2026-07-11T07:00:00Z".into(),
        status: Status::Normal,
        status_detail: String::new(),
        reference: String::new(),
        sections: vec!["INPUT".into(), "OUTPUT".into(), "COMMENTS".into(), "STAMPS".into()],
    };
    let mut file = EinmoFile::new("utf-8", "---", meta, bodies, Stamps::new());
    let stamps = Stamps::generate(&file.signed_prefix(), &StageKeypair::derive("cfg"), &StageKeypair::derive(""), "t");
    file.set_stamps(stamps);
    file.serialize().unwrap()
}

#[test]
fn confirm_signatures_matches_prefix() {
    let files = vec![("a.foo.einmo".to_string(), output_bytes("a.foo", "5"))];
    // The output stage key is the empty-passphrase computer key.
    let computer = StageKeypair::derive("").pubkey_hex();
    let prefix = &computer[..8];
    let report = confirm_signatures(&files, prefix).unwrap();
    assert_eq!(report.matched, vec!["a.foo.einmo".to_string()]);
    assert!(report.all_matched());

    let none = confirm_signatures(&files, "ffffffff").unwrap();
    assert!(!none.all_matched());
    assert_eq!(none.unmatched, vec!["a.foo.einmo".to_string()]);
}
