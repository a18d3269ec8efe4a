use einmo::case::EinmoCase;
use einmo::config::KeySource;
use einmo::format::{EinmoFile, Metadata, Section, Status};
use einmo::signature::{StageKeypair, Stamps};
use einmo::directory::DirectoryNode;
use einmo::suite::EinmoSuite;
use einmo::{ArtifactLocation, EinmoError, EinmoId, EinmoStorage, InMemoryStorage, Stage};

fn id(rel: &str) -> EinmoId {
    EinmoId::from_input_rel(rel).unwrap()
}

fn signed_bytes(rel: &str, output: &str) -> Vec<u8> {
    let bodies = vec![Section::new("INPUT", "{5;}"), Section::new("OUTPUT", output), Section::new("COMMENTS", "")];
    let meta = Metadata {
        test: rel.into(),
        suite: "s".into(),
        producer: "abc".into(),
        producer_diff: String::new(),
        generated: "2026-07-11T07:00:00Z".into(),
        status: Status::Normal,
        status_detail: String::new(),
        reference: String::new(),
        sections: vec!["INPUT".into(), "OUTPUT".into(), "COMMENTS".into(), "STAMPS".into()],
    };
    let mut file = EinmoFile::new("utf-8", "---", meta, bodies, Stamps::new());
    let configured = StageKeypair::derive("cfg");
    let stage = StageKeypair::derive("");
    let stamps = Stamps::generate(&file.signed_prefix(), &configured, &stage, "2026-07-11T07:00:00Z");
    file.set_stamps(stamps);
    file.serialize().unwrap()
}

fn three_case_suite() -> EinmoSuite<InMemoryStorage> {
    let mut storage = InMemoryStorage::new();
    for (rel, output) in [("a.foo", "5"), ("b.foo", "6"), ("c.foo", "7")] {
        storage.write(&id(rel), ArtifactLocation::Stage(Stage::Output), &signed_bytes(rel, output)).unwrap();
    }
    EinmoSuite::scan(storage, None).unwrap()
}

#[test]
fn scan_unions_input_and_stages_sorted_and_deduplicated() {
    let mut storage = InMemoryStorage::new();
    storage.write(&id("b.foo"), ArtifactLocation::Input, b"input b").unwrap();
    storage.write(&id("a.foo"), ArtifactLocation::Stage(Stage::Output), b"out a").unwrap();
    storage.write(&id("c.foo"), ArtifactLocation::Input, b"input c").unwrap();
    storage.write(&id("c.foo"), ArtifactLocation::Stage(Stage::Checked), b"checked c").unwrap();
    let suite = EinmoSuite::scan(storage, None).unwrap();
    assert_eq!(suite.ids(), &[id("a.foo"), id("b.foo"), id("c.foo")], "sorted by EinmoId's Ord, deduplicated");
}

#[test]
fn scan_excludes_flagged_sinks() {
    let mut storage = InMemoryStorage::new();
    storage.write(&id("only_flagged.foo"), ArtifactLocation::Flagged(Stage::Output), b"flagged").unwrap();
    let suite = EinmoSuite::scan(storage, None).unwrap();
    assert!(suite.ids().is_empty());
}

#[test]
fn scan_filter_matches_against_the_id_not_a_dot_einmo_suffix() {
    let mut storage = InMemoryStorage::new();
    storage.write(&id("algorithms/sorting/quick.foo"), ArtifactLocation::Input, b"x").unwrap();
    storage.write(&id("other.foo"), ArtifactLocation::Input, b"y").unwrap();
    let filtered = EinmoSuite::scan(storage, Some("sorting")).unwrap();
    assert_eq!(filtered.ids(), &[id("algorithms/sorting/quick.foo")]);
}

#[test]
fn cases_iterates_in_id_order_and_case_looks_up_present_and_absent() {
    let mut storage = InMemoryStorage::new();
    storage.write(&id("b.foo"), ArtifactLocation::Input, b"b").unwrap();
    storage.write(&id("a.foo"), ArtifactLocation::Input, b"a").unwrap();
    let suite = EinmoSuite::scan(storage, None).unwrap();
    let ordered: Vec<EinmoId> = suite.cases().iter().map(|c| c.id().clone()).collect();
    assert_eq!(ordered, vec![id("a.foo"), id("b.foo")]);
    assert!(suite.case(&id("a.foo")).is_some());
    assert!(suite.case(&id("nonexistent.foo")).is_none());
}

#[test]
fn flag_selects_every_case_matching_filter_and_skips_absent_ones() {
    let mut suite = three_case_suite();
    let report = suite.flag(Stage::Output, "one bad", Some("b.foo"), None, "2026-07-12T00:00:00Z").unwrap();
    assert_eq!(report.flagged, vec!["b.foo.einmo".to_string()]);
    let b = suite.case(&id("b.foo")).unwrap();
    assert!(b.read(suite.storage(), ArtifactLocation::Stage(Stage::Output)).unwrap().is_none(), "origin vacated");
    assert!(b.read(suite.storage(), ArtifactLocation::Flagged(Stage::Output)).unwrap().is_some());
    for rel in ["a.foo", "c.foo"] {
        assert!(suite
            .case(&id(rel))
            .unwrap()
            .read(suite.storage(), ArtifactLocation::Stage(Stage::Output))
            .unwrap()
            .is_some());
    }
}

#[test]
fn retract_refuses_output_even_for_an_empty_selection() {
    let storage = InMemoryStorage::new();
    let mut suite = EinmoSuite::scan(storage, None).unwrap();
    let err = suite.retract(Stage::Output, None, None).unwrap_err();
    assert!(matches!(err, EinmoError::Config(_)));
}

#[test]
fn promote_selects_every_case_matching_filter() {
    let mut suite = three_case_suite();
    let key = KeySource::from_passphrase("a checked-stage passphrase");
    let report = suite.promote(Stage::Output, Stage::Checked, &key, Some("a.foo"), None, "2026-07-12T00:00:00Z").unwrap();
    assert_eq!(report.promoted.len(), 1);
    assert_eq!(report.promoted[0].rel_path, "a.foo.einmo");
    let a = EinmoCase::new(id("a.foo"));
    assert!(a.read(suite.storage(), ArtifactLocation::Stage(Stage::Checked)).unwrap().is_some());
}

#[test]
fn suite_promote_refuses_an_illegal_transition() {
    let mut suite = three_case_suite();
    let key = KeySource::from_passphrase("k");
    let err = suite.promote(Stage::Checked, Stage::Output, &key, None, None, "t").unwrap_err();
    assert!(matches!(err, EinmoError::IllegalTransition { .. }));
}

#[test]
fn promote_to_verified_refuses_the_empty_passphrase() {
    let mut suite = three_case_suite();
    let key = KeySource::from_passphrase("");
    let err = suite.promote(Stage::Output, Stage::Verified, &key, None, None, "t").unwrap_err();
    assert!(matches!(err, EinmoError::Verification(_)));
}

#[test]
fn retract_removes_checked_and_cascades() {
    let mut suite = three_case_suite();
    let key = KeySource::from_passphrase("a checked-stage passphrase");
    suite.promote(Stage::Output, Stage::Checked, &key, Some("a.foo"), None, "t").unwrap();
    let rep = suite.retract(Stage::Checked, Some("a.foo"), None).unwrap();
    assert_eq!(rep.retracted.len(), 1);
    assert_eq!(rep.retracted[0].0, Stage::Checked);
}

fn keys(node: &DirectoryNode) -> Vec<&str> {
    node.children.iter().map(|c| c.component.as_str()).collect()
}

fn child<'a>(node: &'a DirectoryNode, component: &str) -> &'a DirectoryNode {
    node.children.iter().find(|c| c.component == component).unwrap()
}

fn case_ids(node: &DirectoryNode) -> Vec<EinmoId> {
    node.cases.iter().map(|c| c.id().clone()).collect()
}

#[test]
fn directory_tree_groups_by_path_components_at_every_depth() {
    let mut storage = InMemoryStorage::new();
    for rel in ["root_case.foo", "foop/23/other.foo", "foop/23/sub_feature/test1.foo"] {
        storage.write(&id(rel), ArtifactLocation::Input, b"x").unwrap();
    }
    let suite = EinmoSuite::scan(storage, None).unwrap();
    let tree = suite.directory_tree();

    // A case with no directory components sits at the root.
    assert_eq!(case_ids(&tree), vec![id("root_case.foo")]);
    assert_eq!(keys(&tree), ["foop"]);

    let foop = child(&tree, "foop");
    assert!(foop.cases.is_empty(), "foop/ itself has no case directly in it");
    assert_eq!(keys(foop), ["23"]);

    let twenty_three = child(foop, "23");
    assert_eq!(case_ids(twenty_three), vec![id("foop/23/other.foo")]);
    assert_eq!(keys(twenty_three), ["sub_feature"]);

    let sub_feature = child(twenty_three, "sub_feature");
    assert_eq!(case_ids(sub_feature), vec![id("foop/23/sub_feature/test1.foo")]);
    assert!(sub_feature.children.is_empty());
}

fn assert_no_empty_node(node: &DirectoryNode, is_root: bool) {
    if !is_root {
        assert!(
            !node.cases.is_empty() || !node.children.is_empty(),
            "node {:?} has neither cases nor children",
            node.component
        );
    }
    for child in &node.children {
        assert_no_empty_node(child, false);
    }
}

#[test]
fn directory_tree_never_has_an_empty_node() {
    let mut storage = InMemoryStorage::new();
    for rel in ["a/b/c/d.foo", "a/b/e.foo", "x.foo"] {
        storage.write(&id(rel), ArtifactLocation::Input, b"x").unwrap();
    }
    let suite = EinmoSuite::scan(storage, None).unwrap();
    assert_no_empty_node(&suite.directory_tree(), true);
}

#[test]
fn directory_tree_orders_children_by_component_and_keeps_stage_only_cases() {
    let mut storage = InMemoryStorage::new();
    storage.write(&id("zeta/one.foo"), ArtifactLocation::Input, b"x").unwrap();
    storage.write(&id("alpha/two.foo"), ArtifactLocation::Stage(Stage::Output), b"x").unwrap();
    storage.write(&id("alpha/beta/three.foo"), ArtifactLocation::Input, b"x").unwrap();
    let suite = EinmoSuite::scan(storage, None).unwrap();
    let tree = suite.directory_tree();
    assert!(tree.component.is_empty());
    assert!(tree.cases.is_empty());
    assert_eq!(keys(&tree), ["alpha", "zeta"]);
    let alpha = child(&tree, "alpha");
    assert_eq!(case_ids(alpha), vec![id("alpha/two.foo")]);
    assert_eq!(keys(alpha), ["beta"]);
    assert_eq!(case_ids(child(alpha, "beta")), vec![id("alpha/beta/three.foo")]);
}

#[test]
fn directory_tree_of_an_empty_suite_is_a_bare_root() {
    let suite = EinmoSuite::scan(InMemoryStorage::new(), None).unwrap();
    let tree = suite.directory_tree();
    assert!(tree.cases.is_empty() && tree.children.is_empty() && tree.component.is_empty());
}

fn flagged_suite(reasons: &[&str]) -> EinmoSuite<InMemoryStorage> {
    let mut storage = InMemoryStorage::new();
    storage.write(&id("a.foo"), ArtifactLocation::Input, b"{5;}").unwrap();
    storage.write(&id("a.foo"), ArtifactLocation::Stage(Stage::Output), &signed_bytes("a.foo", "5")).unwrap();
    let mut suite = EinmoSuite::scan(storage, None).unwrap();
    for (k, reason) in reasons.iter().enumerate() {
        if k > 0 {
            // A fresh output to flag again, as a regenerated run writes.
            let mut storage = InMemoryStorage::new();
            for (key_id, at, bytes) in suite.storage().entries() {
                storage.write(&key_id, at, &bytes).unwrap();
            }
            storage.write(&id("a.foo"), ArtifactLocation::Stage(Stage::Output), &signed_bytes("a.foo", "5")).unwrap();
            suite = EinmoSuite::scan(storage, None).unwrap();
        }
        suite.flag(Stage::Output, reason, None, None, "2026-07-12T00:00:00Z").unwrap();
    }
    suite
}

fn stage_notes_pubkey(note: &EinmoFile) -> String {
    note.stamps().entries().iter().find(|s| s.key() == "stage:notes").expect("a stage:notes stamp must be present").pubkey_hex().to_string()
}

#[test]
fn promote_flag_to_note_writes_a_signed_note_from_the_advisory() {
    let suite = flagged_suite(&["needs a second look"]);
    let key = KeySource::from_passphrase("a note signer");
    let (report, notes) = suite
        .promote_flag_to_note(Stage::Output, &key, "cfg", "s", "abc", "", "2026-07-12T01:00:00Z", None, None)
        .unwrap();
    assert_eq!(report.noted, vec!["a.foo.einmo".to_string()]);

    let note = EinmoFile::parse(&notes[0].serialize().unwrap()).unwrap();
    assert!(note.chain_valid(), "a note must be a genuinely signed file");
    assert!(
        note.section("NOTE").unwrap().body().contains("needs a second look"),
        "the note's body must carry the flag's advisory text"
    );
    assert_eq!(stage_notes_pubkey(&note), StageKeypair::derive("a note signer").pubkey_hex());
}

#[test]
fn promote_flag_to_note_does_not_consume_the_flag() {
    let suite = flagged_suite(&["needs a second look"]);
    suite
        .promote_flag_to_note(Stage::Output, &KeySource::from_passphrase(""), "cfg", "s", "abc", "", "t", None, None)
        .unwrap();
    assert!(
        suite.storage().read(&id("a.foo"), ArtifactLocation::Flagged(Stage::Output)).unwrap().is_some(),
        "promoting to a note must not remove the flag -- resolving the flag is a separate action"
    );
}

#[test]
fn promote_flag_to_note_carries_the_concatenated_history() {
    let suite = flagged_suite(&["first", "second"]);
    let (_, notes) = suite
        .promote_flag_to_note(Stage::Output, &KeySource::from_passphrase(""), "cfg", "s", "abc", "", "t", None, None)
        .unwrap();
    let body = notes[0].section("NOTE").unwrap().body();
    assert!(body.contains("# flagged: first"));
    assert!(body.contains("# flagged: second"));
}

#[test]
fn promote_flag_to_note_round_trip_verify_on_inspect_and_key_match() {
    let suite = flagged_suite(&["needs attention"]);
    let note_key = KeySource::from_passphrase("a-note-signer");
    let (report, notes) = suite
        .promote_flag_to_note(Stage::Output, &note_key, "cfg", "s", "abc", "", "2026-07-12T01:00:00Z", None, None)
        .unwrap();
    assert_eq!(report.noted, vec!["a.foo.einmo".to_string()]);

    let note = einmo::verify::verify_bytes(&notes[0].serialize().unwrap()).expect("a promoted note must pass verify-on-inspect");
    assert!(note.chain_valid(), "stamp chain must be fully valid");
    assert_eq!(
        stage_notes_pubkey(&note),
        StageKeypair::derive("a-note-signer").pubkey_hex(),
        "the note's stamp must verify against the passphrase-derived key"
    );

    let flagged_bytes = suite.storage().read(&id("a.foo"), ArtifactLocation::Flagged(Stage::Output)).unwrap().unwrap();
    let flagged = einmo::verify::verify_bytes(&flagged_bytes).expect("flagged file must still verify-on-inspect");
    assert!(
        flagged.stamps().entries().iter().all(|s| s.key() != "stage:notes"),
        "flagged/ must not carry a stage:notes stamp"
    );
}

#[test]
fn promote_flag_to_note_honours_the_glob_filter_and_needs_an_input() {
    let suite = flagged_suite(&["x"]);
    let key = KeySource::from_passphrase("");
    let (report, _) = suite.promote_flag_to_note(Stage::Output, &key, "cfg", "s", "abc", "", "t", Some("b*"), None).unwrap();
    assert!(report.noted.is_empty());
    let (report, _) = suite.promote_flag_to_note(Stage::Output, &key, "cfg", "s", "abc", "", "t", Some("a*"), None).unwrap();
    assert_eq!(report.noted, vec!["a.foo.einmo".to_string()]);
    let (report, _) = suite.promote_flag_to_note(Stage::Checked, &key, "cfg", "s", "abc", "", "t", None, None).unwrap();
    assert!(report.noted.is_empty(), "nothing is flagged at checked");
}

#[test]
fn promote_derives_the_stage_key_once_per_batch_not_per_case() {
    let mut storage = InMemoryStorage::new();
    for i in 0..5 {
        let rel = format!("case{i}.foo");
        storage.write(&id(&rel), ArtifactLocation::Stage(Stage::Output), &signed_bytes(&rel, "5")).unwrap();
    }
    let mut suite = EinmoSuite::scan(storage, None).unwrap();

    let start = std::time::Instant::now();
    let report = suite
        .promote(Stage::Output, Stage::Checked, &KeySource::from_passphrase("a-non-empty-batch-passphrase"), None, None, "t")
        .unwrap();
    let elapsed = start.elapsed();

    assert_eq!(report.promoted.len(), 5);
    assert!(
        elapsed < std::time::Duration::from_secs(5),
        "5-case batch took {elapsed:?} -- looks like the stage key was derived per case instead of once for the whole batch"
    );
}

#[test]
fn promote_ids_overrides_filter() {
    let mut suite = three_case_suite();
    let key = KeySource::from_passphrase("");
    let report = suite
        .promote(Stage::Output, Stage::Checked, &key, Some("matches-nothing"), Some(&[id("a.foo"), id("c.foo")]), "t")
        .unwrap();
    let promoted: Vec<String> = report.promoted.iter().map(|p| p.rel_path.clone()).collect();
    assert_eq!(promoted.len(), 2);
    assert!(promoted.contains(&"a.foo.einmo".to_string()));
    assert!(promoted.contains(&"c.foo.einmo".to_string()));
}

#[test]
fn promote_refuses_an_illegal_transition_even_for_an_empty_suite() {
    let mut suite = EinmoSuite::scan(InMemoryStorage::new(), None).unwrap();
    let key = KeySource::from_passphrase("");
    let err = suite.promote(Stage::Verified, Stage::Output, &key, None, None, "t").unwrap_err();
    assert!(matches!(err, EinmoError::IllegalTransition { .. }));
}

#[test]
fn promote_silently_skips_a_case_absent_at_the_source_stage() {
    let mut suite = three_case_suite();
    let key = KeySource::from_passphrase("a non-empty passphrase");
    let report = suite.promote(Stage::Checked, Stage::Verified, &key, None, None, "t").unwrap();
    assert!(report.promoted.is_empty());
}

#[test]
fn promote_the_same_content_with_two_different_keys_co_signs_both() {
    let mut suite = three_case_suite();
    suite.promote(Stage::Output, Stage::Checked, &KeySource::from_passphrase("signer-one"), Some("a.foo"), None, "t").unwrap();
    suite.promote(Stage::Output, Stage::Checked, &KeySource::from_passphrase("signer-two"), Some("a.foo"), None, "t").unwrap();

    let checked = suite.case(&id("a.foo")).unwrap().read(suite.storage(), ArtifactLocation::Stage(Stage::Checked)).unwrap().unwrap();
    let checked_stamps = checked.stamps().entries().iter().filter(|s| s.key() == "stage:checked").count();
    assert_eq!(checked_stamps, 2, "both signers' stage:checked stamps must survive");
}

#[test]
fn promote_to_verified_fails_when_human_passphrase_is_empty() {
    let mut storage = InMemoryStorage::new();
    storage.write(&id("a.foo"), ArtifactLocation::Stage(Stage::Checked), &signed_bytes("a.foo", "something")).unwrap();
    let mut suite = EinmoSuite::scan(storage, None).unwrap();
    let key = KeySource::from_passphrase("");

    let result = suite.promote(Stage::Checked, Stage::Verified, &key, None, None, "t");
    assert!(result.is_err());
    assert_eq!(
        result.unwrap_err().to_string(),
        "signature verification failed: empty passphrase is not allowed for verified stage promotion"
    );
}

#[test]
fn retract_selects_every_case_matching_filter() {
    let mut storage = InMemoryStorage::new();
    for rel in ["a.foo", "b.foo"] {
        storage.write(&id(rel), ArtifactLocation::Stage(Stage::Checked), &signed_bytes(rel, "5")).unwrap();
    }
    let mut suite = EinmoSuite::scan(storage, None).unwrap();

    let report = suite.retract(Stage::Checked, Some("a.foo"), None).unwrap();
    assert_eq!(report.retracted, vec![(Stage::Checked, "a.foo.einmo".to_string())]);
    assert!(
        suite.case(&id("b.foo")).unwrap().read(suite.storage(), ArtifactLocation::Stage(Stage::Checked)).unwrap().is_some(),
        "b.foo did not match the filter and must survive"
    );
}

#[test]
fn promote_flag_to_note_takes_the_named_files_over_the_filter() {
    let suite = flagged_suite(&["x"]);
    let key = KeySource::from_passphrase("");
    let files = vec!["output/a.foo.einmo".to_string(), "a.foo".to_string(), "nope.foo".to_string()];
    let (report, notes) = suite
        .promote_flag_to_note(Stage::Output, &key, "cfg", "s", "abc", "", "t", Some("matches-nothing"), Some(files.as_slice()))
        .unwrap();
    assert_eq!(report.noted, vec!["a.foo.einmo".to_string()], "both spellings name one case, once");
    assert_eq!(notes.len(), 1);
    let (report, _) = suite
        .promote_flag_to_note(Stage::Checked, &key, "cfg", "s", "abc", "", "t", None, Some(files.as_slice()))
        .unwrap();
    assert!(report.noted.is_empty());
}

#[test]
fn promote_to_verified_refusal_names_the_empty_passphrase() {
    let mut suite = three_case_suite();
    let key = KeySource::from_passphrase("");
    match suite.promote(Stage::Output, Stage::Verified, &key, None, None, "t") {
        Err(EinmoError::Verification(m)) => {
            assert_eq!(m, "empty passphrase is not allowed for verified stage promotion")
        }
        other => panic!("unexpected: {:?}", other.map(|_| ())),
    }
}

#[test]
fn compare_classifies_each_case_between_two_stages() {
    let mut storage = InMemoryStorage::new();
    storage.write(&id("a.foo"), ArtifactLocation::Stage(Stage::Output), &signed_bytes("a.foo", "5")).unwrap();
    storage.write(&id("a.foo"), ArtifactLocation::Stage(Stage::Checked), &signed_bytes("a.foo", "5")).unwrap();
    storage.write(&id("b.foo"), ArtifactLocation::Stage(Stage::Output), &signed_bytes("b.foo", "6")).unwrap();
    storage.write(&id("b.foo"), ArtifactLocation::Stage(Stage::Checked), &signed_bytes("b.foo", "7")).unwrap();
    storage.write(&id("c.foo"), ArtifactLocation::Stage(Stage::Output), &signed_bytes("c.foo", "7")).unwrap();
    storage.write(&id("d.foo"), ArtifactLocation::Stage(Stage::Checked), b"not an envelope").unwrap();
    let suite = EinmoSuite::scan(storage, None).unwrap();
    let r = suite.compare(Stage::Output, Stage::Checked, einmo::compare::MatchSections::InputOutput, None).unwrap();
    assert_eq!(r.matching, vec!["a.foo.einmo".to_string()]);
    assert_eq!(r.differing.len(), 1);
    assert_eq!(r.differing[0].rel_path, "b.foo.einmo");
    assert_eq!(r.differing[0].sections, vec!["OUTPUT".to_string()]);
    assert_eq!(r.only_in_a, vec!["c.foo.einmo".to_string()]);
    assert!(r.only_in_b.is_empty());
    assert_eq!(r.tampered, vec!["d.foo.einmo".to_string()]);
    assert!(!r.is_clean());
}

#[test]
fn compare_of_identical_stages_is_clean() {
    let mut storage = InMemoryStorage::new();
    storage.write(&id("a.foo"), ArtifactLocation::Stage(Stage::Output), &signed_bytes("a.foo", "5")).unwrap();
    storage.write(&id("a.foo"), ArtifactLocation::Stage(Stage::Checked), &signed_bytes("a.foo", "5")).unwrap();
    let suite = EinmoSuite::scan(storage, None).unwrap();
    let r = suite.compare(Stage::Output, Stage::Checked, einmo::compare::MatchSections::InputOutput, None).unwrap();
    assert!(r.is_clean());
    assert_eq!(r.matching.len(), 1);
}

#[test]
fn flagged_lists_every_flagged_artifact_by_stage() {
    let mut storage = InMemoryStorage::new();
    storage.write(&id("a.foo"), ArtifactLocation::Stage(Stage::Output), &signed_bytes("a.foo", "5")).unwrap();
    storage.write(&id("a.foo"), ArtifactLocation::Flagged(Stage::Checked), &signed_bytes("a.foo", "5")).unwrap();
    storage.write(&id("b.foo"), ArtifactLocation::Flagged(Stage::Output), &signed_bytes("b.foo", "6")).unwrap();
    let suite = EinmoSuite::scan(storage, None).unwrap();
    let flagged: Vec<(String, Stage)> =
        suite.flagged().unwrap().into_iter().map(|(i, s)| (i.as_str().to_string(), s)).collect();
    assert_eq!(flagged, vec![("b.foo".to_string(), Stage::Output), ("a.foo".to_string(), Stage::Checked)]);
}
