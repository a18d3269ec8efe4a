use einmo::{Collation, EinmoError, EinmoId};

fn id(s: &str) -> EinmoId {
    EinmoId::try_from(s).unwrap()
}

fn sorted(mut ids: Vec<EinmoId>) -> Vec<String> {
    Collation::PathBytes.sort(&mut ids).unwrap();
    ids.iter().map(|i| i.as_str().to_string()).collect()
}

#[test]
fn identifier_round_trips() {
    assert_eq!(Collation::PathBytes.identifier(), "path-bytes");
    assert_eq!(Collation::parse("path-bytes").unwrap(), Collation::PathBytes);
}

#[test]
fn default_is_path_bytes() {
    assert_eq!(Collation::default_collation(), Collation::PathBytes);
}

#[test]
fn unknown_identifier_fails_as_that_not_a_generic_mismatch() {
    let err = Collation::parse("bogus-collation").unwrap_err();
    match err {
        EinmoError::CorpusSignature(msg) => {
            assert!(
                msg.contains("unknown collation"),
                "error must name it as an unknown collation, not a generic failure: {msg}"
            );
        }
        other => panic!("expected CorpusSignature, got {other:?}"),
    }
}

#[test]
fn ordering_is_stable_regardless_of_discovery_order() {
    let a = vec![id("z/1.foo"), id("a/2.foo"), id("m/3.foo")];
    let b = vec![id("a/2.foo"), id("m/3.foo"), id("z/1.foo")];
    let c = vec![id("m/3.foo"), id("z/1.foo"), id("a/2.foo")];
    let (sa, sb, sc) = (sorted(a), sorted(b), sorted(c));
    assert_eq!(sa, sb);
    assert_eq!(sb, sc);
    assert_eq!(sa, vec!["a/2.foo", "m/3.foo", "z/1.foo"]);
}

#[test]
fn separator_vs_in_name_character_sorts_structurally() {
    let ids = vec![id("a-b"), id("a/b")];
    assert_eq!(sorted(ids), vec!["a/b", "a-b"]);
}

#[test]
fn shorter_prefix_sorts_first_when_nested() {
    let ids = vec![id("a/b"), id("a")];
    assert_eq!(sorted(ids), vec!["a", "a/b"]);
}

#[test]
fn flat_and_nested_sharing_a_prefix_order_by_structure() {
    let ids = vec![id("ab"), id("a/b"), id("a")];
    assert_eq!(sorted(ids), vec!["a", "a/b", "ab"]);
}

#[test]
fn case_differing_paths_sort_deterministically_without_folding() {
    let ids = vec![id("B.foo"), id("a.foo"), id("A.foo"), id("b.foo")];
    assert_eq!(sorted(ids), vec!["A.foo", "B.foo", "a.foo", "b.foo"]);
}

#[test]
fn case_sort_is_deterministic_across_discovery_orders() {
    let a = vec![id("Zebra.foo"), id("apple.foo"), id("Banana.foo")];
    let b = vec![id("apple.foo"), id("Banana.foo"), id("Zebra.foo")];
    assert_eq!(sorted(a), sorted(b));
}

#[test]
fn distinct_normalization_forms_are_not_folded_together() {
    let nfc = "caf\u{00e9}.foo";
    let nfd = "cafe\u{0301}.foo";
    assert_ne!(nfc.as_bytes(), nfd.as_bytes());
    let ids = vec![id(nfd), id(nfc)];
    let out = sorted(ids);
    assert_eq!(out.len(), 2);
    assert!(out.contains(&nfc.to_string()));
    assert!(out.contains(&nfd.to_string()));
}

#[test]
fn duplicate_path_is_a_hard_error_never_a_silent_tiebreak() {
    let mut ids = vec![id("dup/case.foo"), id("dup/case.foo")];
    let err = Collation::PathBytes.sort(&mut ids).unwrap_err();
    match err {
        EinmoError::CorpusSignature(msg) => {
            assert!(msg.contains("duplicate"), "expected a duplicate-path error: {msg}");
        }
        other => panic!("expected CorpusSignature, got {other:?}"),
    }
}

#[test]
fn no_tie_among_many_distinct_paths() {
    let ids = vec![
        id("a.foo"),
        id("a/b.foo"),
        id("a/b/c.foo"),
        id("ab.foo"),
        id("b.foo"),
        id("nested/deep/path.foo"),
    ];
    assert!(Collation::PathBytes.sort(&mut ids.clone()).is_ok());
}

#[test]
fn sort_of_a_sorted_list_keeps_it() {
    let mut ids = vec![id("a"), id("a/b"), id("ab")];
    Collation::PathBytes.sort(&mut ids).unwrap();
    let once: Vec<String> = ids.iter().map(|i| i.as_str().to_string()).collect();
    Collation::PathBytes.sort(&mut ids).unwrap();
    let twice: Vec<String> = ids.iter().map(|i| i.as_str().to_string()).collect();
    assert_eq!(once, twice);
}
