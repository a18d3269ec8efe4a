use sha2::Digest;
use einmo::corpus_signer::{check_read_len, derive_slh_keypair, CorpusSigner, SectionSig};
use einmo::hex::hex_encode;
use einmo::signature::StageKeypair;
use einmo::{ArtifactLocation, Collation, EinmoError, EinmoId, EinmoStorage, InMemoryStorage, Stage};

const OUT: ArtifactLocation = ArtifactLocation::Stage(Stage::Output);

fn id_of(rel: &str) -> EinmoId {
    EinmoId::try_from(rel.strip_suffix(".einmo").unwrap()).unwrap()
}

fn write_artifact(storage: &mut InMemoryStorage, rel: &str, content: &[u8]) {
    storage.write(&id_of(rel), OUT, content).unwrap();
}

fn suite_with_output(files: &[(&str, &[u8])]) -> InMemoryStorage {
    let mut storage = InMemoryStorage::new();
    for (rel, content) in files {
        write_artifact(&mut storage, rel, content);
    }
    storage
}

fn signer() -> CorpusSigner {
    CorpusSigner::new(Collation::default_collation())
}

fn id_strs(ids: &[EinmoId]) -> Vec<&str> {
    ids.iter().map(EinmoId::as_str).collect()
}

#[test]
fn manifest_is_deterministic_regardless_of_discovery_order() {
    let s1 = suite_with_output(&[("z/1.foo.einmo", b"z"), ("a/2.foo.einmo", b"a"), ("m/3.foo.einmo", b"m")]);
    let s2 = suite_with_output(&[("a/2.foo.einmo", b"a"), ("m/3.foo.einmo", b"m"), ("z/1.foo.einmo", b"z")]);
    let m1 = signer().manifest(&s1, Stage::Output).unwrap();
    let m2 = signer().manifest(&s2, Stage::Output).unwrap();
    let ids1 = id_strs(m1.ids());
    let ids2 = id_strs(m2.ids());
    assert_eq!(ids1, ids2);
    assert_eq!(ids1, vec!["a/2.foo", "m/3.foo", "z/1.foo"]);
}

#[test]
fn empty_section_manifest_is_well_formed() {
    let storage = suite_with_output(&[]);
    let manifest = signer().manifest(&storage, Stage::Output).unwrap();
    assert!(manifest.ids().is_empty());
    assert_eq!(manifest.stage(), Stage::Output);
    assert_eq!(manifest.collation(), Collation::PathBytes);
}

#[test]
fn digest_changes_on_add_remove_alter_reorder() {
    let mut storage = suite_with_output(&[("a.foo.einmo", b"AAAA"), ("b.foo.einmo", b"BBBB")]);
    let s = signer();
    let base_digest = s.digest(&storage, Stage::Output).unwrap();

    write_artifact(&mut storage, "a.foo.einmo", b"ZZZZ");
    let altered_digest = s.digest(&storage, Stage::Output).unwrap();
    assert_ne!(base_digest.as_bytes(), altered_digest.as_bytes());
    write_artifact(&mut storage, "a.foo.einmo", b"AAAA");

    write_artifact(&mut storage, "c.foo.einmo", b"CCCC");
    let added_digest = s.digest(&storage, Stage::Output).unwrap();
    assert_ne!(base_digest.as_bytes(), added_digest.as_bytes());
    storage.remove(&id_of("c.foo.einmo"), OUT).unwrap();

    storage.remove(&id_of("b.foo.einmo"), OUT).unwrap();
    let removed_digest = s.digest(&storage, Stage::Output).unwrap();
    assert_ne!(base_digest.as_bytes(), removed_digest.as_bytes());
}

#[test]
fn digest_is_stable_across_repeated_calls_with_no_change() {
    let storage = suite_with_output(&[("a.foo.einmo", b"content")]);
    let d1 = signer().digest(&storage, Stage::Output).unwrap();
    let d2 = signer().digest(&storage, Stage::Output).unwrap();
    assert_eq!(d1.as_bytes(), d2.as_bytes());
    assert_eq!(d1.as_bytes().len(), 32);
}

#[test]
fn digest_reflects_manifest_order_not_just_file_set() {
    let storage = suite_with_output(&[("a-b.foo.einmo", b"X"), ("a/b.foo.einmo", b"Y")]);
    let m1 = signer().manifest(&storage, Stage::Output).unwrap();
    assert_eq!(id_strs(m1.ids()), vec!["a/b.foo", "a-b.foo"]);
}

#[test]
fn mid_read_size_change_is_a_hard_error() {
    let path = "output/a.foo.einmo";
    assert!(check_read_len(path, 10, 10).is_ok());
    let err = check_read_len(path, 10, 5).unwrap_err();
    assert!(matches!(err, EinmoError::CorpusSignature(_)));
    let err = check_read_len(path, 10, 15).unwrap_err();
    assert!(matches!(err, EinmoError::CorpusSignature(_)));
}

#[test]
fn check_read_len_names_the_file_and_both_lengths() {
    let err = check_read_len("output/a.foo.einmo", 10, 5).unwrap_err();
    assert_eq!(
        err,
        EinmoError::CorpusSignature("output/a.foo.einmo changed size mid-read (expected 10 bytes, read 5)".to_string())
    );
}

#[test]
fn normal_digest_over_a_stable_file_succeeds() {
    let storage = suite_with_output(&[("a.foo.einmo", b"short")]);
    assert!(signer().digest(&storage, Stage::Output).is_ok());
}

#[test]
fn same_passphrase_derives_the_same_slh_dsa_keypair_every_time() {
    let (_, pk1) = derive_slh_keypair("a review passphrase");
    let (_, pk2) = derive_slh_keypair("a review passphrase");
    assert_eq!(pk1, pk2);
}

#[test]
fn different_passphrases_yield_different_slh_dsa_keys() {
    let (_, pk1) = derive_slh_keypair("alice");
    let (_, pk2) = derive_slh_keypair("bob");
    assert_ne!(pk1, pk2);
}

#[test]
fn corpus_signer_key_is_domain_separated_from_the_ed25519_stamp_key() {
    let ed_pk_len = StageKeypair::derive("shared-pass").pubkey_hex().len() / 2;
    let (_, slh_pk) = derive_slh_keypair("shared-pass");
    assert_ne!(ed_pk_len, slh_pk.len());
}

fn forged_sig(collation: &str, pubkey: &str, signature: &str) -> SectionSig {
    SectionSig::from_fields("output", "slh_dsa_sha2_256s", collation, pubkey, signature).unwrap()
}

fn pubkey_hex_of(passphrase: &str) -> String {
    let (_, pk) = derive_slh_keypair(passphrase);
    hex_encode(&pk)
}

/// Standard padded base64 of `n` zero bytes, `n` a multiple of 3.
fn zero_b64(n: usize) -> String {
    "A".repeat(n / 3 * 4)
}

#[test]
fn forged_signature_fails_verify_not_a_panic() {
    let storage = suite_with_output(&[("a.foo.einmo", b"one")]);
    let pk = pubkey_hex_of("pass");
    let sig = forged_sig("path-bytes", &pk, &zero_b64(29792 - 29792 % 3));
    // 29790 bytes: one short of a whole signature, so rejected as malformed.
    assert_eq!(
        signer().verify(&storage, Stage::Output, &sig).unwrap_err(),
        EinmoError::CorpusSignature("malformed section signature bytes".to_string())
    );
    // A whole signature's worth of zero bytes decodes, and does not verify.
    let whole = format!("{}AAA=", zero_b64(29790));
    let sig = forged_sig("path-bytes", &pk, &whole);
    assert_eq!(
        signer().verify(&storage, Stage::Output, &sig).unwrap_err(),
        EinmoError::CorpusSignature("section signature for stage output does not verify".to_string())
    );
}

#[test]
fn unrecognized_collation_in_a_record_fails_as_that() {
    let storage = suite_with_output(&[("a.foo.einmo", b"one")]);
    let sig = forged_sig("bogus-collation", "00", "AAAA");
    match signer().verify(&storage, Stage::Output, &sig).unwrap_err() {
        EinmoError::CorpusSignature(msg) => {
            assert!(
                msg.contains("unknown collation"),
                "must fail as an unrecognized collation, not a generic mismatch: {msg}"
            );
        },
        other => panic!("expected CorpusSignature, got {other:?}"),
    }
}

#[test]
fn unknown_parameter_set_is_named() {
    let storage = suite_with_output(&[]);
    let odd = SectionSig::from_fields("output", "slh_dsa_shake_128f", "path-bytes", "00", "AAAA").unwrap();
    assert_eq!(
        signer().verify(&storage, Stage::Output, &odd).unwrap_err(),
        EinmoError::CorpusSignature("unknown SLH-DSA parameter set \"slh_dsa_shake_128f\"".to_string())
    );
}

#[test]
fn malformed_key_text_is_reported() {
    let storage = suite_with_output(&[("a.foo.einmo", b"one")]);
    for bad in ["abc", "zz", "00ff"] {
        let sig = forged_sig("path-bytes", bad, "AAAA");
        assert_eq!(
            signer().verify(&storage, Stage::Output, &sig).unwrap_err(),
            EinmoError::CorpusSignature(format!("malformed pubkey hex \"{bad}\""))
        );
    }
    // Upper-case hex is still hex: the record gets as far as its signature.
    let upper = forged_sig("path-bytes", &pubkey_hex_of("pass").to_uppercase(), "AAAA");
    assert_eq!(
        signer().verify(&storage, Stage::Output, &upper).unwrap_err(),
        EinmoError::CorpusSignature("malformed section signature bytes".to_string())
    );
}

#[test]
fn slh_dsa_public_keys_are_64_bytes() {
    let (sk, pk) = derive_slh_keypair("pass");
    assert_eq!(pk.len(), 64);
    assert_eq!(sk.len(), 128);
    assert_eq!(&sk[64..], &pk[..]);
    assert_eq!(pubkey_hex_of("pass").len(), 128);
}

#[test]
fn section_sig_fields_need_a_stage_name() {
    let err = SectionSig::from_fields("nowhere", "p", "c", "k", "s").unwrap_err();
    assert_eq!(err, EinmoError::CorpusSignature("bad stage \"nowhere\"".to_string()));
}

#[test]
fn for_suite_resolves_the_configured_collation() {
    assert_eq!(CorpusSigner::for_suite(None).unwrap().collation(), Collation::PathBytes);
    assert_eq!(CorpusSigner::for_suite(Some("path-bytes")).unwrap().collation(), Collation::PathBytes);
    assert!(matches!(CorpusSigner::for_suite(Some("locale")), Err(EinmoError::CorpusSignature(_))));
}

#[test]
fn digest_is_sha256_of_the_length_prefixed_header_then_the_bytes() {
    let storage = suite_with_output(&[("b.foo.einmo", b"BB"), ("a.foo.einmo", b"AAAA")]);
    let mut expected: Vec<u8> = Vec::new();
    for field in [&b"output"[..], b"slh_dsa_sha2_256s", b"path-bytes"] {
        expected.extend_from_slice(&(field.len() as u32).to_le_bytes());
        expected.extend_from_slice(field);
    }
    expected.extend_from_slice(&2u32.to_le_bytes());
    for id in [&b"a.foo"[..], b"b.foo"] {
        expected.extend_from_slice(&(id.len() as u32).to_le_bytes());
        expected.extend_from_slice(id);
    }
    expected.extend_from_slice(b"AAAA");
    expected.extend_from_slice(b"BB");
    let digest = signer().digest(&storage, Stage::Output).unwrap();
    assert_eq!(digest.as_bytes(), &sha2::Sha256::digest(&expected)[..]);
}
