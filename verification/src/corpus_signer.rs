//! Section-level post-quantum attestation.
//!
//! Layered over the per-artifact Ed25519 stamp chain, not a replacement:
//! [`CorpusSigner`] adds a second, coarser SLH-DSA-SHA2-256s signature over
//! a whole stage's section — the manifest (the collation-ordered id list)
//! plus every artifact's bytes, joined in manifest order and hashed. Since
//! it is additive, no existing stamp is invalidated.
//!
//! The signer reads a section through an [`EinmoStorage`]; where the
//! `.section.sig` record lives, and its JSON form, belong to the caller.

use vstd::prelude::*;
use vstd::slice::slice_to_vec;
use vstd::utf8::encode_utf8;
use crate::collation::{collation_identifier, unknown_collation_message, lemma_path_lt_total_order, path_lt, path_strictly_sorted, Collation};
use crate::config::KeySource;
use crate::crypto::{
    argon2id, argon2id_spec, b64_decode, b64_decode_spec, b64_encode, b64_encode_spec, sha256, sha256_spec, slh_accepts_spec,
    slh_keygen, slh_keygen_spec, slh_sign, slh_signature_spec, slh_verify, SLH_PK_LEN, SLH_SIG_LEN,
};
use crate::error::EinmoError;
use crate::hex::{hex_decode_any, hex_encode, hex_spec, lemma_hex_is_lowercase};
use crate::numtext::{dec, push_dec_u64};
use crate::stage::{id_views, parse_stage_spec, stage_dir_name, EinmoId, Stage};
use crate::storage::{ArtifactKey, ArtifactLocation, EinmoStorage};
use crate::text::{ascii_lower, concat, own, push_str, str_eq, string_of};

verus! {

/// The one SLH-DSA parameter set signatures are made with: the
/// large-signature, slow-signing variant with the biggest security margin.
pub open spec fn param_set_id() -> Seq<char> {
    "slh_dsa_sha2_256s"@
}

/// The salt a passphrase is stretched under to give the master seed of
/// the section key, distinct from the stamp key's salt so the two keys
/// never coincide for one passphrase.
pub open spec fn corpus_key_salt() -> Seq<char> {
    "einmo:corpus-signer-key:v1"@
}

/// The text a seed label is appended to when the master seed is expanded.
pub open spec fn corpus_expand_domain() -> Seq<char> {
    "einmo:corpus-signer-key:v1:expand:"@
}

/// The master seed of a passphrase's section key.
pub open spec fn master_seed_spec(passphrase: Seq<char>) -> Seq<u8> {
    argon2id_spec(encode_utf8(passphrase), encode_utf8(corpus_key_salt()))
}

/// One of the three key-generation seeds, expanded from the master seed
/// under `label`.
pub open spec fn expand_seed_spec(master: Seq<u8>, label: Seq<char>) -> Seq<u8> {
    sha256_spec(encode_utf8(corpus_expand_domain() + label) + master)
}

/// The section key pair `(public, secret)` a passphrase derives.
pub open spec fn slh_keys_spec(passphrase: Seq<char>) -> (Seq<u8>, Seq<u8>) {
    let m = master_seed_spec(passphrase);
    slh_keygen_spec(
        expand_seed_spec(m, "sk_seed"@),
        expand_seed_spec(m, "sk_prf"@),
        expand_seed_spec(m, "pk_seed"@),
    )
}

/// `n` modulo 2^32 as four little-endian bytes.
pub open spec fn le32(n: nat) -> Seq<u8> {
    seq![(n % 256) as u8, ((n / 256) % 256) as u8, ((n / 65536) % 256) as u8, ((n / 16777216) % 256) as u8]
}

/// A length-prefixed field: the length as `le32`, then the bytes.
pub open spec fn field_bytes(b: Seq<u8>) -> Seq<u8> {
    le32(b.len()) + b
}

/// Each id as a length-prefixed field of its UTF-8 bytes, in order.
pub open spec fn id_fields(ids: Seq<Seq<char>>) -> Seq<u8>
    decreases ids.len(),
{
    if ids.len() == 0 {
        Seq::empty()
    } else {
        id_fields(ids.drop_last()) + field_bytes(encode_utf8(ids.last()))
    }
}

/// A manifest's header: stage name, parameter set, collation identifier,
/// the id count and the ids, each length-prefixed so no two manifests share
/// a header whatever characters their ids hold.
pub open spec fn header_spec(stage: Stage, c: Collation, ids: Seq<Seq<char>>) -> Seq<u8> {
    field_bytes(encode_utf8(stage_dir_name(stage))) + field_bytes(encode_utf8(param_set_id()))
        + field_bytes(encode_utf8(collation_identifier(c))) + le32(ids.len()) + id_fields(ids)
}

/// The artifacts of `ids` at `stage`'s own location, joined in order.
pub open spec fn section_bytes(m: Map<ArtifactKey, Seq<u8>>, stage: Stage, ids: Seq<Seq<char>>) -> Seq<u8>
    decreases ids.len(),
{
    if ids.len() == 0 {
        Seq::empty()
    } else {
        section_bytes(m, stage, ids.drop_last()) + m[(ids.last(), ArtifactLocation::Stage(stage))]
    }
}

/// The message a section signature signs: SHA-256 of the manifest header
/// followed by the section's bytes in manifest order.
pub open spec fn digest_spec(m: Map<ArtifactKey, Seq<u8>>, stage: Stage, c: Collation, ids: Seq<Seq<char>>) -> Seq<u8> {
    sha256_spec(header_spec(stage, c, ids) + section_bytes(m, stage, ids))
}

/// `s` lists every id with an artifact at `stage`'s own location in `m`,
/// each once, in strictly increasing collation order.
pub open spec fn lists_stage(s: Seq<Seq<char>>, m: Map<ArtifactKey, Seq<u8>>, stage: Stage) -> bool {
    &&& path_strictly_sorted(s)
    &&& forall|x: Seq<char>| s.contains(x) <==> m.dom().contains((x, ArtifactLocation::Stage(stage)))
}

/// The manifest order of `stage` in `m`: the one sequence `lists_stage`
/// describes (see [`lemma_manifest_order_is_unique`]).
pub open spec fn manifest_spec(m: Map<ArtifactKey, Seq<u8>>, stage: Stage) -> Seq<Seq<char>> {
    choose|s: Seq<Seq<char>>| lists_stage(s, m, stage)
}

/// The message signed for `stage` of `m` under collation `c`.
pub open spec fn section_digest_spec(m: Map<ArtifactKey, Seq<u8>>, stage: Stage, c: Collation) -> Seq<u8> {
    digest_spec(m, stage, c, manifest_spec(m, stage))
}

proof fn lemma_sorted_head_is_least(a: Seq<Seq<char>>, x: Seq<char>)
    requires
        path_strictly_sorted(a),
        a.contains(x),
        a.len() > 0,
    ensures
        a[0] == x || path_lt(a[0], x),
{
    let i = choose|i: int| 0 <= i < a.len() && a[i] == x;
    if i > 0 {
        assert(path_lt(a[0], a[i]));
    }
}

proof fn lemma_sorted_tail(a: Seq<Seq<char>>)
    requires
        path_strictly_sorted(a),
        a.len() > 0,
    ensures
        path_strictly_sorted(a.drop_first()),
        !a.drop_first().contains(a[0]),
        forall|x: Seq<char>| a.contains(x) <==> (x == a[0] || a.drop_first().contains(x)),
{
    let t = a.drop_first();
    assert forall|i: int, j: int| 0 <= i < j < t.len() implies path_lt(#[trigger] t[i], #[trigger] t[j]) by {
        assert(t[i] == a[i + 1] && t[j] == a[j + 1]);
    }
    if t.contains(a[0]) {
        let k = choose|k: int| 0 <= k < t.len() && t[k] == a[0];
        assert(path_lt(a[0], a[k + 1]));
        lemma_path_lt_total_order(a[0], a[0], a[0]);
    }
    assert forall|x: Seq<char>| a.contains(x) implies (x == a[0] || t.contains(x)) by {
        let i = choose|i: int| 0 <= i < a.len() && a[i] == x;
        if i > 0 {
            assert(t[i - 1] == x);
        }
    }
    assert forall|x: Seq<char>| t.contains(x) implies a.contains(x) by {
        let i = choose|i: int| 0 <= i < t.len() && t[i] == x;
        assert(a[i + 1] == x);
    }
}

/// Two strictly increasing sequences with the same elements are equal: the
/// manifest order of a section depends on its set of ids alone, never on
/// the order they were discovered in.
pub proof fn lemma_manifest_order_is_unique(a: Seq<Seq<char>>, b: Seq<Seq<char>>)
    requires
        path_strictly_sorted(a),
        path_strictly_sorted(b),
        forall|x: Seq<char>| a.contains(x) <==> b.contains(x),
    ensures
        a == b,
    decreases a.len(),
{
    if a.len() == 0 {
        if b.len() > 0 {
            assert(b.contains(b[0]));
        }
        assert(a =~= b);
    } else {
        assert(a.contains(a[0]));
        assert(b.len() > 0);
        assert(b.contains(b[0]));
        lemma_sorted_head_is_least(a, b[0]);
        lemma_sorted_head_is_least(b, a[0]);
        lemma_path_lt_total_order(a[0], b[0], a[0]);
        assert(a[0] == b[0]);
        lemma_sorted_tail(a);
        lemma_sorted_tail(b);
        assert forall|x: Seq<char>| a.drop_first().contains(x) <==> b.drop_first().contains(x) by {
            assert(a.contains(x) <==> (x == a[0] || a.drop_first().contains(x)));
            assert(b.contains(x) <==> (x == b[0] || b.drop_first().contains(x)));
            assert(a.contains(x) <==> b.contains(x));
        }
        lemma_manifest_order_is_unique(a.drop_first(), b.drop_first());
        assert(a =~= seq![a[0]] + a.drop_first());
        assert(b =~= seq![b[0]] + b.drop_first());
    }
}

/// Sorting under `PathBytes` ignores the order of its input: two inputs
/// holding the same ids (each as often), each sorted successfully
/// (`Collation::sort` returned `Ok`, leaving a strictly increasing
/// permutation), come out identical.
pub proof fn lemma_sort_ignores_input_order(a_in: Seq<Seq<char>>, b_in: Seq<Seq<char>>, a_out: Seq<Seq<char>>, b_out: Seq<Seq<char>>)
    requires
        a_in.to_multiset() == b_in.to_multiset(),
        a_out.to_multiset() == a_in.to_multiset(),
        b_out.to_multiset() == b_in.to_multiset(),
        path_strictly_sorted(a_out),
        path_strictly_sorted(b_out),
    ensures
        a_out == b_out,
{
    broadcast use vstd::seq_lib::group_to_multiset_ensures;
    assert forall|x: Seq<char>| a_out.contains(x) <==> b_out.contains(x) by {
        assert(a_out.contains(x) <==> a_out.to_multiset().count(x) > 0);
        assert(b_out.contains(x) <==> b_out.to_multiset().count(x) > 0);
    }
    lemma_manifest_order_is_unique(a_out, b_out);
}

/// The manifest order of a section is the same for any two storages holding
/// the same ids at that stage.
pub proof fn lemma_manifest_depends_on_ids_only(
    m1: Map<ArtifactKey, Seq<u8>>,
    m2: Map<ArtifactKey, Seq<u8>>,
    stage: Stage,
    a: Seq<Seq<char>>,
)
    requires
        lists_stage(a, m1, stage),
        forall|x: Seq<char>|
            m1.dom().contains((x, ArtifactLocation::Stage(stage))) <==> m2.dom().contains((x, ArtifactLocation::Stage(stage))),
    ensures
        manifest_spec(m1, stage) == a,
        manifest_spec(m2, stage) == a,
{
    assert(lists_stage(a, m2, stage));
    let s1 = manifest_spec(m1, stage);
    let s2 = manifest_spec(m2, stage);
    lemma_manifest_order_is_unique(s1, a);
    lemma_manifest_order_is_unique(s2, a);
}

/// `lists_stage` pins the manifest order down.
proof fn lemma_lists_is_manifest(s: Seq<Seq<char>>, m: Map<ArtifactKey, Seq<u8>>, stage: Stage)
    requires
        lists_stage(s, m, stage),
    ensures
        manifest_spec(m, stage) == s,
{
    let c = manifest_spec(m, stage);
    lemma_manifest_order_is_unique(c, s);
}

/// A strictly sorted permutation of a complete listing of `stage` lists
/// it.
proof fn lemma_sorted_listing(
    before: Seq<Seq<char>>,
    after: Seq<Seq<char>>,
    m: Map<ArtifactKey, Seq<u8>>,
    stage: Stage,
)
    requires
        after.to_multiset() == before.to_multiset(),
        path_strictly_sorted(after),
        forall|x: Seq<char>| before.contains(x) <==> m.dom().contains((x, ArtifactLocation::Stage(stage))),
    ensures
        lists_stage(after, m, stage),
{
    before.to_multiset_ensures();
    after.to_multiset_ensures();
    assert forall|x: Seq<char>| after.contains(x) <==> m.dom().contains((x, ArtifactLocation::Stage(stage))) by {
        assert(after.contains(x) <==> after.to_multiset().count(x) > 0);
        assert(before.contains(x) <==> before.to_multiset().count(x) > 0);
    }
}

/// Whether `sig` verifies against `stage` of `m`: it names the known
/// parameter set and collation, its public key is hex (either case) of a
/// key of the right length, its signature is base64 of a signature of the
/// right length, and that signature is valid for the section's digest.
pub open spec fn verify_ok_spec(sig: SectionSig, m: Map<ArtifactKey, Seq<u8>>, stage: Stage) -> bool {
    &&& sig.param_set_spec() == param_set_id()
    &&& sig.collation_id_spec() == collation_identifier(Collation::PathBytes)
    &&& b64_decode_spec(sig.signature_b64_spec()) is Some
    &&& b64_decode_spec(sig.signature_b64_spec())->0.len() == SLH_SIG_LEN
    &&& exists|pk: Seq<u8>|
        #![trigger hex_spec(pk)]
        hex_spec(pk) == ascii_lower(sig.pubkey_hex_spec()) && pk.len() == SLH_PK_LEN
            && slh_accepts_spec(
            pk,
            section_digest_spec(m, stage, Collation::PathBytes),
            b64_decode_spec(sig.signature_b64_spec())->0,
        )
}

/// `sig` is what signing `stage` of `m` under collation `c` with the
/// section key of `passphrase` produces.
pub open spec fn signed_spec(
    sig: SectionSig,
    m: Map<ArtifactKey, Seq<u8>>,
    stage: Stage,
    c: Collation,
    passphrase: Seq<char>,
) -> bool {
    &&& sig.stage_spec() == stage
    &&& sig.param_set_spec() == param_set_id()
    &&& sig.collation_id_spec() == collation_identifier(c)
    &&& sig.pubkey_hex_spec() == hex_spec(slh_keys_spec(passphrase).0)
    &&& sig.signature_b64_spec() == b64_encode_spec(
        slh_signature_spec(slh_keys_spec(passphrase).1, section_digest_spec(m, stage, c)),
    )
}

/// The message of a failed read-length check.
pub open spec fn size_changed_message(path: Seq<char>, expected: u64, actual: u64) -> Seq<char> {
    path + " changed size mid-read (expected "@ + dec(expected as nat) + " bytes, read "@ + dec(actual as nat)
        + ")"@
}

/// Appends `b` to `buf`.
fn append_bytes(buf: &mut Vec<u8>, b: &[u8])
    ensures
        final(buf)@ == old(buf)@ + b@,
{
    let mut i: usize = 0;
    while i < b.len()
        invariant
            i <= b@.len(),
            buf@ == old(buf)@ + b@.take(i as int),
        decreases b@.len() - i,
    {
        buf.push(b[i]);
        assert(b@.take(i + 1) =~= b@.take(i as int).push(b@[i as int]));
        i = i + 1;
    }
    assert(b@.take(b@.len() as int) =~= b@);
}

/// Appends `n` modulo 2^32 as four little-endian bytes.
fn push_le32(buf: &mut Vec<u8>, n: usize)
    ensures
        final(buf)@ == old(buf)@ + le32(n as nat),
{
    let v: u64 = n as u64;
    buf.push((v % 256) as u8);
    buf.push(((v / 256) % 256) as u8);
    buf.push(((v / 65536) % 256) as u8);
    buf.push(((v / 16777216) % 256) as u8);
    assert(buf@ =~= old(buf)@ + le32(n as nat));
}

/// Appends `b` as a length-prefixed field.
fn write_field(buf: &mut Vec<u8>, b: &[u8])
    ensures
        final(buf)@ == old(buf)@ + field_bytes(b@),
{
    push_le32(buf, b.len());
    append_bytes(buf, b);
    assert(buf@ =~= old(buf)@ + field_bytes(b@));
}

/// One of the three key-generation seeds, expanded from `master` under
/// `label`.
fn expand_seed(master: &Vec<u8>, label: &str) -> (r: Vec<u8>)
    ensures
        r@ == expand_seed_spec(master@, label@),
        r@.len() == 32,
{
    let text = concat("einmo:corpus-signer-key:v1:expand:", label);
    let mut bytes = slice_to_vec(text.as_str().as_bytes());
    append_bytes(&mut bytes, master.as_slice());
    sha256(bytes.as_slice())
}

/// The section key pair `(secret, public)` a passphrase derives: one
/// master seed, expanded into the three seeds key generation takes. The
/// same passphrase always gives the same pair.
pub fn derive_slh_keypair(passphrase: &str) -> (r: (Vec<u8>, Vec<u8>))
    requires
        encode_utf8(passphrase@).len() <= 0xFFFF_FFFF,
    ensures
        (r.1@, r.0@) == slh_keys_spec(passphrase@),
        r.0@.len() == 128,
        r.1@.len() == SLH_PK_LEN,
        r.0@.subrange(64, 128) == r.1@,
        r.0@ == slh_keygen_spec(r.0@.subrange(0, 32), r.0@.subrange(32, 64), r.0@.subrange(64, 96)).1,
{
    proof {
        reveal_strlit("einmo:corpus-signer-key:v1");
    }
    let salt = crate::signature::ascii_salt_bytes("einmo:corpus-signer-key:v1");
    let master = argon2id(passphrase.as_bytes(), salt.as_slice());
    let a = expand_seed(&master, "sk_seed");
    let b = expand_seed(&master, "sk_prf");
    let c = expand_seed(&master, "pk_seed");
    let (pk, sk) = slh_keygen(a.as_slice(), b.as_slice(), c.as_slice());
    proof {
        assert(sk@.subrange(64, 96) =~= pk@.subrange(0, 32));
    }
    (sk, pk)
}

/// Fails when a file's length as read differs from the length its
/// metadata reported before reading began: a file changing size under the
/// signer aborts the signature, never yields a truncated digest.
///
/// # Errors
/// [`EinmoError::CorpusSignature`] when the two lengths differ.
pub fn check_read_len(path: &str, expected_len: u64, actual_len: u64) -> (r: Result<(), EinmoError>)
    ensures
        r is Ok <==> expected_len == actual_len,
        r matches Err(e) ==> e matches EinmoError::CorpusSignature(m) && m@ == size_changed_message(
            path@,
            expected_len,
            actual_len,
        ),
{
    if actual_len != expected_len {
        let mut out: Vec<char> = Vec::new();
        push_str(&mut out, path);
        push_str(&mut out, " changed size mid-read (expected ");
        push_dec_u64(&mut out, expected_len);
        push_str(&mut out, " bytes, read ");
        push_dec_u64(&mut out, actual_len);
        push_str(&mut out, ")");
        return Err(EinmoError::CorpusSignature(string_of(out.as_slice())));
    }
    Ok(())
}

/// The ordered manifest of one stage's section: the byte order the digest
/// is computed over. The order is part of the signature.
#[derive(Debug, Clone, PartialEq, Eq)]
pub struct SectionManifest {
    stage: Stage,
    collation: Collation,
    ids: Vec<EinmoId>,
}

impl SectionManifest {
    /// The stage the manifest was built for.
    pub closed spec fn stage_spec(&self) -> Stage {
        self.stage
    }

    /// The collation that ordered it.
    pub closed spec fn collation_spec(&self) -> Collation {
        self.collation
    }

    /// The ids, in manifest order.
    pub closed spec fn ids_spec(&self) -> Seq<Seq<char>> {
        id_views(self.ids@)
    }

    /// The stage the manifest was built for.
    pub fn stage(&self) -> (r: Stage)
        ensures
            r == self.stage_spec(),
    {
        self.stage
    }

    /// The collation that ordered it.
    pub fn collation(&self) -> (r: Collation)
        ensures
            r == self.collation_spec(),
    {
        self.collation
    }

    /// The ids, in manifest order.
    pub fn ids(&self) -> (r: &[EinmoId])
        ensures
            id_views(r@) == self.ids_spec(),
    {
        self.ids.as_slice()
    }

    /// The header bytes the digest starts with.
    fn header_bytes(&self) -> (r: Vec<u8>)
        ensures
            r@ == header_spec(self.stage, self.collation, self.ids_spec()),
    {
        let mut buf: Vec<u8> = Vec::new();
        write_field(&mut buf, self.stage.dir_name().as_bytes());
        write_field(&mut buf, "slh_dsa_sha2_256s".as_bytes());
        write_field(&mut buf, self.collation.identifier().as_bytes());
        push_le32(&mut buf, self.ids.len());
        let ghost pre = buf@;
        let ghost v = id_views(self.ids@);
        let n = self.ids.len();
        let mut i: usize = 0;
        proof {
            assert(v.take(0) =~= Seq::<Seq<char>>::empty());
            assert(pre + id_fields(v.take(0)) =~= pre);
        }
        while i < n
            invariant
                n == self.ids@.len(),
                v == id_views(self.ids@),
                i <= n,
                buf@ == pre + id_fields(v.take(i as int)),
            decreases n - i,
        {
            write_field(&mut buf, self.ids[i].as_str().as_bytes());
            proof {
                assert(v.take(i + 1).drop_last() =~= v.take(i as int));
                assert(v[i as int] == self.ids@[i as int]@);
            }
            i = i + 1;
        }
        proof {
            assert(v.take(n as int) =~= v);
            assert(buf@ =~= header_spec(self.stage, self.collation, v));
        }
        buf
    }
}

/// The message digest a [`CorpusSigner`] signs: SHA-256 over the manifest
/// header followed by every artifact's bytes, joined in manifest order.
#[derive(Debug, Clone, PartialEq, Eq)]
pub struct SectionDigest {
    stage: Stage,
    collation: Collation,
    bytes: Vec<u8>,
}

impl SectionDigest {
    /// The stage digested.
    pub closed spec fn stage_spec(&self) -> Stage {
        self.stage
    }

    /// The collation the manifest was ordered by.
    pub closed spec fn collation_spec(&self) -> Collation {
        self.collation
    }

    /// The 32 digest bytes.
    pub closed spec fn bytes_spec(&self) -> Seq<u8> {
        self.bytes@
    }

    /// The raw 32-byte SHA-256 digest: the signed message.
    pub fn as_bytes(&self) -> (r: &[u8])
        ensures
            r@ == self.bytes_spec(),
    {
        self.bytes.as_slice()
    }
}

/// A section's SLH-DSA signature and the parameters it was made under
/// (parameter set, collation): everything a verifier needs to recompute and
/// check it, recorded so that a configuration difference is never taken
/// for tampering.
#[derive(Debug, Clone, PartialEq, Eq)]
pub struct SectionSig {
    stage: Stage,
    param_set: String,
    collation_id: String,
    pubkey_hex: String,
    signature_b64: String,
}

impl SectionSig {
    /// The stage covered.
    pub closed spec fn stage_spec(&self) -> Stage {
        self.stage
    }

    /// The recorded parameter set.
    pub closed spec fn param_set_spec(&self) -> Seq<char> {
        self.param_set@
    }

    /// The recorded collation identifier.
    pub closed spec fn collation_id_spec(&self) -> Seq<char> {
        self.collation_id@
    }

    /// The recorded public key, hex.
    pub closed spec fn pubkey_hex_spec(&self) -> Seq<char> {
        self.pubkey_hex@
    }

    /// The recorded signature, base64.
    pub closed spec fn signature_b64_spec(&self) -> Seq<char> {
        self.signature_b64@
    }

    /// The stage this signature covers.
    pub fn stage(&self) -> (r: Stage)
        ensures
            r == self.stage_spec(),
    {
        self.stage
    }

    /// The SLH-DSA parameter set the signature was made with.
    pub fn param_set(&self) -> (r: &str)
        ensures
            r@ == self.param_set_spec(),
    {
        self.param_set.as_str()
    }

    /// The hex-encoded SLH-DSA public key that made this signature.
    pub fn pubkey_hex(&self) -> (r: &str)
        ensures
            r@ == self.pubkey_hex_spec(),
    {
        self.pubkey_hex.as_str()
    }

    /// The collation identifier recorded in this signature.
    pub fn collation_id(&self) -> (r: &str)
        ensures
            r@ == self.collation_id_spec(),
    {
        self.collation_id.as_str()
    }

    /// The base64 signature bytes.
    pub fn signature_b64(&self) -> (r: &str)
        ensures
            r@ == self.signature_b64_spec(),
    {
        self.signature_b64.as_str()
    }

    /// A signature record from its five recorded fields, as `.section.sig`
    /// holds them; the stage must be a stage name.
    ///
    /// # Errors
    /// [`EinmoError::CorpusSignature`] naming the stage when it is not one.
    pub fn from_fields(stage: &str, param_set: &str, collation: &str, pubkey: &str, signature: &str) -> (r: Result<
        SectionSig,
        EinmoError,
    >)
        ensures
            r is Ok <==> parse_stage_spec(stage@) is Some,
            r matches Ok(s) ==> Some(s.stage_spec()) == parse_stage_spec(stage@) && s.param_set_spec() == param_set@
                && s.collation_id_spec() == collation@ && s.pubkey_hex_spec() == pubkey@
                && s.signature_b64_spec() == signature@,
            r matches Err(e) ==> e matches EinmoError::CorpusSignature(m) && m@ == "bad stage \""@ + stage@ + "\""@,
    {
        match Stage::parse(stage) {
            Ok(st) => Ok(SectionSig {
                stage: st,
                param_set: own(param_set),
                collation_id: own(collation),
                pubkey_hex: own(pubkey),
                signature_b64: own(signature),
            }),
            Err(_) => {
                let a = concat("bad stage \"", stage);
                Err(EinmoError::CorpusSignature(concat(a.as_str(), "\"")))
            },
        }
    }
}

/// The message of an unrecognized parameter set.
pub open spec fn unknown_param_message(param_set: Seq<char>) -> Seq<char> {
    "unknown SLH-DSA parameter set \""@ + param_set + "\""@
}

/// Whether `sig`'s recorded key and signature decode, to lengths the
/// parameter set fixes, into a valid signature of `msg`.
pub open spec fn signature_checks(sig: SectionSig, msg: Seq<u8>) -> bool {
    &&& b64_decode_spec(sig.signature_b64_spec()) is Some
    &&& b64_decode_spec(sig.signature_b64_spec())->0.len() == SLH_SIG_LEN
    &&& exists|pk: Seq<u8>|
        #![trigger hex_spec(pk)]
        hex_spec(pk) == ascii_lower(sig.pubkey_hex_spec()) && pk.len() == SLH_PK_LEN
            && slh_accepts_spec(pk, msg, b64_decode_spec(sig.signature_b64_spec())->0)
}

/// Decode `sig`'s public key and signature and check the signature
/// against `digest`.
fn check_signature(stage: Stage, sig: &SectionSig, digest: &SectionDigest) -> (r: Result<(), EinmoError>)
    ensures
        r is Ok <==> signature_checks(*sig, digest.bytes_spec()),
        r matches Err(e) ==> e is CorpusSignature,
{
    let pk = match hex_decode_any(sig.pubkey_hex.as_str()) {
        Some(v) => v,
        None => {
            let a = concat("malformed pubkey hex \"", sig.pubkey_hex.as_str());
            return Err(EinmoError::CorpusSignature(concat(a.as_str(), "\"")));
        },
    };
    if pk.len() != SLH_PK_LEN {
        proof {
            assert forall|p: Seq<u8>| #[trigger] hex_spec(p) == ascii_lower(sig.pubkey_hex_spec()) implies p.len()
                != SLH_PK_LEN by {}
        }
        let a = concat("malformed pubkey hex \"", sig.pubkey_hex.as_str());
        return Err(EinmoError::CorpusSignature(concat(a.as_str(), "\"")));
    }
    let bytes = match b64_decode(sig.signature_b64.as_str()) {
        Some(v) => v,
        None => {
            return Err(EinmoError::CorpusSignature(own("malformed section signature bytes")));
        },
    };
    if bytes.len() != SLH_SIG_LEN {
        return Err(EinmoError::CorpusSignature(own("malformed section signature bytes")));
    }
    if slh_verify(pk.as_slice(), digest.bytes.as_slice(), bytes.as_slice()) {
        proof {
            assert(hex_spec(pk@) == ascii_lower(sig.pubkey_hex_spec()));
        }
        Ok(())
    } else {
        proof {
            assert forall|p: Seq<u8>| #[trigger] hex_spec(p) == ascii_lower(sig.pubkey_hex_spec()) implies p == pk@ by {}
        }
        let a = concat("section signature for stage ", stage.dir_name());
        Err(EinmoError::CorpusSignature(concat(a.as_str(), " does not verify")))
    }
}

/// Owns section-level post-quantum attestation for one suite: given a
/// stage it (re)builds the manifest, reads the section through a storage,
/// and signs or verifies.
#[derive(Debug, Clone)]
pub struct CorpusSigner {
    collation: Collation,
}

impl CorpusSigner {
    /// The collation fresh manifests are built under. Verification ignores
    /// it and honours the collation a signature recorded.
    pub closed spec fn collation_spec(&self) -> Collation {
        self.collation
    }

    /// A signer building fresh manifests under `collation`.
    pub fn new(collation: Collation) -> (r: CorpusSigner)
        ensures
            r.collation_spec() == collation,
    {
        CorpusSigner { collation }
    }

    /// A signer for a suite whose configuration names the collation
    /// `configured`, or none (the default).
    ///
    /// # Errors
    /// [`EinmoError::CorpusSignature`] if the configured identifier names no
    /// known collation.
    pub fn for_suite(configured: Option<&str>) -> (r: Result<CorpusSigner, EinmoError>)
        ensures
            configured is None ==> r is Ok,
            configured matches Some(c) ==> (r is Ok <==> c@ == collation_identifier(Collation::PathBytes)),
            r matches Ok(s) ==> s.collation_spec() == Collation::PathBytes,
            r matches Err(e) ==> e is CorpusSignature,
    {
        match configured {
            None => Ok(CorpusSigner::new(Collation::default_collation())),
            Some(c) => match Collation::parse(c) {
                Ok(col) => Ok(CorpusSigner::new(col)),
                Err(e) => Err(e),
            },
        }
    }

    /// The collation fresh manifests are built under.
    pub fn collation(&self) -> (r: Collation)
        ensures
            r == self.collation_spec(),
    {
        self.collation
    }

    /// The manifest of `ids` for `stage` under `collation`: the ids sorted.
    ///
    /// # Errors
    /// [`EinmoError::CorpusSignature`] if two ids collate equal (one occurs
    /// twice).
    pub fn manifest_from(&self, stage: Stage, collation: Collation, ids: Vec<EinmoId>) -> (r: Result<
        SectionManifest,
        EinmoError,
    >)
        ensures
            r is Ok <==> id_views(ids@).no_duplicates(),
            r matches Ok(mf) ==> mf.stage_spec() == stage && mf.collation_spec() == collation
                && path_strictly_sorted(mf.ids_spec()) && mf.ids_spec().len() == ids@.len()
                && mf.ids_spec().to_multiset() == id_views(ids@).to_multiset(),
            r matches Err(e) ==> e is CorpusSignature,
    {
        let mut ids = ids;
        match collation.sort(&mut ids) {
            Ok(()) => Ok(SectionManifest { stage, collation, ids }),
            Err(e) => Err(e),
        }
    }

    /// The manifest of `ids`, the complete listing of `stage`, which
    /// `manifest_spec` orders.
    fn manifest_of_listing<S: EinmoStorage>(
        &self,
        storage: &S,
        stage: Stage,
        collation: Collation,
        ids: Vec<EinmoId>,
    ) -> (r: SectionManifest)
        requires
            id_views(ids@).no_duplicates(),
            forall|x: Seq<char>|
                id_views(ids@).contains(x) <==> storage.artifacts().dom().contains((x, ArtifactLocation::Stage(stage))),
        ensures
            r.stage_spec() == stage,
            r.collation_spec() == collation,
            r.ids_spec() == manifest_spec(storage.artifacts(), stage),
            lists_stage(r.ids_spec(), storage.artifacts(), stage),
    {
        let ghost before = id_views(ids@);
        match self.manifest_from(stage, collation, ids) {
            Ok(mf) => {
                proof {
                    lemma_sorted_listing(before, mf.ids_spec(), storage.artifacts(), stage);
                    lemma_lists_is_manifest(mf.ids_spec(), storage.artifacts(), stage);
                }
                mf
            },
            Err(_) => {
                proof {
                    assert(false);
                }
                SectionManifest { stage, collation, ids: Vec::new() }
            },
        }
    }

    /// The deterministic manifest of `stage` under this signer's collation.
    ///
    /// # Errors
    /// Whatever listing the storage reports ([`EinmoError::Io`],
    /// [`EinmoError::InvalidId`]).
    pub fn manifest<S: EinmoStorage>(&self, storage: &S, stage: Stage) -> (r: Result<SectionManifest, EinmoError>)
        ensures
            r matches Ok(mf) ==> mf.stage_spec() == stage && mf.collation_spec() == self.collation_spec()
                && mf.ids_spec() == manifest_spec(storage.artifacts(), stage)
                && lists_stage(mf.ids_spec(), storage.artifacts(), stage),
            r matches Err(e) ==> e is Io || e is InvalidId,
            storage.infallible() ==> r is Ok,
    {
        match storage.list_ids(ArtifactLocation::Stage(stage)) {
            Ok(ids) => Ok(self.manifest_of_listing(storage, stage, self.collation, ids)),
            Err(e) => Err(e),
        }
    }

    /// The digest of `manifest`'s section: its header, then each artifact's
    /// bytes in manifest order, hashed.
    fn digest_for<S: EinmoStorage>(&self, manifest: &SectionManifest, storage: &S) -> (r: Result<
        SectionDigest,
        EinmoError,
    >)
        ensures
            r matches Ok(d) ==> d.bytes_spec().len() == 32,
            r matches Ok(d) ==> d.stage_spec() == manifest.stage_spec() && d.collation_spec()
                == manifest.collation_spec() && d.bytes_spec() == digest_spec(
                storage.artifacts(),
                manifest.stage_spec(),
                manifest.collation_spec(),
                manifest.ids_spec(),
            ),
            r matches Err(e) ==> e is Io || e is CorpusSignature,
            (forall|x: Seq<char>| #[trigger] manifest.ids_spec().contains(x) ==> storage.artifacts().dom().contains(
                (x, ArtifactLocation::Stage(manifest.stage_spec())),
            )) ==> (r matches Err(e) ==> e is Io),
            storage.infallible() && (forall|x: Seq<char>| #[trigger] manifest.ids_spec().contains(x)
                ==> storage.artifacts().dom().contains((x, ArtifactLocation::Stage(manifest.stage_spec())))) ==> r is Ok,
    {
        let mut buf = manifest.header_bytes();
        let ghost hdr = buf@;
        let ghost v = manifest.ids_spec();
        let ghost m = storage.artifacts();
        let stage = manifest.stage;
        let n = manifest.ids.len();
        let mut i: usize = 0;
        proof {
            assert(v.take(0) =~= Seq::<Seq<char>>::empty());
            assert(hdr + section_bytes(m, stage, v.take(0)) =~= hdr);
        }
        while i < n
            invariant
                n == manifest.ids@.len(),
                v == manifest.ids_spec(),
                v == id_views(manifest.ids@),
                m == storage.artifacts(),
                stage == manifest.stage_spec(),
                i <= n,
                buf@ == hdr + section_bytes(m, stage, v.take(i as int)),
            decreases n - i,
        {
            let id = &manifest.ids[i];
            match storage.read(id, ArtifactLocation::Stage(stage)) {
                Ok(Some(b)) => {
                    append_bytes(&mut buf, b.as_slice());
                    proof {
                        assert(v.take(i + 1).drop_last() =~= v.take(i as int));
                        assert(v[i as int] == id@);
                    }
                },
                Ok(None) => {
                    proof {
                        assert(v[i as int] == id@);
                        assert(v.contains(id@));
                    }
                    let msg = concat(id.as_str(), ": artifact disappeared mid-sign");
                    return Err(EinmoError::CorpusSignature(msg));
                },
                Err(e) => {
                    return Err(e);
                },
            }
            i = i + 1;
        }
        proof {
            assert(v.take(n as int) =~= v);
        }
        let bytes = sha256(buf.as_slice());
        Ok(SectionDigest { stage, collation: manifest.collation, bytes })
    }

    /// The digest of `stage`'s section under this signer's collation.
    ///
    /// # Errors
    /// Whatever listing or reading the storage reports.
    pub fn digest<S: EinmoStorage>(&self, storage: &S, stage: Stage) -> (r: Result<SectionDigest, EinmoError>)
        ensures
            r matches Ok(d) ==> d.stage_spec() == stage && d.collation_spec() == self.collation_spec()
                && d.bytes_spec() == section_digest_spec(storage.artifacts(), stage, self.collation_spec()),
            r matches Err(e) ==> e is Io || e is InvalidId,
            storage.infallible() ==> r is Ok,
    {
        match self.manifest(storage, stage) {
            Ok(mf) => self.digest_for(&mf, storage),
            Err(e) => Err(e),
        }
    }

    /// Sign `digest` with the section key of `key`'s passphrase.
    fn sign_digest(&self, key: &KeySource, digest: &SectionDigest) -> (r: Result<SectionSig, EinmoError>)
        ensures
            r matches Ok(sig) ==> sig.stage_spec() == digest.stage_spec()
                && sig.param_set_spec() == param_set_id()
                && sig.collation_id_spec() == collation_identifier(digest.collation_spec())
                && sig.pubkey_hex_spec() == hex_spec(slh_keys_spec(key.passphrase_spec()).0)
                && sig.signature_b64_spec() == b64_encode_spec(
                slh_signature_spec(slh_keys_spec(key.passphrase_spec()).1, digest.bytes_spec()),
            ) && b64_decode_spec(sig.signature_b64_spec()) == Some(
                slh_signature_spec(slh_keys_spec(key.passphrase_spec()).1, digest.bytes_spec()),
            ) && slh_signature_spec(slh_keys_spec(key.passphrase_spec()).1, digest.bytes_spec()).len()
                == SLH_SIG_LEN && slh_keys_spec(key.passphrase_spec()).0.len() == SLH_PK_LEN
                && slh_accepts_spec(
                slh_keys_spec(key.passphrase_spec()).0,
                digest.bytes_spec(),
                slh_signature_spec(slh_keys_spec(key.passphrase_spec()).1, digest.bytes_spec()),
            ),
            r is Ok,
    {
        let (sk, pk) = derive_slh_keypair(key.passphrase());
        match slh_sign(sk.as_slice(), digest.bytes.as_slice()) {
            Ok(sig_bytes) => {
                let signature_b64 = b64_encode(sig_bytes.as_slice());
                Ok(SectionSig {
                    stage: digest.stage,
                    param_set: own("slh_dsa_sha2_256s"),
                    collation_id: own(digest.collation.identifier()),
                    pubkey_hex: hex_encode(pk.as_slice()),
                    signature_b64,
                })
            },
            Err(e) => Err(EinmoError::CorpusSignature(concat("SLH-DSA signing failed: ", e.as_str()))),
        }
    }

    fn sign_manifest<S: EinmoStorage>(&self, storage: &S, manifest: &SectionManifest, key: &KeySource) -> (r: Result<
        SectionSig,
        EinmoError,
    >)
        requires
            manifest.collation_spec() == self.collation_spec(),
            lists_stage(manifest.ids_spec(), storage.artifacts(), manifest.stage_spec()),
        ensures
            r matches Ok(sig) ==> signed_spec(
                sig,
                storage.artifacts(),
                manifest.stage_spec(),
                self.collation_spec(),
                key.passphrase_spec(),
            ) && verify_ok_spec(sig, storage.artifacts(), manifest.stage_spec()),
            r matches Err(e) ==> e is Io,
            storage.infallible() ==> r is Ok,
    {
        proof {
            lemma_lists_is_manifest(manifest.ids_spec(), storage.artifacts(), manifest.stage_spec());
        }
        let digest = match self.digest_for(manifest, storage) {
            Ok(d) => d,
            Err(e) => {
                return Err(e);
            },
        };
        let r = self.sign_digest(key, &digest);
        proof {
            if r is Ok {
                let sig = r->Ok_0;
                let m = storage.artifacts();
                let stage = manifest.stage_spec();
                let keys = slh_keys_spec(key.passphrase_spec());
                let pk = keys.0;
                let s = slh_signature_spec(keys.1, digest.bytes_spec());
                assert(self.collation_spec() == Collation::PathBytes);
                assert(digest.bytes_spec() == section_digest_spec(m, stage, Collation::PathBytes));
                lemma_hex_is_lowercase(pk);
                assert(b64_decode_spec(sig.signature_b64_spec()) == Some(s));
                assert(hex_spec(pk) == ascii_lower(sig.pubkey_hex_spec()) && pk.len() == SLH_PK_LEN
                    && slh_accepts_spec(pk, section_digest_spec(m, stage, Collation::PathBytes), s));
            }
        }
        r
    }

    /// Sign `stage`'s section with the section key of `key`'s passphrase,
    /// over a manifest built under this signer's collation. The signature
    /// returned verifies against the section as it was read
    /// (`verify_ok_spec`).
    ///
    /// # Errors
    /// Whatever listing or reading the storage reports, or
    /// [`EinmoError::CorpusSignature`] if SLH-DSA signing fails.
    pub fn sign<S: EinmoStorage>(&self, storage: &S, stage: Stage, key: &KeySource) -> (r: Result<
        SectionSig,
        EinmoError,
    >)
        ensures
            r matches Ok(sig) ==> signed_spec(
                sig,
                storage.artifacts(),
                stage,
                self.collation_spec(),
                key.passphrase_spec(),
            ) && verify_ok_spec(sig, storage.artifacts(), stage),
            r matches Err(e) ==> e is Io || e is InvalidId,
            storage.infallible() ==> r is Ok,
    {
        match self.manifest(storage, stage) {
            Ok(mf) => self.sign_manifest(storage, &mf, key),
            Err(e) => Err(e),
        }
    }

    /// As [`Self::sign`], over a manifest built from `ids`, the listing the
    /// caller already holds.
    ///
    /// # Errors
    /// [`EinmoError::CorpusSignature`] if an id occurs twice or signing
    /// fails; whatever reading the storage reports.
    pub fn sign_ids<S: EinmoStorage>(&self, storage: &S, stage: Stage, key: &KeySource, ids: Vec<EinmoId>) -> (r:
        Result<SectionSig, EinmoError>)
        requires
            forall|x: Seq<char>|
                id_views(ids@).contains(x) <==> storage.artifacts().dom().contains((x, ArtifactLocation::Stage(stage))),
        ensures
            r matches Ok(sig) ==> signed_spec(
                sig,
                storage.artifacts(),
                stage,
                self.collation_spec(),
                key.passphrase_spec(),
            ) && verify_ok_spec(sig, storage.artifacts(), stage)
                && manifest_spec(storage.artifacts(), stage).len() == ids@.len(),
            !id_views(ids@).no_duplicates() ==> r is Err,
            r matches Err(e) ==> e is Io || (e is CorpusSignature && !id_views(ids@).no_duplicates()),
            storage.infallible() && id_views(ids@).no_duplicates() ==> r is Ok,
    {
        let ghost before = id_views(ids@);
        match self.manifest_from(stage, self.collation, ids) {
            Ok(mf) => {
                proof {
                    lemma_sorted_listing(before, mf.ids_spec(), storage.artifacts(), stage);
                    lemma_lists_is_manifest(mf.ids_spec(), storage.artifacts(), stage);
                }
                self.sign_manifest(storage, &mf, key)
            },
            Err(e) => Err(e),
        }
    }

    /// Recompute `stage`'s manifest and digest, under the collation the
    /// signature recorded, and check `sig` against it. A failure means an
    /// artifact was added, removed, reordered or altered under the section
    /// as a whole, or the record itself is malformed.
    ///
    /// # Errors
    /// [`EinmoError::CorpusSignature`] if `sig` names an unknown parameter
    /// set or collation, is malformed, or does not verify; whatever listing
    /// or reading the storage reports.
    pub fn verify<S: EinmoStorage>(&self, storage: &S, stage: Stage, sig: &SectionSig) -> (r: Result<(), EinmoError>)
        ensures
            r is Ok ==> verify_ok_spec(*sig, storage.artifacts(), stage),
            verify_ok_spec(*sig, storage.artifacts(), stage) ==> (r is Ok || (r matches Err(e) && (e is Io
                || e is InvalidId))),
            sig.param_set_spec() != param_set_id() ==> (r matches Err(e) && e is CorpusSignature
                && e->CorpusSignature_0@ == unknown_param_message(sig.param_set_spec())),
            sig.param_set_spec() == param_set_id() && sig.collation_id_spec() != collation_identifier(
                Collation::PathBytes,
            ) ==> (r matches Err(e) && e matches EinmoError::CorpusSignature(m)
                && m@ == unknown_collation_message(sig.collation_id_spec())),
            r matches Err(e) ==> e is CorpusSignature || e is Io || e is InvalidId,
            storage.infallible() ==> (r is Ok <==> verify_ok_spec(*sig, storage.artifacts(), stage))
                && (r matches Err(e) ==> e is CorpusSignature),
    {
        if !str_eq(sig.param_set.as_str(), "slh_dsa_sha2_256s") {
            let a = concat("unknown SLH-DSA parameter set \"", sig.param_set.as_str());
            return Err(EinmoError::CorpusSignature(concat(a.as_str(), "\"")));
        }
        let collation = match Collation::parse(sig.collation_id.as_str()) {
            Ok(c) => c,
            Err(e) => {
                return Err(e);
            },
        };
        let ids = match storage.list_ids(ArtifactLocation::Stage(stage)) {
            Ok(ids) => ids,
            Err(e) => {
                return Err(e);
            },
        };
        let manifest = self.manifest_of_listing(storage, stage, collation, ids);
        let digest = match self.digest_for(&manifest, storage) {
            Ok(d) => d,
            Err(e) => {
                return Err(e);
            },
        };
        proof {
            assert(collation == Collation::PathBytes);
            assert(digest.bytes_spec() == section_digest_spec(storage.artifacts(), stage, Collation::PathBytes));
        }
        check_signature(stage, sig, &digest)
    }
}

} // verus!
