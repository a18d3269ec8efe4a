//! The primitives stamps, section signatures and promotion gates are built
//! from: Argon2id (`argon2`) for passphrase key derivation, SHA-256
//! (`sha2`) for seed expansion and digests, Ed25519
//! (`ed25519-dalek`) for per-artifact stamps, SLH-DSA-SHA2-256s (`fips205`)
//! for section signatures, base64 (`base64`) for their text
//! form, and zstd compression for the passphrase-effectiveness gate. Each
//! result is named by a function of the call's arguments alone; the facts
//! stated beyond that are each scheme's own correctness (a signature made
//! with a key verifies under that key's public half) and each text
//! encoding's round trip.

use vstd::prelude::*;
use ed25519_dalek::{Signer, Verifier};
use sha2::Digest;
use base64::Engine;
use fips205::slh_dsa_sha2_256s;
use fips205::traits::{KeyGen, SerDes};

verus! {

/// SHA-256 of `data`.
pub uninterp spec fn sha256_spec(data: Seq<u8>) -> Seq<u8>;

/// The Ed25519 public key of the 32-byte secret seed `seed`.
pub uninterp spec fn ed25519_public_spec(seed: Seq<u8>) -> Seq<u8>;

/// The Ed25519 signature of `msg` under the 32-byte secret seed `seed`.
pub uninterp spec fn ed25519_signature_spec(seed: Seq<u8>, msg: Seq<u8>) -> Seq<u8>;

/// Whether `sig` is a valid Ed25519 signature of `msg` under public key `pk`.
pub uninterp spec fn ed25519_accepts_spec(pk: Seq<u8>, msg: Seq<u8>, sig: Seq<u8>) -> bool;

/// The length of the zstd frame compressing `data` at `level`, or `None`
/// if compression fails.
pub uninterp spec fn zstd_len_spec(data: Seq<u8>, level: i32) -> Option<usize>;

/// `zstd::stream::encode_all`: the size of `data` compressed into one zstd
/// frame at `level` (a function of `data` and `level` alone), or `None`
/// when the encoder reports an error.
#[verifier::external_body]
pub(crate) fn zstd_compressed_len(data: &[u8], level: i32) -> (r: Option<usize>)
    ensures
        r == zstd_len_spec(data@, level),
{
    match zstd::stream::encode_all(data, level) {
        Ok(v) => Some(v.len()),
        Err(_) => None,
    }
}

/// Argon2id (version 0x13, 19 MiB of memory, two passes, one lane) of
/// password `pwd` under salt `salt`, 32 bytes.
pub uninterp spec fn argon2id_spec(pwd: Seq<u8>, salt: Seq<u8>) -> Seq<u8>;

/// `argon2::Argon2::default().hash_password_into`: the default Argon2
/// instance (Argon2id, version 0x13, m = 19456 KiB, t = 2, p = 1) hashing
/// `pwd` under `salt` into a 32-byte output, a function of the two inputs
/// alone. The call fails only for a salt under 8 bytes or an input over
/// 2^32 - 1 bytes, which `requires` leaves out.
#[verifier::external_body]
pub(crate) fn argon2id(pwd: &[u8], salt: &[u8]) -> (r: Vec<u8>)
    requires
        8 <= salt@.len() <= 0xFFFF_FFFF,
        pwd@.len() <= 0xFFFF_FFFF,
    ensures
        r@ == argon2id_spec(pwd@, salt@),
        r@.len() == 32,
{
    let mut out = [0u8; 32];
    let _done = argon2::Argon2::default().hash_password_into(pwd, salt, &mut out);
    out.to_vec()
}

/// `sha2::Sha256::digest`: the 32-byte SHA-256 digest of `data`, a
/// function of `data` alone.
#[verifier::external_body]
pub(crate) fn sha256(data: &[u8]) -> (r: Vec<u8>)
    ensures
        r@ == sha256_spec(data@),
        r@.len() == 32,
{
    <sha2::Sha256 as Digest>::digest(data).to_vec()
}

/// `ed25519_dalek::SigningKey::verifying_key`: the 32-byte public key of
/// the secret seed, a function of the seed alone.
#[verifier::external_body]
pub(crate) fn ed25519_public(seed: &[u8]) -> (r: Vec<u8>)
    requires
        seed@.len() == 32,
    ensures
        r@ == ed25519_public_spec(seed@),
        r@.len() == 32,
{
    let seed: [u8; 32] = seed.try_into().unwrap();
    ed25519_dalek::SigningKey::from_bytes(&seed).verifying_key().to_bytes().to_vec()
}

/// `ed25519_dalek::SigningKey::sign`: the 64-byte deterministic (RFC 8032)
/// signature of `msg`, which verifies under the seed's own public key.
#[verifier::external_body]
pub(crate) fn ed25519_sign(seed: &[u8], msg: &[u8]) -> (r: Vec<u8>)
    requires
        seed@.len() == 32,
    ensures
        r@ == ed25519_signature_spec(seed@, msg@),
        r@.len() == 64,
        ed25519_accepts_spec(ed25519_public_spec(seed@), msg@, r@),
{
    let seed: [u8; 32] = seed.try_into().unwrap();
    ed25519_dalek::SigningKey::from_bytes(&seed).sign(msg).to_bytes().to_vec()
}

/// `ed25519_dalek::VerifyingKey::verify`: whether `sig` is a valid
/// signature of `msg` under `pk` (a key that is not a curve point verifies
/// nothing).
#[verifier::external_body]
pub(crate) fn ed25519_verify(pk: &[u8], msg: &[u8], sig: &[u8]) -> (r: bool)
    requires
        pk@.len() == 32,
        sig@.len() == 64,
    ensures
        r == ed25519_accepts_spec(pk@, msg@, sig@),
{
    let pk: [u8; 32] = pk.try_into().unwrap();
    let sig: [u8; 64] = sig.try_into().unwrap();
    match ed25519_dalek::VerifyingKey::from_bytes(&pk) {
        Ok(vk) => vk.verify(msg, &ed25519_dalek::Signature::from_bytes(&sig)).is_ok(),
        Err(_) => false,
    }
}

/// The SLH-DSA-SHA2-256s key pair `(public, secret)` generated from the
/// three 32-byte seeds `sk_seed`, `sk_prf`, `pk_seed`.
pub uninterp spec fn slh_keygen_spec(sk_seed: Seq<u8>, sk_prf: Seq<u8>, pk_seed: Seq<u8>) -> (Seq<u8>, Seq<u8>);

/// The deterministic SLH-DSA-SHA2-256s signature of `msg` (empty context)
/// under the serialized secret key `sk`.
pub uninterp spec fn slh_signature_spec(sk: Seq<u8>, msg: Seq<u8>) -> Seq<u8>;

/// Whether `sig` is a valid SLH-DSA-SHA2-256s signature of `msg` (empty
/// context) under the serialized public key `pk`.
pub uninterp spec fn slh_accepts_spec(pk: Seq<u8>, msg: Seq<u8>, sig: Seq<u8>) -> bool;

/// The length of an SLH-DSA-SHA2-256s public key.
pub const SLH_PK_LEN: usize = 64;

/// The length of an SLH-DSA-SHA2-256s secret key.
pub const SLH_SK_LEN: usize = 128;

/// The length of an SLH-DSA-SHA2-256s signature.
pub const SLH_SIG_LEN: usize = 29792;

/// `fips205::slh_dsa_sha2_256s::KG::keygen_with_seeds`, both halves
/// serialized with `into_bytes`: a function of the three seeds alone. The
/// secret key serializes as `sk_seed ‖ sk_prf ‖ pk_seed ‖ pk_root` and the
/// public key as `pk_seed ‖ pk_root`, so the public key is the secret key's
/// second half.
#[verifier::external_body]
pub(crate) fn slh_keygen(sk_seed: &[u8], sk_prf: &[u8], pk_seed: &[u8]) -> (r: (Vec<u8>, Vec<u8>))
    requires
        sk_seed@.len() == 32,
        sk_prf@.len() == 32,
        pk_seed@.len() == 32,
    ensures
        (r.0@, r.1@) == slh_keygen_spec(sk_seed@, sk_prf@, pk_seed@),
        r.0@.len() == SLH_PK_LEN,
        r.1@.len() == SLH_SK_LEN,
        r.1@.subrange(0, 32) == sk_seed@,
        r.1@.subrange(32, 64) == sk_prf@,
        r.1@.subrange(64, 128) == r.0@,
        r.0@.subrange(0, 32) == pk_seed@,
{
    let a: [u8; 32] = sk_seed.try_into().unwrap();
    let b: [u8; 32] = sk_prf.try_into().unwrap();
    let c: [u8; 32] = pk_seed.try_into().unwrap();
    let (pk, sk) = <slh_dsa_sha2_256s::KG as KeyGen>::keygen_with_seeds(&a, &b, &c);
    (pk.into_bytes().to_vec(), sk.into_bytes().to_vec())
}

/// `fips205::slh_dsa_sha2_256s::PrivateKey::try_from_bytes` followed by
/// `try_sign_with_rng` with an empty context and `hedged = false`, the
/// deterministic variant, which draws nothing from the generator it is
/// handed. When both succeed the signature is a function of the key and
/// the message alone, and it verifies under the key's public half (the
/// second half of its serialization). The crate reports an error (its
/// text is returned) only for a secret key whose public root does not
/// match its seeds, so a key exactly as key generation serialized it
/// always signs.
#[verifier::external_body]
pub(crate) fn slh_sign(sk: &[u8], msg: &[u8]) -> (r: Result<Vec<u8>, String>)
    requires
        sk@.len() == SLH_SK_LEN,
    ensures
        r matches Ok(s) ==> s@ == slh_signature_spec(sk@, msg@),
        r matches Ok(s) ==> s@.len() == SLH_SIG_LEN,
        r matches Ok(s) ==> slh_accepts_spec(sk@.subrange(64, 128), msg@, s@),
        sk@ == slh_keygen_spec(sk@.subrange(0, 32), sk@.subrange(32, 64), sk@.subrange(64, 96)).1 ==> r is Ok,
{
    let bytes: [u8; 128] = sk.try_into().unwrap();
    match slh_dsa_sha2_256s::PrivateKey::try_from_bytes(&bytes) {
        Ok(key) => match <slh_dsa_sha2_256s::PrivateKey as fips205::traits::Signer>::try_sign_with_rng(
            &key, &mut rand_core::OsRng, msg, b"", false) {
            Ok(sig) => Ok(sig.to_vec()),
            Err(e) => Err(e.to_string()),
        },
        Err(e) => Err(e.to_string()),
    }
}

/// `fips205::slh_dsa_sha2_256s::PublicKey::try_from_bytes` (which accepts
/// any 64 bytes) followed by `verify` with an empty context: whether `sig`
/// is a valid signature of `msg` under `pk`.
#[verifier::external_body]
pub(crate) fn slh_verify(pk: &[u8], msg: &[u8], sig: &[u8]) -> (r: bool)
    requires
        pk@.len() == SLH_PK_LEN,
        sig@.len() == SLH_SIG_LEN,
    ensures
        r == slh_accepts_spec(pk@, msg@, sig@),
{
    let key: [u8; 64] = pk.try_into().unwrap();
    let sig: [u8; 29792] = sig.try_into().unwrap();
    match slh_dsa_sha2_256s::PublicKey::try_from_bytes(&key) {
        Ok(k) => <slh_dsa_sha2_256s::PublicKey as fips205::traits::Verifier>::verify(&k, msg, &sig, b""),
        Err(_) => false,
    }
}

/// Standard padded base64 of `b`.
pub uninterp spec fn b64_encode_spec(b: Seq<u8>) -> Seq<char>;

/// The bytes whose standard padded base64 is `s`, or `None` if `s` is not
/// canonical standard base64.
pub uninterp spec fn b64_decode_spec(s: Seq<char>) -> Option<Seq<u8>>;

/// `base64::engine::general_purpose::STANDARD.encode`: standard alphabet
/// with padding, a function of `b` alone, which that engine's `decode`
/// turns back into `b`. (The encoder panics only when the encoded length
/// overflows `usize`, which the bound rules out.)
#[verifier::external_body]
pub(crate) fn b64_encode(b: &[u8]) -> (r: String)
    requires
        b@.len() < 0x1000_0000,
    ensures
        r@ == b64_encode_spec(b@),
        b64_decode_spec(r@) == Some(b@),
{
    base64::engine::general_purpose::STANDARD.encode(b)
}

/// `base64::engine::general_purpose::STANDARD.decode`: the decoded bytes,
/// or `None` where the engine reports an error.
#[verifier::external_body]
pub(crate) fn b64_decode(s: &str) -> (r: Option<Vec<u8>>)
    ensures
        r is Some <==> b64_decode_spec(s@) is Some,
        r matches Some(v) ==> b64_decode_spec(s@) == Some(v@),
{
    base64::engine::general_purpose::STANDARD.decode(s).ok()
}

} // verus!
