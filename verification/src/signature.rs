//! Stamps: the signed attestations an envelope accumulates, one per
//! pipeline step (`compiled`, `configured`, `stage:<name>`, ...).

use vstd::prelude::*;
use vstd::slice::slice_to_vec;
use vstd::utf8::encode_utf8;
use crate::codec::{
    encode_fields, encode_records, fields_text, lemma_encode_push, records_text, records_view,
    strings_view,
};
use crate::crypto::{
    ed25519_accepts_spec, ed25519_public, ed25519_public_spec, ed25519_sign,
    ed25519_signature_spec, ed25519_verify, sha256, sha256_spec, argon2id, argon2id_spec,
};
use crate::format::{render, signed_prefix_spec, EinmoFile, prefix_tokens};
use crate::hex::{hex_decode, hex_encode, hex_spec};
use crate::text::{chars_of, concat, str_eq};

verus! {

/// One signed attestation over an envelope's content and every stamp
/// before it.
#[derive(Debug)]
pub struct Stamp {
    /// What the stamp attests (`compiled`, `configured`, `stage:checked`).
    pub key: String,
    /// The signer's Ed25519 public key, lowercase hex.
    pub pubkey_hex: String,
    /// When the stamp was made (ISO-8601, supplied by the caller).
    pub timestamp: String,
    /// The Ed25519 signature, lowercase hex.
    pub signature_hex: String,
}

/// A stamp as the four text fields the envelope stores.
pub open spec fn stamp_record(s: Stamp) -> Seq<Seq<char>> {
    seq![s.key@, s.pubkey_hex@, s.timestamp@, s.signature_hex@]
}

/// The records of a run of stamps.
pub open spec fn stamp_records(s: Seq<Stamp>) -> Seq<Seq<Seq<char>>> {
    Seq::new(s.len(), |i: int| stamp_record(s[i]))
}

/// The ordered stamp chain of one envelope.
#[derive(Debug)]
pub struct Stamps {
    /// The stamps, oldest first.
    pub entries: Vec<Stamp>,
}

impl Stamp {
    /// What the stamp attests.
    pub fn key(&self) -> (r: &str)
        ensures
            r@ == self.key@,
    {
        self.key.as_str()
    }

    /// The signer's public key, lowercase hex.
    pub fn pubkey_hex(&self) -> (r: &str)
        ensures
            r@ == self.pubkey_hex@,
    {
        self.pubkey_hex.as_str()
    }

    /// When the stamp was made.
    pub fn timestamp(&self) -> (r: &str)
        ensures
            r@ == self.timestamp@,
    {
        self.timestamp.as_str()
    }

    /// A copy of this stamp.
    pub fn duplicate(&self) -> (r: Stamp)
        ensures
            stamp_record(r) == stamp_record(*self),
    {
        Stamp {
            key: self.key.clone(),
            pubkey_hex: self.pubkey_hex.clone(),
            timestamp: self.timestamp.clone(),
            signature_hex: self.signature_hex.clone(),
        }
    }
}

impl Stamps {
    /// An empty chain.
    pub fn new() -> (r: Stamps)
        ensures
            r.entries@.len() == 0,
    {
        Stamps { entries: Vec::new() }
    }

    /// The stamps, oldest first.
    pub fn entries(&self) -> (r: &[Stamp])
        ensures
            r@ == self.entries@,
    {
        self.entries.as_slice()
    }

    /// The records of this chain.
    pub open spec fn records(&self) -> Seq<Seq<Seq<char>>> {
        stamp_records(self.entries@)
    }
}

/// The salt a passphrase is stretched under to give a stamp signing seed.
pub open spec fn stamp_key_salt() -> Seq<char> {
    "einmo:stamp-key:v1"@
}

/// The signing seed a passphrase derives: one Argon2id run over the
/// passphrase's bytes under the stamp key's salt.
pub open spec fn derive_seed_spec(passphrase: Seq<char>) -> Seq<u8> {
    argon2id_spec(encode_utf8(passphrase), encode_utf8(stamp_key_salt()))
}

/// The public key (lowercase hex) a passphrase derives.
pub open spec fn derived_pubkey_hex(passphrase: Seq<char>) -> Seq<char> {
    hex_spec(ed25519_public_spec(derive_seed_spec(passphrase)))
}

/// The well-known computer key: the one the empty passphrase derives. A
/// stamp under it is a non-human attestation.
pub open spec fn computer_pubkey_hex() -> Seq<char> {
    derived_pubkey_hex(Seq::empty())
}

/// A signing keypair derived from a passphrase.
pub struct StageKeypair {
    seed: Vec<u8>,
    public: Vec<u8>,
}

impl StageKeypair {
    #[verifier::type_invariant]
    spec fn inv(&self) -> bool {
        &&& self.seed@.len() == 32
        &&& self.public@ == ed25519_public_spec(self.seed@)
        &&& self.public@.len() == 32
    }

    /// The secret seed.
    pub closed spec fn seed_spec(&self) -> Seq<u8> {
        self.seed@
    }

    /// The public key, lowercase hex.
    pub closed spec fn pubkey_hex_spec(&self) -> Seq<char> {
        hex_spec(self.public@)
    }

    /// Derive the keypair of `passphrase` (Argon2id, deliberately slow).
    pub fn derive(passphrase: &str) -> (r: StageKeypair)
        requires
            encode_utf8(passphrase@).len() <= 0xFFFF_FFFF,
        ensures
            r.seed_spec() == derive_seed_spec(passphrase@),
            r.pubkey_hex_spec() == derived_pubkey_hex(passphrase@),
    {
        proof {
            reveal_strlit("einmo:stamp-key:v1");
        }
        let salt = ascii_salt_bytes("einmo:stamp-key:v1");
        let seed = argon2id(passphrase.as_bytes(), salt.as_slice());
        let public = ed25519_public(seed.as_slice());
        StageKeypair { seed, public }
    }

    /// The public key, lowercase hex.
    pub fn pubkey_hex(&self) -> (r: String)
        ensures
            r@ == self.pubkey_hex_spec(),
    {
        hex_encode(self.public.as_slice())
    }
}

/// The bytes of an ASCII salt text, at least 8 of them.
pub(crate) fn ascii_salt_bytes(salt: &str) -> (r: Vec<u8>)
    requires
        vstd::utf8::is_ascii_chars(salt@),
        8 <= salt@.len() <= 0xFFFF_FFFF,
    ensures
        r@ == encode_utf8(salt@),
        8 <= r@.len() <= 0xFFFF_FFFF,
{
    proof {
        vstd::utf8::is_ascii_chars_encode_utf8(salt@);
    }
    slice_to_vec(salt.as_bytes())
}

/// Whether `pubkey_hex` is the well-known computer key.
pub fn is_computer_key(pubkey_hex: &str) -> (r: bool)
    ensures
        r == (pubkey_hex@ == computer_pubkey_hex()),
{
    proof {
        reveal_strlit("");
        assert(""@ =~= Seq::<char>::empty());
        assert(encode_utf8(""@) =~= Seq::<u8>::empty());
    }
    let computer = StageKeypair::derive("");
    str_eq(pubkey_hex, computer.pubkey_hex().as_str())
}

/// The bytes a stamp signs: the envelope's signed prefix, then every
/// earlier stamp, then the stamp's own key, public key and timestamp.
pub open spec fn stamp_message(
    prefix: Seq<char>,
    earlier: Seq<Seq<Seq<char>>>,
    key: Seq<char>,
    pubkey: Seq<char>,
    timestamp: Seq<char>,
) -> Seq<u8> {
    encode_utf8(prefix + encode_fields(seq![encode_records(earlier), key, pubkey, timestamp]))
}

/// Whether `rec` is a stamp record whose signature verifies under its own
/// public key, over `prefix` and the stamps before it.
pub open spec fn stamp_ok(prefix: Seq<char>, earlier: Seq<Seq<Seq<char>>>, rec: Seq<Seq<char>>) -> bool {
    &&& rec.len() == 4
    &&& exists|pk: Seq<u8>, sig: Seq<u8>|
        pk.len() == 32 && sig.len() == 64 && #[trigger] hex_spec(pk) == rec[1] && #[trigger] hex_spec(sig) == rec[3]
            && ed25519_accepts_spec(pk, stamp_message(prefix, earlier, rec[0], rec[1], rec[2]), sig)
}

/// Whether every stamp of a chain verifies.
pub open spec fn chain_ok(prefix: Seq<char>, recs: Seq<Seq<Seq<char>>>) -> bool {
    forall|i: int| 0 <= i < recs.len() ==> stamp_ok(prefix, recs.take(i), #[trigger] recs[i])
}

/// A chain extended by one verifying stamp still verifies.
pub proof fn lemma_chain_push(prefix: Seq<char>, recs: Seq<Seq<Seq<char>>>, rec: Seq<Seq<char>>)
    requires
        chain_ok(prefix, recs),
        stamp_ok(prefix, recs, rec),
    ensures
        chain_ok(prefix, recs.push(rec)),
{
    let n = recs.push(rec);
    assert forall|i: int| 0 <= i < n.len() implies stamp_ok(prefix, n.take(i), #[trigger] n[i]) by {
        if i < recs.len() {
            assert(n.take(i) =~= recs.take(i));
            assert(n[i] == recs[i]);
        } else {
            assert(n.take(i) =~= recs);
        }
    }
}

/// The message bytes for a stamp, as exec values.
fn message_bytes(prefix: &str, earlier: &Vec<Vec<String>>, key: &str, pubkey: &str, timestamp: &str) -> (r: Vec<u8>)
    ensures
        r@ == stamp_message(prefix@, records_view(earlier@), key@, pubkey@, timestamp@),
{
    let mut tail: Vec<String> = Vec::new();
    tail.push(records_text(earlier));
    tail.push(crate::text::own(key));
    tail.push(crate::text::own(pubkey));
    tail.push(crate::text::own(timestamp));
    assert(strings_view(tail@) =~= seq![encode_records(records_view(earlier@)), key@, pubkey@, timestamp@]);
    let t = fields_text(&tail);
    let text = concat(prefix, t.as_str());
    slice_to_vec(text.as_str().as_bytes())
}

/// Whether one stamp record verifies.
fn check_stamp(prefix: &str, earlier: &Vec<Vec<String>>, rec: &Vec<String>) -> (r: bool)
    ensures
        r == stamp_ok(prefix@, records_view(earlier@), strings_view(rec@)),
{
    let ghost rv = strings_view(rec@);
    if rec.len() != 4 {
        return false;
    }
    let pk = hex_decode(chars_of(rec[1].as_str()).as_slice());
    let sig = hex_decode(chars_of(rec[3].as_str()).as_slice());
    let ghost msg = stamp_message(prefix@, records_view(earlier@), rv[0], rv[1], rv[2]);
    match (pk, sig) {
        (Some(pk), Some(sig)) => {
            if pk.len() != 32 || sig.len() != 64 {
                proof {
                    assert forall|p: Seq<u8>, q: Seq<u8>|
                        p.len() == 32 && q.len() == 64 && #[trigger] hex_spec(p) == rv[1] && #[trigger] hex_spec(q) == rv[3]
                        implies false by {
                        assert(rv[1] == rec@[1]@);
                        assert(rv[3] == rec@[3]@);
                    }
                }
                return false;
            }
            let m = message_bytes(prefix, earlier, rec[0].as_str(), rec[1].as_str(), rec[2].as_str());
            let ok = ed25519_verify(pk.as_slice(), m.as_slice(), sig.as_slice());
            proof {
                assert(rv[0] == rec@[0]@ && rv[1] == rec@[1]@ && rv[2] == rec@[2]@ && rv[3] == rec@[3]@);
                if ok {
                    assert(hex_spec(pk@) == rv[1] && hex_spec(sig@) == rv[3]);
                }
                assert forall|p: Seq<u8>, q: Seq<u8>|
                    p.len() == 32 && q.len() == 64 && #[trigger] hex_spec(p) == rv[1] && #[trigger] hex_spec(q) == rv[3]
                        && ed25519_accepts_spec(p, msg, q) implies ok by {
                    assert(p == pk@);
                    assert(q == sig@);
                }
            }
            ok
        },
        _ => {
            proof {
                assert forall|p: Seq<u8>, q: Seq<u8>|
                    p.len() == 32 && q.len() == 64 && #[trigger] hex_spec(p) == rv[1] && #[trigger] hex_spec(q) == rv[3]
                    implies false by {
                    assert(rv[1] == rec@[1]@);
                    assert(rv[3] == rec@[3]@);
                }
            }
            false
        },
    }
}

impl Stamps {
    /// Whether every stamp verifies over `prefix` and the stamps before it.
    pub fn verify_all(&self, prefix: &str) -> (r: bool)
        ensures
            r == chain_ok(prefix@, self.records()),
    {
        let rows = crate::format::stamp_rows(self.entries.as_slice());
        let mut earlier: Vec<Vec<String>> = Vec::new();
        let mut i: usize = 0;
        while i < rows.len()
            invariant
                i <= rows@.len(),
                records_view(rows@) == self.records(),
                records_view(earlier@) == self.records().take(i as int),
                forall|k: int| 0 <= k < i ==> stamp_ok(prefix@, self.records().take(k), #[trigger] self.records()[k]),
            decreases rows@.len() - i,
        {
            let ok = check_stamp(prefix, &earlier, &rows[i]);
            assert(strings_view(rows@[i as int]@) == self.records()[i as int]);
            if !ok {
                return false;
            }
            let row = crate::format::copy_strings(&rows[i]);
            let ghost prev = records_view(earlier@);
            earlier.push(row);
            assert(records_view(earlier@) =~= prev.push(self.records()[i as int]));
            assert(self.records().take(i + 1) =~= self.records().take(i as int).push(self.records()[i as int]));
            i = i + 1;
        }
        true
    }

    /// Sign a new stamp `key` under `keypair` over `prefix` and every stamp
    /// already in the chain, and append it. Every earlier stamp is kept as
    /// it was, and a chain that verified still verifies.
    pub fn sign_onto(&mut self, prefix: &str, key: &str, keypair: &StageKeypair, timestamp: &str)
        ensures
            final(self).records() == old(self).records().push(seq![
                key@,
                keypair.pubkey_hex_spec(),
                timestamp@,
                hex_spec(ed25519_signature_spec(
                    keypair.seed_spec(),
                    stamp_message(prefix@, old(self).records(), key@, keypair.pubkey_hex_spec(), timestamp@),
                )),
            ]),
            stamp_ok(prefix@, old(self).records(), final(self).records().last()),
            chain_ok(prefix@, old(self).records()) ==> chain_ok(prefix@, final(self).records()),
    {
        proof {
            use_type_invariant(keypair);
        }
        let rows = crate::format::stamp_rows(self.entries.as_slice());
        let pubkey = keypair.pubkey_hex();
        let m = message_bytes(prefix, &rows, key, pubkey.as_str(), timestamp);
        let sig = ed25519_sign(keypair.seed.as_slice(), m.as_slice());
        let stamp = Stamp {
            key: crate::text::own(key),
            pubkey_hex: pubkey,
            timestamp: crate::text::own(timestamp),
            signature_hex: hex_encode(sig.as_slice()),
        };
        let ghost old_recs = self.records();
        self.entries.push(stamp);
        proof {
            assert(self.records() =~= old_recs.push(stamp_record(stamp)));
            let rec = stamp_record(stamp);
            assert(hex_spec(keypair.public@) == rec[1]);
            assert(hex_spec(sig@) == rec[3]);
            assert(records_view(rows@) == old_recs);
            assert(rec[0] == key@ && rec[1] == keypair.pubkey_hex_spec() && rec[2] == timestamp@);
            assert(keypair.public@.len() == 32 && sig@.len() == 64);
            assert(ed25519_accepts_spec(keypair.public@, stamp_message(prefix@, old_recs, rec[0], rec[1], rec[2]), sig@));
            assert(stamp_ok(prefix@, old_recs, rec));
            if chain_ok(prefix@, old_recs) {
                lemma_chain_push(prefix@, old_recs, rec);
            }
        }
    }

    /// Whether some stamp has key `key` and public key `pubkey_hex`.
    pub fn has_stage_stamp_from(&self, key: &str, pubkey_hex: &str) -> (r: bool)
        ensures
            r == exists|i: int| 0 <= i < self.entries@.len() && (#[trigger] self.entries@[i]).key@ == key@
                && self.entries@[i].pubkey_hex@ == pubkey_hex@,
    {
        let mut i: usize = 0;
        while i < self.entries.len()
            invariant
                i <= self.entries@.len(),
                forall|k: int| 0 <= k < i ==> !((#[trigger] self.entries@[k]).key@ == key@
                    && self.entries@[k].pubkey_hex@ == pubkey_hex@),
            decreases self.entries@.len() - i,
        {
            if str_eq(self.entries[i].key.as_str(), key) && str_eq(self.entries[i].pubkey_hex.as_str(), pubkey_hex) {
                return true;
            }
            i = i + 1;
        }
        false
    }

    /// Whether some stamp's public key starts with `pubkey_prefix`.
    pub fn stamped_by(&self, pubkey_prefix: &str) -> (r: bool)
        ensures
            r == exists|i: int| 0 <= i < self.entries@.len()
                && (#[trigger] self.entries@[i]).pubkey_hex@.len() >= pubkey_prefix@.len()
                && self.entries@[i].pubkey_hex@.take(pubkey_prefix@.len() as int) == pubkey_prefix@,
    {
        let p = chars_of(pubkey_prefix);
        let mut i: usize = 0;
        while i < self.entries.len()
            invariant
                i <= self.entries@.len(),
                p@ == pubkey_prefix@,
                forall|k: int| 0 <= k < i ==> !((#[trigger] self.entries@[k]).pubkey_hex@.len() >= pubkey_prefix@.len()
                    && self.entries@[k].pubkey_hex@.take(pubkey_prefix@.len() as int) == pubkey_prefix@),
            decreases self.entries@.len() - i,
        {
            let h = chars_of(self.entries[i].pubkey_hex.as_str());
            if crate::text::starts_with(h.as_slice(), p.as_slice()) {
                return true;
            }
            i = i + 1;
        }
        false
    }
}

/// Whether every stamp of an envelope verifies over its signed content
/// and the stamps before it.
pub open spec fn file_chain_valid(f: EinmoFile) -> bool {
    chain_ok(signed_prefix_spec(f), stamp_records(f.stamps.entries@))
}

impl Stamps {
    /// The stamp chain a freshly generated output carries: `compiled`
    /// (under the computer key), `configured` (under the suite's configured
    /// key), then `stage:output` (under the output stage's key), each over
    /// `prefix`.
    pub fn generate(prefix: &str, configured: &StageKeypair, stage: &StageKeypair, timestamp: &str) -> (r: Stamps)
        ensures
            r.entries@.len() == 3,
            r.entries@[0].key@ == seq!['c', 'o', 'm', 'p', 'i', 'l', 'e', 'd'],
            r.entries@[0].pubkey_hex@ == computer_pubkey_hex(),
            r.entries@[1].key@ == seq!['c', 'o', 'n', 'f', 'i', 'g', 'u', 'r', 'e', 'd'],
            r.entries@[1].pubkey_hex@ == configured.pubkey_hex_spec(),
            r.entries@[2].key@ == seq!['s', 't', 'a', 'g', 'e', ':', 'o', 'u', 't', 'p', 'u', 't'],
            r.entries@[2].pubkey_hex@ == stage.pubkey_hex_spec(),
            chain_ok(prefix@, r.records()),
    {
        proof {
            reveal_strlit("stage:output");
        }
        Stamps::generate_for_stage(prefix, configured, "stage:output", stage, timestamp)
    }

    /// The stamp chain `compiled`, `configured`, then `stage_key` under
    /// `signer`, each over `prefix`.
    pub fn generate_for_stage(
        prefix: &str,
        configured: &StageKeypair,
        stage_key: &str,
        signer: &StageKeypair,
        timestamp: &str,
    ) -> (r: Stamps)
        ensures
            r.entries@.len() == 3,
            r.entries@[0].key@ == seq!['c', 'o', 'm', 'p', 'i', 'l', 'e', 'd'],
            r.entries@[0].pubkey_hex@ == computer_pubkey_hex(),
            r.entries@[1].key@ == seq!['c', 'o', 'n', 'f', 'i', 'g', 'u', 'r', 'e', 'd'],
            r.entries@[1].pubkey_hex@ == configured.pubkey_hex_spec(),
            r.entries@[2].key@ == stage_key@,
            r.entries@[2].pubkey_hex@ == signer.pubkey_hex_spec(),
            chain_ok(prefix@, r.records()),
    {
        proof {
            reveal_strlit("compiled");
            reveal_strlit("configured");
            reveal_strlit("");
            assert(""@ =~= Seq::<char>::empty());
        }
        let computer = StageKeypair::derive("");
        let mut st = Stamps::new();
        assert(chain_ok(prefix@, st.records()));
        st.sign_onto(prefix, "compiled", &computer, timestamp);
        st.sign_onto(prefix, "configured", configured, timestamp);
        st.sign_onto(prefix, stage_key, signer, timestamp);
        proof {
            assert(st.records()[0] == stamp_record(st.entries@[0]));
            assert(st.records()[1] == stamp_record(st.entries@[1]));
            assert(st.records()[2] == stamp_record(st.entries@[2]));
            assert("compiled"@ =~= seq!['c', 'o', 'm', 'p', 'i', 'l', 'e', 'd']);
            assert("configured"@ =~= seq!['c', 'o', 'n', 'f', 'i', 'g', 'u', 'r', 'e', 'd']);
        }
        st
    }
}

impl EinmoFile {
    /// Whether every stamp verifies.
    pub fn chain_valid(&self) -> (r: bool)
        ensures
            r == file_chain_valid(*self),
    {
        let prefix = self.signed_prefix();
        self.stamps.verify_all(prefix.as_str())
    }

    /// Append a stamp `key` under `keypair` over this envelope's signed
    /// content and its whole chain. Content, advisory and earlier stamps
    /// are kept, and a valid chain stays valid.
    pub fn append_stage_stamp_with(&mut self, key: &str, keypair: &StageKeypair, timestamp: &str)
        ensures
            prefix_tokens(*final(self)) == prefix_tokens(*old(self)),
            final(self).advisory == old(self).advisory,
            final(self).stamps.entries@.len() == old(self).stamps.entries@.len() + 1,
            forall|i: int| 0 <= i < old(self).stamps.entries@.len()
                ==> stamp_record(#[trigger] final(self).stamps.entries@[i]) == stamp_record(old(self).stamps.entries@[i]),
            final(self).stamps.entries@.last().key@ == key@,
            final(self).stamps.entries@.last().pubkey_hex@ == keypair.pubkey_hex_spec(),
            final(self).stamps.entries@.last().timestamp@ == timestamp@,
            stamp_ok(signed_prefix_spec(*final(self)), stamp_records(old(self).stamps.entries@),
                stamp_record(final(self).stamps.entries@.last())),
            file_chain_valid(*old(self)) ==> file_chain_valid(*final(self)),
    {
        let prefix = self.signed_prefix();
        let ghost old_recs = self.stamps.records();
        self.stamps.sign_onto(prefix.as_str(), key, keypair, timestamp);
        proof {
            let n = self.stamps.entries@.len() - 1;
            assert(self.stamps.records()[n] == stamp_record(self.stamps.entries@.last()));
            assert forall|i: int| 0 <= i < old_recs.len()
                implies stamp_record(#[trigger] self.stamps.entries@[i]) == old_recs[i] by {
                assert(self.stamps.records()[i] == stamp_record(self.stamps.entries@[i]));
            }
        }
    }
}

} // verus!
