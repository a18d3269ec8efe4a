//! `EinmoCase`: one case's full cross-stage bundle, and every operation
//! performable on it as itself (read, agreement, promote, flag, retract),
//! over any [`EinmoStorage`].

use vstd::prelude::*;
use vstd::utf8::encode_utf8;
use crate::compare::{body_pairs, diverged, first_body, required_sections, MatchSections};
use crate::error::EinmoError;
use crate::format::{lemma_render_determines_content, prefix_tokens, render, signed_prefix_spec, EinmoFile};
use crate::compare::{body_sections, compare_sections, lemma_same_sections};
use crate::codec::strings_view;
use crate::signature::{computer_pubkey_hex, file_chain_valid, is_computer_key, stamp_records, StageKeypair, Stamps};
use crate::stage::stage_stamp_key;
use crate::transitions::{is_legal_transition, legal_transition};
use crate::stage::{stage_dir_name, EinmoId, Stage};
use crate::storage::{ArtifactKey, ArtifactLocation, EinmoStorage};
use crate::text::{concat, own};
use crate::verify::{lemma_same_bytes_same_verdict, verifies, verify_bytes};

verus! {

/// The address of a case's artifact at a location.
pub open spec fn key_at(id: Seq<char>, at: ArtifactLocation) -> ArtifactKey {
    (id, at)
}

/// The envelope stored bytes verify as (one whose render they are and
/// whose chain verifies), when there is one.
pub open spec fn file_of(bytes: Seq<u8>) -> EinmoFile {
    choose|f: EinmoFile| #[trigger] encode_utf8(render(f)) == bytes && file_chain_valid(f)
}

/// Any verified envelope of `bytes` agrees with `file_of(bytes)` on all
/// its content.
pub proof fn lemma_file_of(bytes: Seq<u8>, f: EinmoFile)
    requires
        encode_utf8(render(f)) == bytes,
        file_chain_valid(f),
    ensures
        verifies(bytes),
        render(file_of(bytes)) == render(f),
        prefix_tokens(file_of(bytes)) == prefix_tokens(f),
        stamp_records(file_of(bytes).stamps.entries@) == stamp_records(f.stamps.entries@),
        crate::format::section_records(file_of(bytes).sections@) == crate::format::section_records(f.sections@),
        file_of(bytes).advisory == f.advisory || crate::format::advisory_list(file_of(bytes).advisory)
            == crate::format::advisory_list(f.advisory),
        file_chain_valid(file_of(bytes)),
        file_of(bytes).metadata.status == f.metadata.status,
{
    assert(verifies(bytes));
    let g = file_of(bytes);
    lemma_same_bytes_same_verdict(f, g);
    lemma_render_determines_content(f, g);
}

/// One case, named by its id. Every operation takes the storage it works
/// on explicitly.
#[derive(Debug)]
pub struct EinmoCase {
    id: EinmoId,
}

impl View for EinmoCase {
    type V = Seq<char>;

    closed spec fn view(&self) -> Seq<char> {
        self.id@
    }
}

/// The case-id prefix of an error message: `"<id>: "`.
fn id_prefix(id: &EinmoId) -> (r: String)
    ensures
        r@ == id@ + seq![':', ' '],
{
    proof {
        reveal_strlit(": ");
        assert(": "@ =~= seq![':', ' ']);
    }
    concat(id.as_str(), ": ")
}

impl EinmoCase {
    /// Bind to `id`.
    pub fn new(id: EinmoId) -> (r: EinmoCase)
        ensures
            r@ == id@,
    {
        EinmoCase { id }
    }

    /// This case's id.
    pub fn id(&self) -> (r: &EinmoId)
        ensures
            r@ == self@,
    {
        &self.id
    }

    /// Read one location's artifact, verify-on-inspect; `None` if absent.
    ///
    /// # Errors
    /// [`EinmoError::Verification`] or [`EinmoError::Parse`] if the
    /// artifact exists but fails verify-on-inspect (never reported as
    /// absent); any storage failure.
    pub fn read<S: EinmoStorage>(&self, storage: &S, at: ArtifactLocation) -> (r: Result<Option<EinmoFile>, EinmoError>)
        ensures
            r matches Ok(None) ==> !storage.artifacts().dom().contains(key_at(self@, at)),
            r matches Ok(Some(f)) ==> storage.artifacts().dom().contains(key_at(self@, at))
                && encode_utf8(render(f)) == storage.artifacts()[key_at(self@, at)] && file_chain_valid(f),
            storage.artifacts().dom().contains(key_at(self@, at))
                && !verifies(storage.artifacts()[key_at(self@, at)]) ==> r is Err,
            r matches Err(e) && (e is Parse || e is Verification) ==> storage.artifacts().dom().contains(key_at(self@, at))
                && !verifies(storage.artifacts()[key_at(self@, at)]),
            r matches Err(e) ==> e is Io || e is Parse || e is Verification,
            storage.infallible() && !(storage.artifacts().dom().contains(key_at(self@, at))
                && !verifies(storage.artifacts()[key_at(self@, at)])) ==> r is Ok,
            storage.infallible() ==> !(r matches Err(e) && e is Io),
    {
        match storage.read(&self.id, at) {
            Err(e) => Err(e),
            Ok(None) => Ok(None),
            Ok(Some(bytes)) => match verify_bytes(bytes.as_slice()) {
                Ok(f) => Ok(Some(f)),
                Err(e) => Err(e),
            },
        }
    }

    /// Retract (demote) this case from `stage`, cascading `checked` to
    /// `verified` (a verified stamp attests to a checked baseline, so
    /// pulling the baseline leaves it dangling). Returns the stages
    /// actually removed, highest first; a stage with nothing there is not
    /// reported.
    ///
    /// # Errors
    /// [`EinmoError::Config`] if `stage` is `output` (regenerated every
    /// run, nothing to un-promote); any storage failure.
    pub fn retract<S: EinmoStorage>(&self, storage: &mut S, stage: Stage) -> (r: Result<Vec<Stage>, EinmoError>)
        ensures
            stage == Stage::Output ==> (r matches Err(e) && e is Config && final(storage).artifacts() == old(storage).artifacts()),
            r matches Ok(v) ==> v@ == retracted_spec(old(storage).artifacts(), self@, stage),
            r matches Ok(v) ==> final(storage).artifacts() == remove_keys(old(storage).artifacts(), self@, v@),
            r matches Err(e) ==> e is Io || (e is Config && stage == Stage::Output),
            old(storage).infallible() && stage != Stage::Output ==> r is Ok,
            final(storage).infallible() == old(storage).infallible(),
    {
        if let Stage::Output = stage {
            proof {
                reveal_strlit("cannot retract from output/: it is regenerated every run");
            }
            return Err(EinmoError::Config(own("cannot retract from output/: it is regenerated every run")));
        }
        let cascade: Vec<Stage> = match stage {
            Stage::Verified => vec![Stage::Verified],
            _ => vec![Stage::Verified, Stage::Checked],
        };
        let ghost m0 = storage.artifacts();
        let ghost inf0 = storage.infallible();
        let ghost cs = cascade_spec(stage);
        assert(cascade@ =~= cs);
        let mut retracted: Vec<Stage> = Vec::new();
        let mut i: usize = 0;
        while i < cascade.len()
            invariant
                i <= cascade@.len(),
                stage != Stage::Output,
                cascade@ == cs,
                cs == cascade_spec(stage),
                cs.no_duplicates(),
                retracted@ == present_among(m0, self@, cs.take(i as int)),
                storage.artifacts() == remove_keys(m0, self@, retracted@),
                storage.infallible() == inf0,
                inf0 == old(storage).infallible(),
                forall|k: int| i <= k < cs.len() ==> !retracted@.contains(#[trigger] cs[k]),
            decreases cascade@.len() - i,
        {
            let target = cascade[i];
            let ghost before = retracted@;
            proof {
                assert(cs.take(i + 1).drop_last() =~= cs.take(i as int));
                assert(cs.take(i + 1).last() == target);
                lemma_remove_keys_other(m0, self@, before, target);
            }
            match storage.read(&self.id, ArtifactLocation::Stage(target)) {
                Err(e) => return Err(e),
                Ok(None) => {},
                Ok(Some(_)) => {
                    match storage.remove(&self.id, ArtifactLocation::Stage(target)) {
                        Err(e) => return Err(e),
                        Ok(()) => {},
                    }
                    retracted.push(target);
                    proof {
                        assert(retracted@.drop_last() =~= before);
                        assert(retracted@.last() == target);
                        assert(remove_keys(m0, self@, retracted@) == remove_keys(m0, self@, before).remove(
                            key_at(self@, ArtifactLocation::Stage(target))));
                    }
                },
            }
            proof {
                assert forall|k: int| i + 1 <= k < cs.len() implies !retracted@.contains(#[trigger] cs[k]) by {
                    assert(cs[k] != target);
                    if retracted@.contains(cs[k]) {
                        let w = choose|w: int| 0 <= w < retracted@.len() && retracted@[w] == cs[k];
                        if w < before.len() {
                            assert(before.contains(cs[k]));
                        }
                    }
                }
            }
            i = i + 1;
        }
        assert(cs.take(i as int) =~= cs);
        Ok(retracted)
    }
}

/// The block one flag prepends to the advisory:
/// `# flagged: <reason> <timestamp>`.
pub open spec fn flag_block(reason: Seq<char>, timestamp: Seq<char>) -> Seq<char> {
    seq!['#', ' ', 'f', 'l', 'a', 'g', 'g', 'e', 'd', ':', ' '] + reason + seq![' '] + timestamp
}

/// The advisory a flag leaves: the new block, on top of the advisory of
/// whatever verified envelope is already flagged there, if any.
pub open spec fn flagged_advisory(
    m: Map<ArtifactKey, Seq<u8>>,
    id: Seq<char>,
    stage: Stage,
    reason: Seq<char>,
    timestamp: Seq<char>,
) -> Seq<char> {
    let kf = key_at(id, ArtifactLocation::Flagged(stage));
    let block = flag_block(reason, timestamp);
    if m.dom().contains(kf) && verifies(m[kf]) && file_of(m[kf]).advisory is Some {
        block + seq!['\n'] + file_of(m[kf]).advisory.unwrap()@
    } else {
        block
    }
}

/// What flagging the case at `stage` did to the artifacts: the stage's
/// verified envelope moved into the flagged sink, same signed content and
/// stamps, advisory as `flagged_advisory` says, chain still valid.
pub open spec fn flag_effect(
    m: Map<ArtifactKey, Seq<u8>>,
    m1: Map<ArtifactKey, Seq<u8>>,
    id: Seq<char>,
    stage: Stage,
    reason: Seq<char>,
    timestamp: Seq<char>,
) -> bool {
    let ks = key_at(id, ArtifactLocation::Stage(stage));
    let kf = key_at(id, ArtifactLocation::Flagged(stage));
    &&& m.dom().contains(ks)
    &&& verifies(m[ks])
    &&& exists|g: EinmoFile|
        m1 == #[trigger] m.insert(kf, encode_utf8(render(g))).remove(ks)
        && prefix_tokens(g) == prefix_tokens(file_of(m[ks]))
        && stamp_records(g.stamps.entries@) == stamp_records(file_of(m[ks]).stamps.entries@)
        && g.advisory is Some
        && g.advisory.unwrap()@ == flagged_advisory(m, id, stage, reason, timestamp)
        && file_chain_valid(g)
}

/// The message of a missing-source refusal.
pub open spec fn missing_source_message(id: Seq<char>, stage: Stage, verb: Seq<char>) -> Seq<char> {
    id + ": "@ + "no artifact at the "@ + stage_dir_name(stage) + " stage to "@ + verb
}

/// The message of a missing-source refusal:
/// `<id>: no artifact at the <stage> stage to <verb>`.
fn missing_source(id: &EinmoId, stage: Stage, verb: &str) -> (e: EinmoError)
    ensures
        e matches EinmoError::Verification(m) && m@ == missing_source_message(id@, stage, verb@),
{
    proof {
        reveal_strlit(": ");
        assert(": "@ =~= seq![':', ' ']);
    }
    let a = concat(id_prefix(id).as_str(), "no artifact at the ");
    let b = concat(a.as_str(), stage.dir_name());
    let c = concat(b.as_str(), " stage to ");
    EinmoError::Verification(concat(c.as_str(), verb))
}

impl EinmoCase {
    /// Move this case's `stage` artifact into `stage`'s flagged sink with
    /// an unsigned advisory block `# flagged: <reason> <timestamp>` on top
    /// of any advisory already flagged there. The stamp chain and
    /// everything it signs are carried over unchanged, so the flagged
    /// envelope still verifies.
    ///
    /// # Errors
    /// [`EinmoError::Verification`] (or [`EinmoError::Parse`]) if the
    /// source is absent or fails verify-on-inspect; any storage failure.
    pub fn flag<S: EinmoStorage>(&self, storage: &mut S, stage: Stage, reason: &str, timestamp: &str) -> (r: Result<(), EinmoError>)
        ensures
            ({
                let m = old(storage).artifacts();
                let ks = key_at(self@, ArtifactLocation::Stage(stage));
                &&& r is Ok ==> flag_effect(m, final(storage).artifacts(), self@, stage, reason@, timestamp@)
                &&& !(m.dom().contains(ks) && verifies(m[ks])) ==> r is Err
                &&& r matches Err(e) ==> e is Io || ((e is Verification || e is Parse)
                    && !(m.dom().contains(ks) && verifies(m[ks])))
                &&& old(storage).infallible() && m.dom().contains(ks) && verifies(m[ks]) ==> r is Ok
                &&& final(storage).infallible() == old(storage).infallible()
                &&& old(storage).infallible() && r is Err ==> final(storage).artifacts() == m
                &&& old(storage).infallible() && !m.dom().contains(ks) ==> (r matches Err(e)
                    && e matches EinmoError::Verification(msg) && msg@ == missing_source_message(self@, stage, "flag"@))
            }),
    {
        let ghost m = storage.artifacts();
        let ghost ks = key_at(self@, ArtifactLocation::Stage(stage));
        let ghost kf = key_at(self@, ArtifactLocation::Flagged(stage));
        proof {
            reveal_strlit("flag");
        }
        let src_bytes = match storage.read(&self.id, ArtifactLocation::Stage(stage)) {
            Err(e) => return Err(e),
            Ok(None) => return Err(missing_source(&self.id, stage, "flag")),
            Ok(Some(b)) => b,
        };
        let mut file = match verify_bytes(src_bytes.as_slice()) {
            Ok(f) => f,
            Err(e) => return Err(e),
        };
        proof {
            lemma_file_of(m[ks], file);
        }
        let ghost src = file;
        proof {
            reveal_strlit("# flagged: ");
            reveal_strlit(" ");
            reveal_strlit("\n");
            assert("# flagged: "@ =~= seq!['#', ' ', 'f', 'l', 'a', 'g', 'g', 'e', 'd', ':', ' ']);
        }
        let b1 = concat("# flagged: ", reason);
        let b2 = concat(b1.as_str(), " ");
        let block = concat(b2.as_str(), timestamp);
        assert(block@ =~= flag_block(reason@, timestamp@));
        let existing: Option<String> = match storage.read(&self.id, ArtifactLocation::Flagged(stage)) {
            Err(e) => return Err(e),
            Ok(None) => None,
            Ok(Some(b)) => match verify_bytes(b.as_slice()) {
                Ok(f) => {
                    proof {
                        lemma_file_of(m[kf], f);
                    }
                    f.advisory
                },
                Err(_) => None,
            },
        };
        assert(existing matches Some(a) ==> m.dom().contains(kf) && verifies(m[kf])
            && file_of(m[kf]).advisory is Some && a@ == file_of(m[kf]).advisory.unwrap()@);
        assert(existing is None ==> !(m.dom().contains(kf) && verifies(m[kf]) && file_of(m[kf]).advisory is Some));
        let advisory = match existing {
            Some(a) => {
                let t = concat(block.as_str(), "\n");
                concat(t.as_str(), a.as_str())
            },
            None => block,
        };
        assert(advisory@ =~= flagged_advisory(m, self@, stage, reason@, timestamp@));
        file.set_advisory(advisory);
        let bytes = match file.serialize() {
            Ok(b) => b,
            Err(e) => return Err(e),
        };
        match storage.write(&self.id, ArtifactLocation::Flagged(stage), bytes.as_slice()) {
            Err(e) => return Err(e),
            Ok(()) => {},
        }
        match storage.remove(&self.id, ArtifactLocation::Stage(stage)) {
            Err(e) => return Err(e),
            Ok(()) => {},
        }
        proof {
            assert(signed_prefix_spec(file) == signed_prefix_spec(src));
            assert(storage.artifacts() == m.insert(kf, encode_utf8(render(file))).remove(ks));
        }
        Ok(())
    }
}

/// The measurements a passphrase-effectiveness score is computed from:
/// the compressed size of the verified corpus without and with the
/// passphrase appended, and the passphrase's length. The score is
/// `(compressed_with - compressed_without) / passphrase_len`, and a
/// passphrase passes when the compressed size grows.
#[derive(Debug, Clone, Copy, PartialEq, Eq, Structural)]
pub struct PassphraseScore {
    /// Compressed size of the corpus alone.
    pub compressed_without: usize,
    /// Compressed size of the corpus followed by the passphrase.
    pub compressed_with: usize,
    /// The passphrase's length in bytes.
    pub passphrase_len: usize,
}

/// The outcome of one [`EinmoCase::promote`] call.
#[derive(Debug, Clone, Copy, PartialEq, Eq, Structural)]
pub enum PromoteOutcome {
    /// A fresh baseline was written (absent, tampered, or different
    /// content at the destination).
    Promoted {
        /// The appended `verified` stamp used the well-known computer key.
        non_human: bool,
        /// The passphrase score, where one applies.
        passphrase_score: Option<PassphraseScore>,
    },
    /// The destination held the same content; this signer's stamp was
    /// appended onto it, keeping every earlier signer's.
    CoSigned {
        /// As for `Promoted`.
        non_human: bool,
        /// As for `Promoted`.
        passphrase_score: Option<PassphraseScore>,
    },
    /// The destination held this content, already signed by this key.
    /// Nothing was written.
    AlreadySigned {
        /// As for `Promoted` (the resulting state's attestation).
        non_human: bool,
        /// As for `Promoted`.
        passphrase_score: Option<PassphraseScore>,
    },
}

impl PromoteOutcome {
    /// Whether the destination's attestation is non-human.
    pub open spec fn non_human_spec(self) -> bool {
        match self {
            PromoteOutcome::Promoted { non_human, .. } => non_human,
            PromoteOutcome::CoSigned { non_human, .. } => non_human,
            PromoteOutcome::AlreadySigned { non_human, .. } => non_human,
        }
    }

    /// The passphrase score carried.
    pub open spec fn score_spec(self) -> Option<PassphraseScore> {
        match self {
            PromoteOutcome::Promoted { passphrase_score, .. } => passphrase_score,
            PromoteOutcome::CoSigned { passphrase_score, .. } => passphrase_score,
            PromoteOutcome::AlreadySigned { passphrase_score, .. } => passphrase_score,
        }
    }

    /// Whether the destination's attestation is non-human.
    pub fn non_human(&self) -> (r: bool)
        ensures
            r == self.non_human_spec(),
    {
        match self {
            PromoteOutcome::Promoted { non_human, .. } => *non_human,
            PromoteOutcome::CoSigned { non_human, .. } => *non_human,
            PromoteOutcome::AlreadySigned { non_human, .. } => *non_human,
        }
    }
}

/// Whether some stamp record has key `key` and public key `pubkey`.
pub open spec fn has_stamp(recs: Seq<Seq<Seq<char>>>, key: Seq<char>, pubkey: Seq<char>) -> bool {
    exists|i: int| 0 <= i < recs.len() && (#[trigger] recs[i])[0] == key && recs[i][1] == pubkey
}

/// `g` is `base` with exactly one stamp appended: `key` under public key
/// `pubkey` at `timestamp`; its signed content and advisory are `base`'s.
pub open spec fn extends_with_stamp(g: EinmoFile, base: EinmoFile, key: Seq<char>, pubkey: Seq<char>, timestamp: Seq<char>) -> bool {
    let gr = stamp_records(g.stamps.entries@);
    let br = stamp_records(base.stamps.entries@);
    &&& prefix_tokens(g) == prefix_tokens(base)
    &&& crate::format::advisory_list(g.advisory) == crate::format::advisory_list(base.advisory)
    &&& gr.len() == br.len() + 1
    &&& gr.take(br.len() as int) == br
    &&& gr.last()[0] == key
    &&& gr.last()[1] == pubkey
    &&& gr.last()[2] == timestamp
}

/// The destination already holds the source's body content, verified.
pub open spec fn destination_matches(m: Map<ArtifactKey, Seq<u8>>, id: Seq<char>, from: Stage, to: Stage) -> bool {
    let ks = key_at(id, ArtifactLocation::Stage(from));
    let kd = key_at(id, ArtifactLocation::Stage(to));
    &&& m.dom().contains(kd)
    &&& verifies(m[kd])
    &&& body_pairs(file_of(m[kd]).sections@, None) == body_pairs(file_of(m[ks]).sections@, None)
}

/// Whether two lists of `(name, body)` pairs hold the same text.
fn pairs_equal(a: &Vec<(String, String)>, b: &Vec<(String, String)>) -> (r: bool)
    ensures
        r == (a@.len() == b@.len() && forall|i: int| 0 <= i < a@.len() ==> (#[trigger] a@[i]).0@ == b@[i].0@
            && a@[i].1@ == b@[i].1@),
{
    if a.len() != b.len() {
        return false;
    }
    let mut i: usize = 0;
    while i < a.len()
        invariant
            a@.len() == b@.len(),
            i <= a@.len(),
            forall|k: int| 0 <= k < i ==> (#[trigger] a@[k]).0@ == b@[k].0@ && a@[k].1@ == b@[k].1@,
        decreases a@.len() - i,
    {
        if !crate::text::str_eq(a[i].0.as_str(), b[i].0.as_str()) || !crate::text::str_eq(a[i].1.as_str(), b[i].1.as_str()) {
            return false;
        }
        i = i + 1;
    }
    true
}

/// Whether two envelopes' body sections hold the same text.
fn same_bodies(a: &EinmoFile, b: &EinmoFile) -> (r: bool)
    ensures
        r == (body_pairs(a.sections@, None) == body_pairs(b.sections@, None)),
{
    let x = body_sections(a, None);
    let y = body_sections(b, None);
    let r = pairs_equal(&x, &y);
    proof {
        let (px, py) = (body_pairs(a.sections@, None), body_pairs(b.sections@, None));
        assert(crate::compare::opt_chars(None) == None::<Seq<char>>);
        if r {
            assert forall|i: int| 0 <= i < px.len() implies px[i] == py[i] by {
                assert(px[i] =~= seq![x@[i].0@, x@[i].1@]);
                assert(py[i] =~= seq![y@[i].0@, y@[i].1@]);
            }
            assert(px =~= py);
        } else {
            if px == py {
                assert forall|i: int| 0 <= i < x@.len() implies (#[trigger] x@[i]).0@ == y@[i].0@ && x@[i].1@ == y@[i].1@ by {
                    assert(seq![x@[i].0@, x@[i].1@] == seq![y@[i].0@, y@[i].1@]);
                    assert(seq![x@[i].0@, x@[i].1@][0] == seq![y@[i].0@, y@[i].1@][0]);
                    assert(seq![x@[i].0@, x@[i].1@][1] == seq![y@[i].0@, y@[i].1@][1]);
                }
            }
        }
    }
    r
}

impl EinmoCase {
    /// Promote from `from` to `to` under `key`. When the destination
    /// already holds a verified envelope with the same body sections (every
    /// section but `STAMPS`, compared exactly), the new stamp is appended
    /// onto it, keeping every earlier signer's stamp, or nothing is written
    /// if this key already stamped it; otherwise the source envelope, with
    /// its whole chain and one new `stage:<to>` stamp, becomes the new
    /// baseline. What is written always verifies.
    #[verifier::rlimit(60)]
    #[verifier::spinoff_prover]
    ///
    /// # Errors
    /// [`EinmoError::IllegalTransition`] for a disallowed pair (nothing is
    /// read or written); [`EinmoError::Verification`] (or
    /// [`EinmoError::Parse`]) if the source is absent or fails
    /// verify-on-inspect; any storage failure.
    pub fn promote<S: EinmoStorage>(
        &self,
        storage: &mut S,
        from: Stage,
        to: Stage,
        key: &StageKeypair,
        timestamp: &str,
    ) -> (r: Result<PromoteOutcome, EinmoError>)
        ensures
            ({
                let m = old(storage).artifacts();
                let ks = key_at(self@, ArtifactLocation::Stage(from));
                let kd = key_at(self@, ArtifactLocation::Stage(to));
                let sk = stage_stamp_key(to);
                let pk = key.pubkey_hex_spec();
                &&& !legal_transition(from, to) ==> (r matches Err(e) && e matches EinmoError::IllegalTransition { from: f, to: t }
                    && f@ == stage_dir_name(from) && t@ == stage_dir_name(to)
                    && final(storage).artifacts() == m)
                &&& legal_transition(from, to) && !(m.dom().contains(ks) && verifies(m[ks])) ==> r is Err
                &&& r matches Err(e) ==> e is Io || (e is IllegalTransition && !legal_transition(from, to))
                    || ((e is Verification || e is Parse) && !(m.dom().contains(ks) && verifies(m[ks])))
                &&& r matches Ok(o) ==> promote_effect(m, final(storage).artifacts(), self@, from, to, pk, timestamp@, o)
                &&& old(storage).infallible() && legal_transition(from, to) && m.dom().contains(ks) && verifies(m[ks])
                    ==> r is Ok
                &&& final(storage).infallible() == old(storage).infallible()
                &&& old(storage).infallible() && r is Err ==> final(storage).artifacts() == m
            }),
    {
        let ghost m = storage.artifacts();
        let ghost ks = key_at(self@, ArtifactLocation::Stage(from));
        let ghost kd = key_at(self@, ArtifactLocation::Stage(to));
        if !is_legal_transition(from, to) {
            return Err(EinmoError::IllegalTransition { from: from.to_string(), to: to.to_string() });
        }
        let pubkey = key.pubkey_hex();
        let non_human = match to {
            Stage::Verified => is_computer_key(pubkey.as_str()),
            _ => false,
        };
        proof {
            reveal_strlit("promote");
        }
        let src_bytes = match storage.read(&self.id, ArtifactLocation::Stage(from)) {
            Err(e) => return Err(e),
            Ok(None) => return Err(missing_source(&self.id, from, "promote")),
            Ok(Some(b)) => b,
        };
        let src_file = match verify_bytes(src_bytes.as_slice()) {
            Ok(f) => f,
            Err(e) => return Err(e),
        };
        proof {
            lemma_file_of(m[ks], src_file);
            lemma_same_sections(src_file.sections@, file_of(m[ks]).sections@, None, Seq::empty(), Seq::empty());
        }
        let stamp_key = to.stamp_key();
        let existing: Option<EinmoFile> = match storage.read(&self.id, ArtifactLocation::Stage(to)) {
            Err(e) => return Err(e),
            Ok(None) => None,
            Ok(Some(b)) => match verify_bytes(b.as_slice()) {
                Ok(f) => Some(f),
                Err(_) => None,
            },
        };
        assert(existing matches Some(e) ==> m.dom().contains(kd) && encode_utf8(render(e)) == m[kd] && file_chain_valid(e));
        assert(existing is None ==> !(m.dom().contains(kd) && verifies(m[kd])));
        if let Some(existing) = existing {
            proof {
                lemma_file_of(m[kd], existing);
                lemma_same_sections(existing.sections@, file_of(m[kd]).sections@, None, Seq::empty(), Seq::empty());
            }
            if same_bodies(&existing, &src_file) {
                let ghost er = stamp_records(existing.stamps.entries@);
                if existing.stamps.has_stage_stamp_from(stamp_key.as_str(), pubkey.as_str()) {
                    proof {
                        let i = choose|i: int| 0 <= i < existing.stamps.entries@.len()
                            && (#[trigger] existing.stamps.entries@[i]).key@ == stamp_key@
                            && existing.stamps.entries@[i].pubkey_hex@ == pubkey@;
                        assert(er[i] == crate::signature::stamp_record(existing.stamps.entries@[i]));
                    }
                    return Ok(PromoteOutcome::AlreadySigned { non_human, passphrase_score: None });
                }
                proof {
                    assert forall|i: int| 0 <= i < er.len() implies !((#[trigger] er[i])[0] == stamp_key@ && er[i][1] == pubkey@) by {
                        assert(er[i] == crate::signature::stamp_record(existing.stamps.entries@[i]));
                        assert(!(existing.stamps.entries@[i].key@ == stamp_key@
                            && existing.stamps.entries@[i].pubkey_hex@ == pubkey@));
                    }
                }
                let mut appended = existing;
                let ghost base = appended;
                appended.append_stage_stamp_with(stamp_key.as_str(), key, timestamp);
                let bytes = match appended.serialize() {
                    Ok(b) => b,
                    Err(e) => return Err(e),
                };
                match storage.write(&self.id, ArtifactLocation::Stage(to), bytes.as_slice()) {
                    Err(e) => return Err(e),
                    Ok(()) => {},
                }
                proof {
                    lemma_extends(appended, base, file_of(m[kd]), stamp_key@, pubkey@, timestamp@);
                }
                return Ok(PromoteOutcome::CoSigned { non_human, passphrase_score: None });
            }
        }
        let mut file = src_file;
        let ghost base = file;
        file.append_stage_stamp_with(stamp_key.as_str(), key, timestamp);
        let bytes = match file.serialize() {
            Ok(b) => b,
            Err(e) => return Err(e),
        };
        match storage.write(&self.id, ArtifactLocation::Stage(to), bytes.as_slice()) {
            Err(e) => return Err(e),
            Ok(()) => {},
        }
        proof {
            lemma_extends(file, base, file_of(m[ks]), stamp_key@, pubkey@, timestamp@);
        }
        Ok(PromoteOutcome::Promoted { non_human, passphrase_score: None })
    }
}

/// What promoting the case from `from` to `to` under public key `pk`
/// with outcome `o` did to the artifacts.
pub open spec fn promote_effect(
    m: Map<ArtifactKey, Seq<u8>>,
    m1: Map<ArtifactKey, Seq<u8>>,
    id: Seq<char>,
    from: Stage,
    to: Stage,
    pk: Seq<char>,
    timestamp: Seq<char>,
    o: PromoteOutcome,
) -> bool {
    let ks = key_at(id, ArtifactLocation::Stage(from));
    let kd = key_at(id, ArtifactLocation::Stage(to));
    let sk = stage_stamp_key(to);
    &&& legal_transition(from, to)
    &&& m.dom().contains(ks)
    &&& verifies(m[ks])
    &&& o.non_human_spec() == (to == Stage::Verified && pk == computer_pubkey_hex())
    &&& o.score_spec() is None
    &&& (o is AlreadySigned ==> destination_matches(m, id, from, to)
        && has_stamp(stamp_records(file_of(m[kd]).stamps.entries@), sk, pk)
        && m1 == m)
    &&& (o is CoSigned ==> destination_matches(m, id, from, to)
        && !has_stamp(stamp_records(file_of(m[kd]).stamps.entries@), sk, pk)
        && exists|g: EinmoFile| m1 == #[trigger] m.insert(kd, encode_utf8(render(g)))
            && extends_with_stamp(g, file_of(m[kd]), sk, pk, timestamp) && file_chain_valid(g))
    &&& (o is Promoted ==> !destination_matches(m, id, from, to)
        && exists|g: EinmoFile| m1 == #[trigger] m.insert(kd, encode_utf8(render(g)))
            && extends_with_stamp(g, file_of(m[ks]), sk, pk, timestamp) && file_chain_valid(g))
}

/// An envelope built by appending one stamp to `base` extends any envelope
/// that stores the same content as `base`.
proof fn lemma_extends(g: EinmoFile, base: EinmoFile, other: EinmoFile, key: Seq<char>, pubkey: Seq<char>, timestamp: Seq<char>)
    requires
        prefix_tokens(g) == prefix_tokens(base),
        g.advisory == base.advisory,
        g.stamps.entries@.len() == base.stamps.entries@.len() + 1,
        forall|i: int| 0 <= i < base.stamps.entries@.len()
            ==> crate::signature::stamp_record(#[trigger] g.stamps.entries@[i]) == crate::signature::stamp_record(base.stamps.entries@[i]),
        g.stamps.entries@.last().key@ == key,
        g.stamps.entries@.last().pubkey_hex@ == pubkey,
        g.stamps.entries@.last().timestamp@ == timestamp,
        prefix_tokens(other) == prefix_tokens(base),
        crate::format::advisory_list(other.advisory) == crate::format::advisory_list(base.advisory),
        stamp_records(other.stamps.entries@) == stamp_records(base.stamps.entries@),
    ensures
        extends_with_stamp(g, other, key, pubkey, timestamp),
{
    let gr = stamp_records(g.stamps.entries@);
    let br = stamp_records(base.stamps.entries@);
    assert(gr.take(br.len() as int) =~= br);
    assert(gr.last() == crate::signature::stamp_record(g.stamps.entries@.last()));
}

/// How one pair of stages stands for one case.
#[derive(Debug, Clone, PartialEq, Eq)]
pub enum StagePairAgreement {
    /// Both present; every section the policy requires is identical.
    Agree,
    /// Both present; these required sections diverged (never empty).
    Differ {
        /// The diverged section names.
        sections: Vec<String>,
    },
    /// Exactly one side is present.
    OneSided {
        /// The stage that has an artifact.
        present: Stage,
        /// The stage that does not.
        absent: Stage,
    },
    /// Neither side is present.
    BothAbsent,
    /// At least one side fails verify-on-inspect; the pair is refused,
    /// never compared.
    Tampered {
        /// Which of the pair's stages are tampered (one or both, in pair
        /// order).
        stages: Vec<Stage>,
    },
}

/// The case has nothing at stage `s`.
pub open spec fn absent_at(m: Map<ArtifactKey, Seq<u8>>, id: Seq<char>, s: Stage) -> bool {
    !m.dom().contains(key_at(id, ArtifactLocation::Stage(s)))
}

/// The case has something at stage `s` that fails verify-on-inspect.
pub open spec fn tampered_at(m: Map<ArtifactKey, Seq<u8>>, id: Seq<char>, s: Stage) -> bool {
    m.dom().contains(key_at(id, ArtifactLocation::Stage(s))) && !verifies(m[key_at(id, ArtifactLocation::Stage(s))])
}

/// The verified envelope at stage `s` (meaningful when it exists).
pub open spec fn file_at(m: Map<ArtifactKey, Seq<u8>>, id: Seq<char>, s: Stage) -> EinmoFile {
    file_of(m[key_at(id, ArtifactLocation::Stage(s))])
}

/// How stages `l` and `r` stand for the case under `policy`.
pub open spec fn pair_spec(a: StagePairAgreement, m: Map<ArtifactKey, Seq<u8>>, id: Seq<char>, l: Stage, r: Stage, policy: MatchSections) -> bool {
    if tampered_at(m, id, l) || tampered_at(m, id, r) {
        a matches StagePairAgreement::Tampered { stages } && stages@ == (if tampered_at(m, id, l) { seq![l] } else { Seq::empty() })
            + (if tampered_at(m, id, r) { seq![r] } else { Seq::empty() })
    } else if absent_at(m, id, l) && absent_at(m, id, r) {
        a is BothAbsent
    } else if absent_at(m, id, l) {
        a == StagePairAgreement::OneSided { present: r, absent: l }
    } else if absent_at(m, id, r) {
        a == StagePairAgreement::OneSided { present: l, absent: r }
    } else {
        let d = diverged(file_at(m, id, l).sections@, file_at(m, id, r).sections@, required_sections(policy));
        if d.len() == 0 {
            a is Agree
        } else {
            a matches StagePairAgreement::Differ { sections } && strings_view(sections@) == d
        }
    }
}

/// The stages of `stages` where the case is absent (`want_absent`) or
/// has something (otherwise), in order.
pub open spec fn stages_where(m: Map<ArtifactKey, Seq<u8>>, id: Seq<char>, stages: Seq<Stage>, want_absent: bool) -> Seq<Stage>
    decreases stages.len(),
{
    if stages.len() == 0 {
        Seq::empty()
    } else {
        let p = stages_where(m, id, stages.drop_last(), want_absent);
        if absent_at(m, id, stages.last()) == want_absent {
            p.push(stages.last())
        } else {
            p
        }
    }
}

/// Every pairwise agreement a case needs, computed in one pass over the
/// stages the caller asked about.
#[derive(Debug, Clone, PartialEq, Eq)]
pub struct StageAgreement {
    /// The requested stages that have something present (verified or
    /// tampered).
    pub present: Vec<Stage>,
    /// The requested stages that are absent.
    pub missing: Vec<Stage>,
    /// The policy this agreement was computed under.
    pub policy: MatchSections,
    stages: Vec<Stage>,
    pairs: Vec<Vec<Option<StagePairAgreement>>>,
}

impl StageAgreement {
    /// The stages this agreement was computed over, in request order.
    pub closed spec fn stages_spec(&self) -> Seq<Stage> {
        self.stages@
    }

    /// The agreement of requested stages `li` and `ri` (by position);
    /// `None` on the diagonal.
    pub closed spec fn entry(&self, li: int, ri: int) -> Option<StagePairAgreement> {
        self.pairs@[li]@[ri]
    }

    /// The requested stages that have something present.
    pub closed spec fn present_spec(&self) -> Seq<Stage> {
        self.present@
    }

    /// The requested stages that are absent.
    pub closed spec fn missing_spec(&self) -> Seq<Stage> {
        self.missing@
    }

    /// The policy this agreement was computed under.
    pub closed spec fn policy_spec(&self) -> MatchSections {
        self.policy
    }

    /// The requested stages that have something present, in request order.
    pub fn present(&self) -> (r: &[Stage])
        ensures
            r@ == self.present_spec(),
    {
        self.present.as_slice()
    }

    /// The requested stages that are absent, in request order.
    pub fn missing(&self) -> (r: &[Stage])
        ensures
            r@ == self.missing_spec(),
    {
        self.missing.as_slice()
    }

    /// The policy this agreement was computed under.
    pub fn policy(&self) -> (r: MatchSections)
        ensures
            r == self.policy_spec(),
    {
        self.policy
    }

    /// The matrix is square over the requested stages.
    pub closed spec fn shaped(&self) -> bool {
        &&& self.pairs@.len() == self.stages@.len()
        &&& forall|i: int| 0 <= i < self.pairs@.len() ==> (#[trigger] self.pairs@[i])@.len() == self.stages@.len()
        &&& forall|i: int, j: int| 0 <= i < self.stages@.len() && 0 <= j < self.stages@.len()
            ==> (#[trigger] self.pairs@[i]@[j] is None <==> i == j)
    }

    /// How `left` and `right` stand: the entry of the last requested pair
    /// of positions holding them (`None` if that ordered pair was not among
    /// the requested stages).
    pub fn pair(&self, left: Stage, right: Stage) -> (r: Option<&StagePairAgreement>)
        requires
            self.shaped(),
        ensures
            r matches Some(a) ==> exists|li: int, ri: int| 0 <= li < self.stages_spec().len() && 0 <= ri < self.stages_spec().len()
                && li != ri && self.stages_spec()[li] == left && self.stages_spec()[ri] == right
                && #[trigger] self.entry(li, ri) == Some(*a),
            r is None ==> forall|li: int, ri: int| 0 <= li < self.stages_spec().len() && 0 <= ri < self.stages_spec().len()
                && li != ri ==> !(self.stages_spec()[li] == left && self.stages_spec()[ri] == right),
    {
        let n = self.stages.len();
        let mut found: Option<(usize, usize)> = None;
        let mut li: usize = 0;
        while li < n
            invariant
                n == self.stages@.len(),
                li <= n,
                self.shaped(),
                found matches Some((a, b)) ==> a < n && b < n && a != b && self.stages@[a as int] == left
                    && self.stages@[b as int] == right,
                found is None ==> forall|x: int, y: int| 0 <= x < li && 0 <= y < n && x != y
                    ==> !(self.stages@[x] == left && self.stages@[y] == right),
            decreases n - li,
        {
            let mut ri: usize = 0;
            while ri < n
                invariant
                    n == self.stages@.len(),
                    li < n,
                    ri <= n,
                    found matches Some((a, b)) ==> a < n && b < n && a != b && self.stages@[a as int] == left
                        && self.stages@[b as int] == right,
                    found is None ==> forall|x: int, y: int| 0 <= x < li && 0 <= y < n && x != y
                        ==> !(self.stages@[x] == left && self.stages@[y] == right),
                    found is None ==> forall|y: int| 0 <= y < ri && li != y
                        ==> !(self.stages@[li as int] == left && self.stages@[y] == right),
                decreases n - ri,
            {
                if li != ri && self.stages[li].same(&left) && self.stages[ri].same(&right) {
                    found = Some((li, ri));
                }
                ri = ri + 1;
            }
            li = li + 1;
        }
        match found {
            Some((a, b)) => {
                assert(self.pairs@[a as int]@.len() == n);
                assert(self.pairs@[a as int]@[b as int] is Some);
                match &self.pairs[a][b] {
                    Some(p) => {
                        assert(self.entry(a as int, b as int) == Some(*p));
                        Some(p)
                    },
                    None => None,
                }
            },
            None => None,
        }
    }
}

/// What reading one stage's artifact found.
enum StageRead {
    Absent,
    Present(EinmoFile),
    Tampered,
}

/// `x` is what the case's artifact at stage `s` reads as.
spec fn read_matches(x: StageRead, m: Map<ArtifactKey, Seq<u8>>, id: Seq<char>, s: Stage) -> bool {
    match x {
        StageRead::Absent => absent_at(m, id, s),
        StageRead::Tampered => tampered_at(m, id, s),
        StageRead::Present(f) => m.dom().contains(key_at(id, ArtifactLocation::Stage(s)))
            && encode_utf8(render(f)) == m[key_at(id, ArtifactLocation::Stage(s))] && file_chain_valid(f),
    }
}

impl EinmoCase {
    fn read_stage<S: EinmoStorage>(&self, storage: &S, stage: Stage) -> (r: Result<StageRead, EinmoError>)
        ensures
            r matches Ok(x) ==> read_matches(x, storage.artifacts(), self@, stage),
            r matches Err(e) ==> e is Io,
            storage.infallible() ==> r is Ok,
    {
        match storage.read(&self.id, ArtifactLocation::Stage(stage)) {
            Err(e) => Err(e),
            Ok(None) => Ok(StageRead::Absent),
            Ok(Some(b)) => match verify_bytes(b.as_slice()) {
                Ok(f) => Ok(StageRead::Present(f)),
                Err(_) => Ok(StageRead::Tampered),
            },
        }
    }
}

/// How two read stages stand.
fn pair_of(
    l: Stage,
    r: Stage,
    lr: &StageRead,
    rr: &StageRead,
    policy: MatchSections,
    Ghost(m): Ghost<Map<ArtifactKey, Seq<u8>>>,
    Ghost(id): Ghost<Seq<char>>,
) -> (a: StagePairAgreement)
    requires
        read_matches(*lr, m, id, l),
        read_matches(*rr, m, id, r),
    ensures
        pair_spec(a, m, id, l, r, policy),
{
    let lt = match lr { StageRead::Tampered => true, _ => false };
    let rt = match rr { StageRead::Tampered => true, _ => false };
    if lt || rt {
        let mut stages: Vec<Stage> = Vec::new();
        if lt {
            stages.push(l);
        }
        if rt {
            stages.push(r);
        }
        assert(stages@ =~= (if tampered_at(m, id, l) { seq![l] } else { Seq::empty() })
            + (if tampered_at(m, id, r) { seq![r] } else { Seq::empty() }));
        return StagePairAgreement::Tampered { stages };
    }
    match (lr, rr) {
        (StageRead::Absent, StageRead::Absent) => StagePairAgreement::BothAbsent,
        (StageRead::Absent, _) => StagePairAgreement::OneSided { present: r, absent: l },
        (_, StageRead::Absent) => StagePairAgreement::OneSided { present: l, absent: r },
        (StageRead::Present(lf), StageRead::Present(rf)) => {
            let d = compare_sections(lf, rf, policy);
            proof {
                let kl = key_at(id, ArtifactLocation::Stage(l));
                let kr = key_at(id, ArtifactLocation::Stage(r));
                lemma_file_of(m[kl], *lf);
                lemma_file_of(m[kr], *rf);
                let req = required_sections(policy);
                lemma_same_sections(lf.sections@, file_at(m, id, l).sections@, None, req, rf.sections@);
                lemma_same_sections(rf.sections@, file_at(m, id, r).sections@, None, req, file_at(m, id, l).sections@);
            }
            if d.len() == 0 {
                StagePairAgreement::Agree
            } else {
                StagePairAgreement::Differ { sections: d }
            }
        },
        _ => StagePairAgreement::BothAbsent,
    }
}

impl EinmoCase {
    /// Section-aware, policy-driven agreement for every ordered pair of
    /// distinct positions in `stages`, under `policy` (recorded in the
    /// result). A tampered side is reported as tampered, never compared.
    ///
    /// # Errors
    /// Any storage failure.
    pub fn agreement<S: EinmoStorage>(&self, storage: &S, stages: &[Stage], policy: MatchSections) -> (r: Result<StageAgreement, EinmoError>)
        ensures
            r matches Ok(ag) ==> {
                let m = storage.artifacts();
                &&& ag.policy_spec() == policy
                &&& ag.stages_spec() == stages@
                &&& ag.shaped()
                &&& ag.present_spec() == stages_where(m, self@, stages@, false)
                &&& ag.missing_spec() == stages_where(m, self@, stages@, true)
                &&& forall|li: int, ri: int| 0 <= li < stages@.len() && 0 <= ri < stages@.len() ==>
                    (#[trigger] ag.entry(li, ri) is None <==> li == ri)
                &&& forall|li: int, ri: int| 0 <= li < stages@.len() && 0 <= ri < stages@.len() && li != ri ==>
                    pair_spec(#[trigger] ag.entry(li, ri).unwrap(), m, self@, stages@[li], stages@[ri], policy)
            },
            r matches Err(e) ==> e is Io,
            storage.infallible() ==> r is Ok,
    {
        let ghost m = storage.artifacts();
        let n = stages.len();
        let mut reads: Vec<StageRead> = Vec::new();
        let mut present: Vec<Stage> = Vec::new();
        let mut missing: Vec<Stage> = Vec::new();
        let mut own_stages: Vec<Stage> = Vec::new();
        let mut i: usize = 0;
        while i < n
            invariant
                n == stages@.len(),
                i <= n,
                m == storage.artifacts(),
                reads@.len() == i,
                own_stages@ == stages@.take(i as int),
                forall|k: int| 0 <= k < i ==> read_matches(#[trigger] reads@[k], m, self@, stages@[k]),
                present@ == stages_where(m, self@, stages@.take(i as int), false),
                missing@ == stages_where(m, self@, stages@.take(i as int), true),
            decreases n - i,
        {
            let st = stages[i];
            let x = match self.read_stage(storage, st) {
                Err(e) => return Err(e),
                Ok(x) => x,
            };
            proof {
                assert(stages@.take(i + 1).drop_last() =~= stages@.take(i as int));
                assert(stages@.take(i + 1).last() == st);
            }
            match &x {
                StageRead::Absent => missing.push(st),
                _ => present.push(st),
            }
            reads.push(x);
            own_stages.push(st);
            assert(own_stages@ =~= stages@.take(i + 1));
            i = i + 1;
        }
        assert(stages@.take(n as int) =~= stages@);
        let mut pairs: Vec<Vec<Option<StagePairAgreement>>> = Vec::new();
        let mut li: usize = 0;
        while li < n
            invariant
                n == stages@.len(),
                li <= n,
                reads@.len() == n,
                forall|k: int| 0 <= k < n ==> read_matches(#[trigger] reads@[k], m, self@, stages@[k]),
                pairs@.len() == li,
                forall|a: int| 0 <= a < li ==> (#[trigger] pairs@[a])@.len() == n,
                forall|a: int, b: int| 0 <= a < li && 0 <= b < n ==> (#[trigger] pairs@[a]@[b] is None <==> a == b),
                forall|a: int, b: int| 0 <= a < li && 0 <= b < n && a != b ==>
                    pair_spec(#[trigger] pairs@[a]@[b].unwrap(), m, self@, stages@[a], stages@[b], policy),
            decreases n - li,
        {
            let mut row: Vec<Option<StagePairAgreement>> = Vec::new();
            let mut ri: usize = 0;
            while ri < n
                invariant
                    n == stages@.len(),
                    li < n,
                    ri <= n,
                    reads@.len() == n,
                    forall|k: int| 0 <= k < n ==> read_matches(#[trigger] reads@[k], m, self@, stages@[k]),
                    row@.len() == ri,
                    forall|b: int| 0 <= b < ri ==> (#[trigger] row@[b] is None <==> li == b),
                    forall|b: int| 0 <= b < ri && li != b ==>
                        pair_spec(#[trigger] row@[b].unwrap(), m, self@, stages@[li as int], stages@[b], policy),
                decreases n - ri,
            {
                if li == ri {
                    row.push(None);
                } else {
                    proof {
                        assert(read_matches(reads@[li as int], m, self@, stages@[li as int]));
                        assert(read_matches(reads@[ri as int], m, self@, stages@[ri as int]));
                    }
                    let a = pair_of(stages[li], stages[ri], &reads[li], &reads[ri], policy, Ghost(m), Ghost(self@));
                    row.push(Some(a));
                }
                ri = ri + 1;
            }
            pairs.push(row);
            li = li + 1;
        }
        Ok(StageAgreement { present, missing, policy, stages: own_stages, pairs })
    }
}

/// What the listing shows for one stage: nothing if absent, `TAMPERED` if
/// it fails verify-on-inspect, else the envelope's status token.
pub open spec fn stage_status_spec(m: Map<ArtifactKey, Seq<u8>>, id: Seq<char>, s: Stage) -> Option<Seq<char>> {
    if absent_at(m, id, s) {
        None
    } else if tampered_at(m, id, s) {
        Some(seq!['T', 'A', 'M', 'P', 'E', 'R', 'E', 'D'])
    } else {
        Some(crate::format::status_token(file_at(m, id, s).metadata.status))
    }
}

impl EinmoCase {
    /// The per-stage presence and status of this case, for every stage in
    /// pipeline order.
    ///
    /// # Errors
    /// Any storage failure.
    pub fn stages<S: EinmoStorage>(&self, storage: &S) -> (r: Result<Vec<(Stage, Option<String>)>, EinmoError>)
        ensures
            r matches Ok(v) ==> v@.len() == 3 && forall|k: int| 0 <= k < 3 ==> (#[trigger] v@[k]).0 == crate::stage::all_stages()[k]
                && (v@[k].1 matches Some(t) ==> stage_status_spec(storage.artifacts(), self@, v@[k].0) == Some(t@))
                && (v@[k].1 is None ==> stage_status_spec(storage.artifacts(), self@, v@[k].0) is None),
            r matches Err(e) ==> e is Io,
            storage.infallible() ==> r is Ok,
    {
        let all = Stage::all();
        let mut out: Vec<(Stage, Option<String>)> = Vec::new();
        let mut i: usize = 0;
        while i < all.len()
            invariant
                all@ == crate::stage::all_stages(),
                i <= 3,
                out@.len() == i,
                forall|k: int| 0 <= k < i ==> (#[trigger] out@[k]).0 == crate::stage::all_stages()[k]
                    && (out@[k].1 matches Some(t) ==> stage_status_spec(storage.artifacts(), self@, out@[k].0) == Some(t@))
                    && (out@[k].1 is None ==> stage_status_spec(storage.artifacts(), self@, out@[k].0) is None),
            decreases 3 - i,
        {
            let st = all[i];
            let x = match self.read_stage(storage, st) {
                Err(e) => return Err(e),
                Ok(x) => x,
            };
            proof {
                reveal_strlit("TAMPERED");
                assert("TAMPERED"@ =~= seq!['T', 'A', 'M', 'P', 'E', 'R', 'E', 'D']);
            }
            let status = match x {
                StageRead::Absent => None,
                StageRead::Tampered => Some(own("TAMPERED")),
                StageRead::Present(f) => {
                    proof {
                        lemma_file_of(storage.artifacts()[key_at(self@, ArtifactLocation::Stage(st))], f);
                    }
                    Some(f.metadata.status.to_string())
                },
            };
            out.push((st, status));
            i = i + 1;
        }
        Ok(out)
    }
}

/// The stages a retraction from `stage` removes, highest first.
pub open spec fn cascade_spec(stage: Stage) -> Seq<Stage> {
    match stage {
        Stage::Verified => seq![Stage::Verified],
        _ => seq![Stage::Verified, Stage::Checked],
    }
}

/// The stages of `stages` at which the case has an artifact, in order.
pub open spec fn present_among(m: Map<ArtifactKey, Seq<u8>>, id: Seq<char>, stages: Seq<Stage>) -> Seq<Stage>
    decreases stages.len(),
{
    if stages.len() == 0 {
        Seq::empty()
    } else {
        let p = present_among(m, id, stages.drop_last());
        if m.dom().contains(key_at(id, ArtifactLocation::Stage(stages.last()))) {
            p.push(stages.last())
        } else {
            p
        }
    }
}

/// What a retraction from `stage` removes.
pub open spec fn retracted_spec(m: Map<ArtifactKey, Seq<u8>>, id: Seq<char>, stage: Stage) -> Seq<Stage> {
    present_among(m, id, cascade_spec(stage))
}

/// `m` without the case's artifacts at `stages`.
pub open spec fn remove_keys(m: Map<ArtifactKey, Seq<u8>>, id: Seq<char>, stages: Seq<Stage>) -> Map<ArtifactKey, Seq<u8>>
    decreases stages.len(),
{
    if stages.len() == 0 {
        m
    } else {
        remove_keys(m, id, stages.drop_last()).remove(key_at(id, ArtifactLocation::Stage(stages.last())))
    }
}

/// Removing some stages' artifacts leaves another stage's untouched.
proof fn lemma_remove_keys_other(m: Map<ArtifactKey, Seq<u8>>, id: Seq<char>, stages: Seq<Stage>, s: Stage)
    requires
        !stages.contains(s),
    ensures
        remove_keys(m, id, stages).dom().contains(key_at(id, ArtifactLocation::Stage(s)))
            == m.dom().contains(key_at(id, ArtifactLocation::Stage(s))),
    decreases stages.len(),
{
    if stages.len() > 0 {
        assert(!stages.drop_last().contains(s)) by {
            if stages.drop_last().contains(s) {
                let w = choose|w: int| 0 <= w < stages.drop_last().len() && stages.drop_last()[w] == s;
                assert(stages[w] == s);
            }
        }
        assert(stages.last() != s) by {
            assert(stages[stages.len() - 1] == stages.last());
        }
        lemma_remove_keys_other(m, id, stages.drop_last(), s);
    }
}


/// What evaluating a case did with its freshly produced output.
#[derive(Debug, Clone, Copy, PartialEq, Eq, Structural)]
pub enum EvaluateOutcome {
    /// There was no output yet, or the existing output holds the same
    /// body: the fresh output was signed and written.
    Written,
    /// The existing output differed (or failed verify-on-inspect) and
    /// replacing it was forced: the fresh output was signed and written.
    Replaced,
    /// The existing output differed (or failed verify-on-inspect) and
    /// replacing it was not forced: nothing was written.
    Mismatch,
}

/// The case's `output/` holds an envelope that verifies with the same body
/// as `fresh`.
pub open spec fn output_matches(m: Map<ArtifactKey, Seq<u8>>, id: Seq<char>, fresh: EinmoFile) -> bool {
    let ko = key_at(id, ArtifactLocation::Stage(Stage::Output));
    &&& m.dom().contains(ko)
    &&& verifies(m[ko])
    &&& body_pairs(file_of(m[ko]).sections@, None) == body_pairs(fresh.sections@, None)
}

/// `m1` is `m` with the case's `output/` holding `fresh`'s content, signed
/// anew: `compiled` under the computer key, `configured` under
/// `configured`, `stage:output` under `stage_pk`, all at `timestamp`; what
/// is written verifies.
pub open spec fn output_written(
    m: Map<ArtifactKey, Seq<u8>>,
    m1: Map<ArtifactKey, Seq<u8>>,
    id: Seq<char>,
    fresh: EinmoFile,
    configured: Seq<char>,
    stage_pk: Seq<char>,
) -> bool {
    let ko = key_at(id, ArtifactLocation::Stage(Stage::Output));
    exists|g: EinmoFile|
        m1 == #[trigger] m.insert(ko, encode_utf8(render(g)))
        && prefix_tokens(g) == prefix_tokens(fresh)
        && g.advisory == fresh.advisory
        && file_chain_valid(g)
        && verifies(encode_utf8(render(g)))
        && g.stamps.entries@.len() == 3
        && g.stamps.entries@[0].pubkey_hex@ == computer_pubkey_hex()
        && g.stamps.entries@[1].pubkey_hex@ == configured
        && g.stamps.entries@[2].key@ == "stage:output"@
        && g.stamps.entries@[2].pubkey_hex@ == stage_pk
}

/// Record a freshly produced output for case `id`: `fresh` is the
/// envelope built from what the evaluator produced (its stamps are
/// ignored). With no output yet, or an output with the same body, the
/// fresh one is signed (`compiled`, `configured`, `stage:output`) and
/// written; an output that differs (or fails verify-on-inspect) is
/// replaced only when `force` (regenerate), and otherwise left alone and
/// reported as a mismatch.
///
/// # Errors
/// Any storage failure.
pub fn evaluate_case<S: EinmoStorage>(
    storage: &mut S,
    id: &EinmoId,
    fresh: EinmoFile,
    force: bool,
    configured: &StageKeypair,
    stage_key: &StageKeypair,
    timestamp: &str,
) -> (r: Result<EvaluateOutcome, EinmoError>)
    ensures
        ({
            let m = old(storage).artifacts();
            let ko = key_at(id@, ArtifactLocation::Stage(Stage::Output));
            &&& r matches Ok(o) ==> (o is Written <==> (!m.dom().contains(ko) || output_matches(m, id@, fresh)))
            &&& r matches Ok(o) ==> (o is Replaced <==> (m.dom().contains(ko) && !output_matches(m, id@, fresh) && force))
            &&& r matches Ok(EvaluateOutcome::Mismatch) ==> final(storage).artifacts() == m
            &&& (r is Ok && !(r matches Ok(EvaluateOutcome::Mismatch))) ==> output_written(m, final(storage).artifacts(), id@, fresh,
                configured.pubkey_hex_spec(), stage_key.pubkey_hex_spec())
            &&& r matches Err(e) ==> e is Io
            &&& old(storage).infallible() ==> r is Ok
            &&& final(storage).infallible() == old(storage).infallible()
        }),
{
    let ghost m = storage.artifacts();
    let ghost ko = key_at(id@, ArtifactLocation::Stage(Stage::Output));
    let existing = match storage.read(id, ArtifactLocation::Stage(Stage::Output)) {
        Err(e) => return Err(e),
        Ok(o) => o,
    };
    let outcome = match existing {
        None => EvaluateOutcome::Written,
        Some(bytes) => match verify_bytes(bytes.as_slice()) {
            Ok(f) => {
                proof {
                    lemma_file_of(m[ko], f);
                    lemma_same_sections(f.sections@, file_of(m[ko]).sections@, None, Seq::empty(), Seq::empty());
                }
                if same_bodies(&f, &fresh) {
                    EvaluateOutcome::Written
                } else if force {
                    EvaluateOutcome::Replaced
                } else {
                    return Ok(EvaluateOutcome::Mismatch);
                }
            },
            Err(_) => {
                if force {
                    EvaluateOutcome::Replaced
                } else {
                    return Ok(EvaluateOutcome::Mismatch);
                }
            },
        },
    };
    let mut file = fresh;
    let prefix = file.signed_prefix();
    let stamps = Stamps::generate(prefix.as_str(), configured, stage_key, timestamp);
    file.set_stamps(stamps);
    proof {
        reveal_strlit("stage:output");
        assert(signed_prefix_spec(file) == prefix@);
        assert("stage:output"@ =~= seq!['s', 't', 'a', 'g', 'e', ':', 'o', 'u', 't', 'p', 'u', 't']);
    }
    let bytes = match file.serialize() {
        Ok(b) => b,
        Err(e) => return Err(e),
    };
    match storage.write(id, ArtifactLocation::Stage(Stage::Output), bytes.as_slice()) {
        Err(e) => return Err(e),
        Ok(()) => {},
    }
    proof {
        lemma_file_of(bytes@, file);
        assert(storage.artifacts() == m.insert(ko, encode_utf8(render(file))));
    }
    Ok(outcome)
}

/// The policy decides whether a comments-only divergence counts: when two
/// stages both hold verified envelopes of a case that agree on `INPUT` and
/// `OUTPUT` but not on `COMMENTS`, the pair agrees under `InputOutput` and
/// differs, on `COMMENTS` alone, under `InputOutputComments`.
pub proof fn lemma_policy_decides_comments(
    m: Map<ArtifactKey, Seq<u8>>,
    id: Seq<char>,
    l: Stage,
    r: Stage,
    x: StagePairAgreement,
    y: StagePairAgreement,
)
    requires
        m.dom().contains(key_at(id, ArtifactLocation::Stage(l))),
        m.dom().contains(key_at(id, ArtifactLocation::Stage(r))),
        verifies(m[key_at(id, ArtifactLocation::Stage(l))]),
        verifies(m[key_at(id, ArtifactLocation::Stage(r))]),
        first_body(file_at(m, id, l).sections@, "INPUT"@) == first_body(file_at(m, id, r).sections@, "INPUT"@),
        first_body(file_at(m, id, l).sections@, "OUTPUT"@) == first_body(file_at(m, id, r).sections@, "OUTPUT"@),
        first_body(file_at(m, id, l).sections@, "COMMENTS"@) != first_body(file_at(m, id, r).sections@, "COMMENTS"@),
        pair_spec(x, m, id, l, r, MatchSections::InputOutput),
        pair_spec(y, m, id, l, r, MatchSections::InputOutputComments),
    ensures
        x is Agree,
        y matches StagePairAgreement::Differ { sections } && strings_view(sections@) == seq!["COMMENTS"@],
{
    reveal_strlit("INPUT");
    reveal_strlit("OUTPUT");
    reveal_strlit("COMMENTS");
    let (a, b) = (file_at(m, id, l).sections@, file_at(m, id, r).sections@);
    let io = required_sections(MatchSections::InputOutput);
    let ioc = required_sections(MatchSections::InputOutputComments);
    assert(io[0] == "INPUT"@ && io[1] == "OUTPUT"@);
    assert(ioc[2] == "COMMENTS"@);
    assert(io.drop_last().drop_last() =~= Seq::<Seq<char>>::empty());
    assert(ioc.drop_last() =~= io);
    assert(io.drop_last().len() == 1 && io.drop_last().last() == "INPUT"@);
    assert(diverged(a, b, io.drop_last().drop_last()) =~= Seq::<Seq<char>>::empty());
    assert(diverged(a, b, io.drop_last()) =~= Seq::<Seq<char>>::empty());
    assert(io.last() == "OUTPUT"@ && ioc.last() == "COMMENTS"@);
    assert(diverged(a, b, io) =~= Seq::<Seq<char>>::empty());
    assert(diverged(a, b, ioc) =~= seq!["COMMENTS"@]);
}

} // verus!
