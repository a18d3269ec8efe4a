//! Stage transitions, the report shapes batch operations return, and the
//! file-selection helpers (`glob_match`, `normalize_file_path`).

use vstd::prelude::*;
use vstd::string::StringSliceAdditionalSpecFns;
use crate::case::PassphraseScore;
use crate::stage::{all_stages, stage_dir_name, Stage};
use crate::text::{chars_of, concat, own, starts_with, string_of_range};
use crate::verify::{verifies, verify_bytes};
use crate::case::{file_of, lemma_file_of};
use crate::codec::strings_view;
use crate::format::{signed_prefix_spec, EinmoFile, Metadata, Section, Status};
use crate::signature::{file_chain_valid, StageKeypair, Stamps};
use crate::signature::stamp_records;
use crate::error::EinmoError;

verus! {

/// One promoted case's outcome.
#[derive(Debug, Clone, PartialEq, Eq)]
pub struct Promoted {
    /// The mirror-relative path (`<id>.einmo`).
    pub rel_path: String,
    /// The public key (hex) of the appended stamp.
    pub stamp_pubkey: String,
    /// The appended `verified` stamp used the well-known computer key.
    pub non_human: bool,
    /// The passphrase-effectiveness measurements, where the passphrase check applied.
    pub passphrase_score: Option<PassphraseScore>,
}

/// The result of promoting flagged content into notes.
#[derive(Debug, Clone, Default, PartialEq, Eq)]
pub struct NoteReport {
    /// The mirror-relative paths noted.
    pub noted: Vec<String>,
}

/// The result of a promotion over a selection.
#[derive(Debug, Clone, PartialEq, Eq)]
pub struct PromotionReport {
    /// The cases promoted, in selection order.
    pub promoted: Vec<Promoted>,
}

/// The result of flagging.
#[derive(Debug, Clone, PartialEq, Eq)]
pub struct FlagReport {
    /// The mirror-relative paths moved into a flagged sink.
    pub flagged: Vec<String>,
}

/// The result of a retraction (demotion).
#[derive(Debug, Clone, PartialEq, Eq)]
pub struct RetractReport {
    /// `(stage, path)` of each artifact removed, cascade included.
    pub retracted: Vec<(Stage, String)>,
}

/// A signature-prefix scan result.
#[derive(Debug, Clone, PartialEq, Eq)]
pub struct SignatureReport {
    /// Files carrying a stamp whose public key starts with the prefix.
    pub matched: Vec<String>,
    /// Files that verified but carry no matching stamp.
    pub unmatched: Vec<String>,
}

impl SignatureReport {
    /// Whether every scanned file carries a matching signer.
    pub fn all_matched(&self) -> (r: bool)
        ensures
            r == (self.unmatched@.len() == 0),
    {
        self.unmatched.len() == 0
    }
}

/// The legal stage transitions: `output` to `checked` or `verified`,
/// `checked` to `verified`, and the review demotion `verified` to
/// `checked`. Flagging is not a transition: it moves an artifact into its
/// own stage's flagged sink.
pub open spec fn legal_transition(from: Stage, to: Stage) -> bool {
    match (from, to) {
        (Stage::Output, Stage::Checked) => true,
        (Stage::Output, Stage::Verified) => true,
        (Stage::Checked, Stage::Verified) => true,
        (Stage::Verified, Stage::Checked) => true,
        _ => false,
    }
}

/// Whether `from` to `to` is a legal transition.
pub fn is_legal_transition(from: Stage, to: Stage) -> (r: bool)
    ensures
        r == legal_transition(from, to),
{
    match (from, to) {
        (Stage::Output, Stage::Checked) => true,
        (Stage::Output, Stage::Verified) => true,
        (Stage::Checked, Stage::Verified) => true,
        (Stage::Verified, Stage::Checked) => true,
        _ => false,
    }
}

/// Whether `t[i..]` matches the glob `p[j..]`: `*` matches any run of
/// bytes (zero or more), every other byte itself.
pub open spec fn glob_from(t: Seq<u8>, p: Seq<u8>, i: int, j: int) -> bool
    decreases (t.len() - i) + (p.len() - j),
{
    if i < 0 || j < 0 || i > t.len() || j > p.len() {
        false
    } else if j == p.len() {
        i == t.len()
    } else if p[j] == 42u8 {
        glob_from(t, p, i, j + 1) || (i < t.len() && glob_from(t, p, i + 1, j))
    } else {
        i < t.len() && t[i] == p[j] && glob_from(t, p, i + 1, j + 1)
    }
}

/// Whether `text` matches the glob `pattern`.
pub open spec fn glob_spec(text: Seq<u8>, pattern: Seq<u8>) -> bool {
    glob_from(text, pattern, 0, 0)
}

/// A minimal glob over the UTF-8 bytes: `*` matches any run of
/// characters, everything else is literal (no `?`, no `**`). Runs in time
/// proportional to the product of the lengths, whatever the pattern.
pub fn glob_match(text: &str, pattern: &str) -> (r: bool)
    ensures
        r == glob_spec(text.spec_bytes(), pattern.spec_bytes()),
{
    let t = text.as_bytes();
    let p = pattern.as_bytes();
    let n = t.len();
    let m = p.len();
    // `next[i]` and `next_end` hold column `j + 1`: whether `t[i..]` (and
    // `t[n..]`) match `p[j + 1..]`.
    let mut next: Vec<bool> = Vec::new();
    let mut i0: usize = 0;
    while i0 < n
        invariant
            n == t@.len(),
            m == p@.len(),
            i0 <= n,
            next@.len() == i0,
            forall|k: int| 0 <= k < i0 ==> next@[k] == glob_from(t@, p@, k, m as int),
        decreases n - i0,
    {
        next.push(false);
        i0 = i0 + 1;
    }
    let mut next_end: bool = true;
    let mut j: usize = m;
    while j > 0
        invariant
            n == t@.len(),
            m == p@.len(),
            j <= m,
            next@.len() == n,
            next_end == glob_from(t@, p@, n as int, j as int),
            forall|k: int| 0 <= k < n ==> next@[k] == glob_from(t@, p@, k, j as int),
        decreases j,
    {
        j = j - 1;
        let pc = p[j];
        let cur_end = pc == 42u8 && next_end;
        let mut cur: Vec<bool> = Vec::new();
        let mut c0: usize = 0;
        while c0 < n
            invariant
                c0 <= n,
                cur@.len() == c0,
            decreases n - c0,
        {
            cur.push(false);
            c0 = c0 + 1;
        }
        let mut i: usize = n;
        while i > 0
            invariant
                n == t@.len(),
                m == p@.len(),
                j < m,
                pc == p@[j as int],
                i <= n,
                cur@.len() == n,
                next@.len() == n,
                cur_end == glob_from(t@, p@, n as int, j as int),
                next_end == glob_from(t@, p@, n as int, j + 1),
                forall|k: int| 0 <= k < n ==> next@[k] == glob_from(t@, p@, k, j + 1),
                forall|k: int| i <= k < n ==> cur@[k] == glob_from(t@, p@, k, j as int),
            decreases i,
        {
            i = i - 1;
            let after = if i + 1 < n { cur[i + 1] } else { cur_end };
            let next_after = if i + 1 < n { next[i + 1] } else { next_end };
            let v = if pc == 42u8 {
                next[i] || after
            } else {
                t[i] == pc && next_after
            };
            cur.set(i, v);
        }
        next = cur;
        next_end = cur_end;
    }
    if n == 0 {
        next_end
    } else {
        next[0]
    }
}

/// `path` is in the canonical `<stage>/` directory of some stage.
pub open spec fn stage_prefixed(path: Seq<char>, st: Stage) -> bool {
    path.len() >= stage_dir_name(st).len() + 1
        && path.take(stage_dir_name(st).len() + 1int) == stage_dir_name(st).push('/')
}

/// Where a user-supplied file argument points, mirror-relative: a
/// `.einmo` path under a stage directory loses that directory, any other
/// `.einmo` path is taken as it is, and anything else is an input name
/// whose mirror gains `.einmo`.
pub open spec fn normalized_spec(path: Seq<char>) -> Seq<char> {
    let suffix = seq!['.', 'e', 'i', 'n', 'm', 'o'];
    if path.len() >= 6 && path.skip(path.len() - 6) == suffix {
        if stage_prefixed(path, Stage::Output) {
            path.skip(stage_dir_name(Stage::Output).len() + 1int)
        } else if stage_prefixed(path, Stage::Checked) {
            path.skip(stage_dir_name(Stage::Checked).len() + 1int)
        } else if stage_prefixed(path, Stage::Verified) {
            path.skip(stage_dir_name(Stage::Verified).len() + 1int)
        } else {
            path
        }
    } else {
        path + suffix
    }
}

/// Normalize a file argument to its mirror-relative path (see
/// `normalized_spec`). A path under the suite's own stage directories is
/// made relative to the suite first, by the caller.
pub fn normalize_file_path(path: &str) -> (r: String)
    ensures
        r@ == normalized_spec(path@),
{
    proof {
        reveal_strlit(".einmo");
        reveal_strlit("/");
    }
    let v = chars_of(path);
    let suffix = chars_of(".einmo");
    proof {
        assert(suffix@ =~= seq!['.', 'e', 'i', 'n', 'm', 'o']);
    }
    let ends = v.len() >= 6 && ends_with_chars(v.as_slice(), suffix.as_slice());
    if !ends {
        return concat(path, ".einmo");
    }
    let stages = Stage::all();
    let mut k: usize = 0;
    while k < 3
        invariant
            k <= 3,
            stages@ == all_stages(),
            v@ == path@,
            path@.len() >= 6 && path@.skip(path@.len() - 6) == seq!['.', 'e', 'i', 'n', 'm', 'o'],
            forall|x: int| 0 <= x < k ==> !stage_prefixed(path@, #[trigger] all_stages()[x]),
        decreases 3 - k,
    {
        let st = stages[k];
        let mut pre = chars_of(st.dir_name());
        pre.push('/');
        if starts_with(v.as_slice(), pre.as_slice()) {
            proof {
                assert(pre@ == stage_dir_name(st).push('/'));
                assert(stage_prefixed(path@, st));
                if k >= 1 {
                    assert(!stage_prefixed(path@, all_stages()[0]));
                }
                if k >= 2 {
                    assert(!stage_prefixed(path@, all_stages()[1]));
                }
            }
            return string_of_range(v.as_slice(), pre.len(), v.len());
        }
        k = k + 1;
    }
    proof {
        assert(!stage_prefixed(path@, all_stages()[0]));
        assert(!stage_prefixed(path@, all_stages()[1]));
        assert(!stage_prefixed(path@, all_stages()[2]));
    }
    own(path)
}

/// Whether `v` ends with `suffix`.
fn ends_with_chars(v: &[char], suffix: &[char]) -> (r: bool)
    requires
        v@.len() >= suffix@.len(),
    ensures
        r == (v@.skip(v@.len() - suffix@.len()) == suffix@),
{
    let n = v.len();
    let off = n - suffix.len();
    let mut k: usize = 0;
    while k < suffix.len()
        invariant
            n == v@.len(),
            off == v@.len() - suffix@.len(),
            k <= suffix@.len(),
            forall|x: int| 0 <= x < k ==> v@[off + x] == suffix@[x],
        decreases suffix@.len() - k,
    {
        if v[off + k] != suffix[k] {
            proof {
                assert(v@.skip(off as int)[k as int] != suffix@[k as int]);
            }
            return false;
        }
        k = k + 1;
    }
    proof {
        assert(v@.skip(off as int) =~= suffix@);
    }
    true
}

/// Which files carry a stamp whose public key starts with `prefix`.
pub open spec fn stamped_with_prefix(f: EinmoFile, prefix: Seq<char>) -> bool {
    let recs = stamp_records(f.stamps.entries@);
    exists|i: int| 0 <= i < recs.len() && (#[trigger] recs[i])[1].len() >= prefix.len()
        && recs[i][1].take(prefix.len() as int) == prefix
}

/// Whether `stamped_by` on `f`'s stamps holds is `stamped_with_prefix`.
proof fn lemma_stamped(f: EinmoFile, g: EinmoFile, prefix: Seq<char>, hit: bool)
    requires
        stamp_records(g.stamps.entries@) == stamp_records(f.stamps.entries@),
        hit == exists|i: int| 0 <= i < f.stamps.entries@.len()
            && (#[trigger] f.stamps.entries@[i]).pubkey_hex@.len() >= prefix.len()
            && f.stamps.entries@[i].pubkey_hex@.take(prefix.len() as int) == prefix,
    ensures
        hit == stamped_with_prefix(g, prefix),
{
    let recs = stamp_records(g.stamps.entries@);
    let fr = stamp_records(f.stamps.entries@);
    if hit {
        let i = choose|i: int| 0 <= i < f.stamps.entries@.len()
            && (#[trigger] f.stamps.entries@[i]).pubkey_hex@.len() >= prefix.len()
            && f.stamps.entries@[i].pubkey_hex@.take(prefix.len() as int) == prefix;
        assert(fr[i][1] == f.stamps.entries@[i].pubkey_hex@);
        assert(recs[i][1] == fr[i][1]);
    }
    if stamped_with_prefix(g, prefix) {
        let i = choose|i: int| 0 <= i < recs.len() && (#[trigger] recs[i])[1].len() >= prefix.len()
            && recs[i][1].take(prefix.len() as int) == prefix;
        assert(fr[i][1] == f.stamps.entries@[i].pubkey_hex@);
    }
}

/// Scan `files` (`(path, bytes)`, in the order given) and sort each path
/// into `matched` or `unmatched` by whether the file carries a stamp whose
/// public key starts with `pubkey_prefix`; every file must verify first.
///
/// # Errors
/// [`EinmoError::Parse`] or [`EinmoError::Verification`] for the first
/// file that fails verify-on-inspect.
pub fn confirm_signatures(files: &Vec<(String, Vec<u8>)>, pubkey_prefix: &str) -> (r: Result<SignatureReport, EinmoError>)
    ensures
        r is Ok <==> forall|i: int| 0 <= i < files@.len() ==> verifies((#[trigger] files@[i]).1@),
        r matches Err(e) ==> e is Parse || e is Verification,
        r matches Ok(rep) ==> rep.matched@.len() + rep.unmatched@.len() == files@.len()
            && (forall|i: int| 0 <= i < files@.len() ==> (stamped_with_prefix(file_of(#[trigger] files@[i].1@), pubkey_prefix@)
                ==> crate::codec::strings_view(rep.matched@).contains(files@[i].0@))
                && (!stamped_with_prefix(file_of(files@[i].1@), pubkey_prefix@)
                ==> crate::codec::strings_view(rep.unmatched@).contains(files@[i].0@))),
{
    let mut matched: Vec<String> = Vec::new();
    let mut unmatched: Vec<String> = Vec::new();
    let mut i: usize = 0;
    while i < files.len()
        invariant
            i <= files@.len(),
            matched@.len() + unmatched@.len() == i,
            forall|k: int| 0 <= k < i ==> verifies((#[trigger] files@[k]).1@),
            forall|k: int| 0 <= k < i ==> (stamped_with_prefix(file_of(#[trigger] files@[k].1@), pubkey_prefix@)
                ==> crate::codec::strings_view(matched@).contains(files@[k].0@))
                && (!stamped_with_prefix(file_of(files@[k].1@), pubkey_prefix@)
                ==> crate::codec::strings_view(unmatched@).contains(files@[k].0@)),
        decreases files@.len() - i,
    {
        let f = match verify_bytes(files[i].1.as_slice()) {
            Ok(f) => f,
            Err(e) => {
                proof {
                    assert(!verifies(files@[i as int].1@));
                }
                return Err(e);
            },
        };
        proof {
            lemma_file_of(files@[i as int].1@, f);
        }
        let ghost pm = matched@;
        let ghost pu = unmatched@;
        let hit = f.stamps.stamped_by(pubkey_prefix);
        if hit {
            matched.push(own(files[i].0.as_str()));
        } else {
            unmatched.push(own(files[i].0.as_str()));
        }
        proof {
            lemma_stamped(f, file_of(files@[i as int].1@), pubkey_prefix@, hit);
            assert forall|k: int| 0 <= k < i + 1 implies (stamped_with_prefix(file_of(#[trigger] files@[k].1@), pubkey_prefix@)
                ==> crate::codec::strings_view(matched@).contains(files@[k].0@))
                && (!stamped_with_prefix(file_of(files@[k].1@), pubkey_prefix@)
                ==> crate::codec::strings_view(unmatched@).contains(files@[k].0@)) by {
                if k < i {
                    if stamped_with_prefix(file_of(files@[k].1@), pubkey_prefix@) {
                        let w = choose|w: int| 0 <= w < pm.len() && crate::codec::strings_view(pm)[w] == files@[k].0@;
                        assert(crate::codec::strings_view(matched@)[w] == files@[k].0@);
                    } else {
                        let w = choose|w: int| 0 <= w < pu.len() && crate::codec::strings_view(pu)[w] == files@[k].0@;
                        assert(crate::codec::strings_view(unmatched@)[w] == files@[k].0@);
                    }
                } else if hit {
                    assert(crate::codec::strings_view(matched@)[pm.len() as int] == files@[k].0@);
                } else {
                    assert(crate::codec::strings_view(unmatched@)[pu.len() as int] == files@[k].0@);
                }
            }
        }
        i = i + 1;
    }
    Ok(SignatureReport { matched, unmatched })
}

/// The message when a flagged file carries no advisory to note.
pub open spec fn nothing_flagged_message(rel: Seq<char>) -> Seq<char> {
    rel + ": nothing flagged to promote into a note"@
}

/// The note a flagged artifact graduates into: a signed envelope whose one
/// `NOTE` section holds the flag's concatenated advisory text, attributed
/// by a `stage:notes` stamp under `signer` after the `compiled` and
/// `configured` stamps. The flagged file itself is left as it was.
///
/// # Errors
/// [`EinmoError::Config`] if `flagged` carries no advisory.
pub fn note_for(
    flagged: &EinmoFile,
    rel: &str,
    suite: &str,
    producer: &str,
    producer_diff: &str,
    generated: &str,
    configured: &StageKeypair,
    signer: &StageKeypair,
) -> (r: Result<EinmoFile, EinmoError>)
    ensures
        r is Ok <==> flagged.advisory is Some,
        r matches Err(e) ==> e matches EinmoError::Config(m) && m@ == nothing_flagged_message(rel@),
        r matches Ok(n) ==> {
            &&& n.encoding@ == flagged.encoding@
            &&& n.separator@ == flagged.separator@
            &&& n.metadata.test@ == rel@
            &&& n.metadata.suite@ == suite@
            &&& n.metadata.producer@ == producer@
            &&& n.metadata.producer_diff@ == producer_diff@
            &&& n.metadata.generated@ == generated@
            &&& n.metadata.status == Status::Normal
            &&& n.metadata.status_detail@.len() == 0
            &&& n.metadata.reference@.len() == 0
            &&& strings_view(n.metadata.sections@) == seq!["NOTE"@, "STAMPS"@]
            &&& n.sections@.len() == 1
            &&& n.sections@[0].name@ == "NOTE"@
            &&& n.sections@[0].body@ == flagged.advisory->0@
            &&& n.advisory is None
            &&& n.stamps.entries@.len() == 3
            &&& n.stamps.entries@[1].pubkey_hex@ == configured.pubkey_hex_spec()
            &&& n.stamps.entries@[2].key@ == "stage:notes"@
            &&& n.stamps.entries@[2].pubkey_hex@ == signer.pubkey_hex_spec()
            &&& file_chain_valid(n)
        },
{
    let advisory = match flagged.advisory() {
        Some(a) => a,
        None => {
            return Err(EinmoError::Config(concat(rel, ": nothing flagged to promote into a note")));
        },
    };
    let names = vec![own("NOTE"), own("STAMPS")];
    proof {
        assert(strings_view(names@) =~= seq!["NOTE"@, "STAMPS"@]);
    }
    let metadata = Metadata {
        test: own(rel),
        suite: own(suite),
        producer: own(producer),
        producer_diff: own(producer_diff),
        generated: own(generated),
        status: Status::Normal,
        status_detail: own(""),
        reference: own(""),
        sections: names,
    };
    let sections = vec![Section::new("NOTE", advisory)];
    let mut file = EinmoFile::new(flagged.encoding.as_str(), flagged.separator.as_str(), metadata, sections, Stamps::new());
    let prefix = file.signed_prefix();
    let stamps = Stamps::generate_for_stage(prefix.as_str(), configured, "stage:notes", signer, generated);
    file.set_stamps(stamps);
    proof {
        reveal_strlit("");
        assert(signed_prefix_spec(file) == prefix@);
    }
    Ok(file)
}

} // verus!
