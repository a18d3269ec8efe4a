//! `EinmoSuite`: an in-memory case collection built by scanning an
//! [`EinmoStorage`] once, and the batch operations (promote, flag,
//! retract) over a selection of its cases.

use vstd::prelude::*;
use crate::verify::verifies;
use crate::case::{
    absent_at, file_at, file_of, lemma_file_of, pair_spec, tampered_at, StagePairAgreement,
    flag_effect, promote_effect, remove_keys, retracted_spec, EinmoCase, PassphraseScore,
    PromoteOutcome,
};
use crate::config::KeySource;
use crate::collation::Collation;
use crate::directory::{below, build_node, components_at_most, dir_parts, tree_ok, DirectoryNode};
use crate::corpus_signer::{lemma_manifest_order_is_unique, manifest_spec, signed_spec, verify_ok_spec, CorpusSigner, SectionSig};
use crate::crypto::{zstd_compressed_len, zstd_len_spec};
use crate::signature::{computer_pubkey_hex, derived_pubkey_hex, is_computer_key, StageKeypair};
use vstd::slice::slice_to_vec;
use crate::stage::mirror_spec;
use crate::transitions::{glob_match, glob_spec, normalize_file_path, normalized_spec, is_legal_transition, legal_transition, note_for, FlagReport, NoteReport, Promoted, PromotionReport, RetractReport};
use crate::format::{render, EinmoFile};
use crate::signature::file_chain_valid;
use vstd::string::StringSliceAdditionalSpecFns;
use crate::codec::strings_view;
use vstd::utf8::encode_utf8;
use crate::compare::{diverged, opt_chars, required_sections, MatchSections};
use crate::format::copy_strings;
use crate::error::EinmoError;
use crate::stage::{id_views, ids_strictly_sorted, sort_dedup_ids, split_components, split_slash, valid_id, EinmoId, Stage};
use crate::collation::path_strictly_sorted;
use crate::storage::{ArtifactKey, ArtifactLocation, EinmoStorage};
use crate::text::{chars_of, own, string_of_range, lemma_seq_lt_irreflexive, lemma_seq_lt_transitive, lemma_seq_lt_trichotomy, seq_contains, seq_lt,
    str_contains, Order};

verus! {

/// The case has something at `input/` or at some stage (a flagged sink
/// does not count).
pub open spec fn in_suite(m: Map<ArtifactKey, Seq<u8>>, x: Seq<char>) -> bool {
    ||| m.dom().contains((x, ArtifactLocation::Input))
    ||| m.dom().contains((x, ArtifactLocation::Stage(Stage::Output)))
    ||| m.dom().contains((x, ArtifactLocation::Stage(Stage::Checked)))
    ||| m.dom().contains((x, ArtifactLocation::Stage(Stage::Verified)))
}

/// `x` passes an optional substring filter.
pub open spec fn passes(filter: Option<Seq<char>>, x: Seq<char>) -> bool {
    match filter {
        Some(p) => seq_contains(x, p),
        None => true,
    }
}

/// The members of `list` that pass `filter`, in order.
pub open spec fn keep_passing(list: Seq<Seq<char>>, filter: Option<Seq<char>>) -> Seq<Seq<char>>
    decreases list.len(),
{
    if list.len() == 0 {
        Seq::empty()
    } else {
        let p = keep_passing(list.drop_last(), filter);
        if passes(filter, list.last()) {
            p.push(list.last())
        } else {
            p
        }
    }
}

/// The members of `list` that `universe` holds, in order.
pub open spec fn keep_members(list: Seq<Seq<char>>, universe: Seq<Seq<char>>) -> Seq<Seq<char>>
    decreases list.len(),
{
    if list.len() == 0 {
        Seq::empty()
    } else {
        let p = keep_members(list.drop_last(), universe);
        if universe.contains(list.last()) {
            p.push(list.last())
        } else {
            p
        }
    }
}

/// The cases a batch operation selects: the named `ids` that are in the
/// suite, when given (the filter is then ignored); otherwise every case
/// passing `filter`.
pub open spec fn selected(suite_ids: Seq<Seq<char>>, filter: Option<Seq<char>>, ids: Option<Seq<Seq<char>>>) -> Seq<Seq<char>> {
    match ids {
        Some(list) => keep_members(list, suite_ids),
        None => keep_passing(suite_ids, filter),
    }
}

/// What [`EinmoSuite::update_corpus_signature`] did to a stage's section
/// signature.
#[derive(Debug, Clone, Copy, PartialEq, Eq)]
pub enum CorpusSignatureUpdate {
    /// No signature existed for the stage; one was made.
    Created {
        /// The number of ids in the manifest signed.
        manifest_len: usize,
    },
    /// A signature existed but no longer verified against the section, so
    /// it was made anew.
    Updated {
        /// The number of ids in the manifest signed.
        manifest_len: usize,
    },
    /// A signature existed and still verifies; nothing was made.
    AlreadyCurrent,
}

/// An in-memory snapshot of one suite: its storage, and every id with
/// something at `input/` or at a stage, sorted and without duplicates.
pub struct EinmoSuite<S: EinmoStorage> {
    storage: S,
    ids: Vec<EinmoId>,
}

/// Keeps the ids of `v` that pass `filter`.
fn filter_ids(v: Vec<EinmoId>, filter: Option<&str>) -> (r: Vec<EinmoId>)
    ensures
        id_views(r@) == keep_passing(id_views(v@), opt_chars(filter)),
{
    let mut out: Vec<EinmoId> = Vec::new();
    let mut i: usize = 0;
    while i < v.len()
        invariant
            i <= v@.len(),
            id_views(out@) == keep_passing(id_views(v@).take(i as int), opt_chars(filter)),
        decreases v@.len() - i,
    {
        let keep = match filter {
            Some(p) => str_contains(v[i].as_str(), p),
            None => true,
        };
        proof {
            assert(id_views(v@).take(i + 1).drop_last() =~= id_views(v@).take(i as int));
            assert(id_views(v@).take(i + 1).last() == v@[i as int]@);
        }
        if keep {
            let ghost prev = id_views(out@);
            out.push(v[i].duplicate());
            assert(id_views(out@) =~= prev.push(v@[i as int]@));
        }
        i = i + 1;
    }
    assert(id_views(v@).take(i as int) =~= id_views(v@));
    out
}

/// `keep_passing` keeps a sublist: strict sortedness survives.
proof fn lemma_keep_passing_sorted(list: Seq<Seq<char>>, filter: Option<Seq<char>>)
    requires
        ids_strictly_sorted(list),
    ensures
        ids_strictly_sorted(keep_passing(list, filter)),
        forall|x: Seq<char>| keep_passing(list, filter).contains(x) <==> list.contains(x) && passes(filter, x),
    decreases list.len(),
{
    if list.len() > 0 {
        let d = list.drop_last();
        assert(ids_strictly_sorted(d)) by {
            assert forall|i: int, j: int| 0 <= i < j < d.len() implies seq_lt(#[trigger] d[i], #[trigger] d[j]) by {
                assert(d[i] == list[i] && d[j] == list[j]);
            }
        }
        lemma_keep_passing_sorted(d, filter);
        let p = keep_passing(d, filter);
        assert forall|x: Seq<char>| d.contains(x) <==> list.contains(x) && x != list.last() || (d.contains(x) && x == list.last()) by {
            if list.contains(x) && x != list.last() {
                let w = choose|w: int| 0 <= w < list.len() && list[w] == x;
                assert(w != list.len() - 1);
                assert(d[w] == x);
            }
            if d.contains(x) {
                let w = choose|w: int| 0 <= w < d.len() && d[w] == x;
                assert(list[w] == x);
            }
        }
        if passes(filter, list.last()) {
            let q = p.push(list.last());
            assert forall|i: int, j: int| 0 <= i < j < q.len() implies seq_lt(#[trigger] q[i], #[trigger] q[j]) by {
                if j == q.len() - 1 {
                    assert(p.contains(q[i]));
                    assert(d.contains(q[i]));
                    let w = choose|w: int| 0 <= w < d.len() && d[w] == q[i];
                    assert(list[w] == q[i]);
                    assert(seq_lt(list[w], list[list.len() - 1]));
                } else {
                    assert(q[i] == p[i] && q[j] == p[j]);
                }
            }
            assert forall|x: Seq<char>| q.contains(x) <==> list.contains(x) && passes(filter, x) by {
                if q.contains(x) {
                    let w = choose|w: int| 0 <= w < q.len() && q[w] == x;
                    if w < p.len() {
                        assert(p[w] == x);
                        assert(p.contains(x));
                    } else {
                        assert(list[list.len() - 1] == x);
                    }
                }
                if list.contains(x) && passes(filter, x) {
                    if x == list.last() {
                        assert(q[q.len() - 1] == x);
                    } else {
                        assert(p.contains(x));
                        let w = choose|w: int| 0 <= w < p.len() && p[w] == x;
                        assert(q[w] == x);
                    }
                }
            }
        } else {
            assert forall|x: Seq<char>| p.contains(x) <==> list.contains(x) && passes(filter, x) by {
                if list.contains(x) && passes(filter, x) {
                    assert(x != list.last());
                }
            }
        }
    }
}

/// The ids a scan of `storage` finds: every id with something at `input/`
/// or at any stage (never a flagged sink), sorted in id order without
/// duplicates, then only those containing `filter`, when given, as a
/// substring of the id itself.
///
/// # Errors
/// Any storage listing failure.
pub fn scan_ids<S: EinmoStorage>(storage: &S, filter: Option<&str>) -> (r: Result<Vec<EinmoId>, EinmoError>)
    ensures
        r matches Ok(ids) ==> ids_strictly_sorted(id_views(ids@))
            && forall|x: Seq<char>| #[trigger] id_views(ids@).contains(x) <==> in_suite(storage.artifacts(), x)
                && passes(opt_chars(filter), x),
        r matches Err(e) ==> e is Io || e is InvalidId,
        storage.infallible() ==> r is Ok,
{
    let ghost m = storage.artifacts();
    let mut all: Vec<EinmoId> = match storage.list_ids(ArtifactLocation::Input) {
        Err(e) => return Err(e),
        Ok(v) => v,
    };
    let stages = Stage::all();
    let mut k: usize = 0;
    while k < 3
        invariant
            stages@ == crate::stage::all_stages(),
            k <= 3,
            m == storage.artifacts(),
            forall|x: Seq<char>| #[trigger] id_views(all@).contains(x) <==> (m.dom().contains((x, ArtifactLocation::Input))
                || exists|j: int| 0 <= j < k && m.dom().contains((x, ArtifactLocation::Stage(#[trigger] stages@[j])))),
        decreases 3 - k,
    {
        let more = match storage.list_ids(ArtifactLocation::Stage(stages[k])) {
            Err(e) => return Err(e),
            Ok(v) => v,
        };
        let ghost before = id_views(all@);
        let mut j: usize = 0;
        while j < more.len()
            invariant
                j <= more@.len(),
                forall|x: Seq<char>| #[trigger] id_views(all@).contains(x) <==> before.contains(x)
                    || id_views(more@).take(j as int).contains(x),
            decreases more@.len() - j,
        {
            let ghost prev = id_views(all@);
            all.push(more[j].duplicate());
            proof {
                assert(id_views(all@) =~= prev.push(more@[j as int]@));
                assert(id_views(more@).take(j + 1) =~= id_views(more@).take(j as int).push(more@[j as int]@));
                assert forall|x: Seq<char>| #[trigger] id_views(all@).contains(x) <==> before.contains(x)
                    || id_views(more@).take(j + 1).contains(x) by {
                    if id_views(all@).contains(x) && x != more@[j as int]@ {
                        let w = choose|w: int| 0 <= w < id_views(all@).len() && id_views(all@)[w] == x;
                        assert(w < prev.len());
                        assert(prev[w] == x);
                    }
                    if id_views(more@).take(j as int).contains(x) {
                        let w = choose|w: int| 0 <= w < j && id_views(more@).take(j as int)[w] == x;
                        assert(id_views(more@).take(j + 1)[w] == x);
                    }
                    let t1 = id_views(more@).take(j + 1);
                    if t1.contains(x) && x != more@[j as int]@ {
                        let w = choose|w: int| 0 <= w < t1.len() && t1[w] == x;
                        assert(w < j);
                        assert(id_views(more@).take(j as int)[w] == x);
                    }
                    if prev.contains(x) {
                        let w = choose|w: int| 0 <= w < prev.len() && prev[w] == x;
                        assert(id_views(all@)[w] == x);
                    }
                    if x == more@[j as int]@ {
                        assert(id_views(all@)[prev.len() as int] == x);
                        assert(id_views(more@).take(j + 1)[j as int] == x);
                    }
                }
            }
            j = j + 1;
        }
        proof {
            assert(id_views(more@).take(j as int) =~= id_views(more@));
            assert forall|x: Seq<char>| #[trigger] id_views(all@).contains(x) <==> (m.dom().contains((x, ArtifactLocation::Input))
                || exists|j2: int| 0 <= j2 < k + 1 && m.dom().contains((x, ArtifactLocation::Stage(#[trigger] stages@[j2])))) by {
                if exists|j2: int| 0 <= j2 < k + 1 && m.dom().contains((x, ArtifactLocation::Stage(#[trigger] stages@[j2]))) {
                    let j2 = choose|j2: int| 0 <= j2 < k + 1 && m.dom().contains((x, ArtifactLocation::Stage(#[trigger] stages@[j2])));
                    if j2 < k {
                        assert(exists|j3: int| 0 <= j3 < k && m.dom().contains((x, ArtifactLocation::Stage(#[trigger] stages@[j3]))));
                    }
                }
            }
        }
        k = k + 1;
    }
    let sorted = sort_dedup_ids(&all);
    let ids = filter_ids(sorted, filter);
    proof {
        lemma_keep_passing_sorted(id_views(sorted@), opt_chars(filter));
        assert forall|x: Seq<char>| #[trigger] id_views(ids@).contains(x) <==> in_suite(m, x) && passes(opt_chars(filter), x) by {
            assert(id_views(ids@).contains(x) == (id_views(sorted@).contains(x) && passes(opt_chars(filter), x)));
            assert(id_views(sorted@).contains(x) == id_views(all@).contains(x));
            if exists|j: int| 0 <= j < 3 && m.dom().contains((x, ArtifactLocation::Stage(#[trigger] stages@[j]))) {
                let j = choose|j: int| 0 <= j < 3 && m.dom().contains((x, ArtifactLocation::Stage(#[trigger] stages@[j])));
                assert(in_suite(m, x));
            }
            if in_suite(m, x) {
                if m.dom().contains((x, ArtifactLocation::Stage(Stage::Output))) {
                    assert(m.dom().contains((x, ArtifactLocation::Stage(stages@[0]))));
                }
                if m.dom().contains((x, ArtifactLocation::Stage(Stage::Checked))) {
                    assert(m.dom().contains((x, ArtifactLocation::Stage(stages@[1]))));
                }
                if m.dom().contains((x, ArtifactLocation::Stage(Stage::Verified))) {
                    assert(m.dom().contains((x, ArtifactLocation::Stage(stages@[2]))));
                }
            }
        }
    }
    Ok(ids)
}

impl<S: EinmoStorage> EinmoSuite<S> {
    /// Well-formedness: the ids are strictly sorted.
    pub closed spec fn wf(&self) -> bool {
        ids_strictly_sorted(id_views(self.ids@))
    }

    /// The suite's ids, in order.
    pub closed spec fn ids_spec(&self) -> Seq<Seq<char>> {
        id_views(self.ids@)
    }

    /// The suite's storage contents.
    pub closed spec fn artifacts(&self) -> Map<ArtifactKey, Seq<u8>> {
        self.storage.artifacts()
    }

    /// Whether the suite's storage never fails (see
    /// [`EinmoStorage::infallible`]).
    pub closed spec fn storage_infallible(&self) -> bool {
        self.storage.infallible()
    }

    /// Scan `storage`: every id with something at `input/` or at any stage
    /// (a flagged sink is never listed), sorted in id order with duplicates
    /// removed, then only those containing `filter`, when given, as a
    /// substring of the id itself.
    ///
    /// # Errors
    /// Any storage listing failure.
    pub fn scan(storage: S, filter: Option<&str>) -> (r: Result<EinmoSuite<S>, EinmoError>)
        ensures
            r matches Ok(s) ==> s.wf() && s.artifacts() == storage.artifacts()
                && ids_strictly_sorted(s.ids_spec())
                && forall|x: Seq<char>| #[trigger] s.ids_spec().contains(x) <==> in_suite(storage.artifacts(), x)
                    && passes(opt_chars(filter), x),
            r matches Err(e) ==> e is Io || e is InvalidId,
            storage.infallible() ==> r is Ok,
    {
        match scan_ids(&storage, filter) {
            Err(e) => Err(e),
            Ok(ids) => Ok(EinmoSuite { storage, ids }),
        }
    }

    /// The storage this suite was scanned from.
    pub fn storage(&self) -> (r: &S)
        ensures
            r.artifacts() == self.artifacts(),
    {
        &self.storage
    }

    /// Every id, in id order.
    pub fn ids(&self) -> (r: &[EinmoId])
        ensures
            id_views(r@) == self.ids_spec(),
    {
        self.ids.as_slice()
    }

    /// Every case, in id order.
    pub fn cases(&self) -> (r: Vec<EinmoCase>)
        ensures
            r@.len() == self.ids_spec().len(),
            forall|i: int| 0 <= i < r@.len() ==> (#[trigger] r@[i])@ == self.ids_spec()[i],
    {
        let mut out: Vec<EinmoCase> = Vec::new();
        let mut i: usize = 0;
        while i < self.ids.len()
            invariant
                i <= self.ids@.len(),
                out@.len() == i,
                forall|k: int| 0 <= k < i ==> (#[trigger] out@[k])@ == self.ids@[k]@,
            decreases self.ids@.len() - i,
        {
            out.push(EinmoCase::new(self.ids[i].duplicate()));
            i = i + 1;
        }
        out
    }

    /// One case, if `id` is in this suite (binary search in id order).
    pub fn case(&self, id: &EinmoId) -> (r: Option<EinmoCase>)
        requires
            self.wf(),
        ensures
            r is Some <==> self.ids_spec().contains(id@),
            r matches Some(c) ==> c@ == id@,
    {
        let ghost v = id_views(self.ids@);
        let mut lo: usize = 0;
        let mut hi: usize = self.ids.len();
        while lo < hi
            invariant
                v == id_views(self.ids@),
                ids_strictly_sorted(v),
                lo <= hi <= v.len(),
                forall|k: int| 0 <= k < lo ==> seq_lt(#[trigger] v[k], id@),
                forall|k: int| hi <= k < v.len() ==> seq_lt(id@, #[trigger] v[k]),
            decreases hi - lo,
        {
            let mid = lo + (hi - lo) / 2;
            match self.ids[mid].compare(id) {
                Order::Equal => {
                    assert(v[mid as int] == id@);
                    return Some(EinmoCase::new(id.duplicate()));
                },
                Order::Less => {
                    proof {
                        assert forall|k: int| 0 <= k < mid + 1 implies seq_lt(#[trigger] v[k], id@) by {
                            if k < mid {
                                lemma_seq_lt_transitive(v[k], v[mid as int], id@);
                            }
                        }
                    }
                    lo = mid + 1;
                },
                Order::Greater => {
                    proof {
                        assert forall|k: int| mid <= k < v.len() implies seq_lt(id@, #[trigger] v[k]) by {
                            if k > mid {
                                lemma_seq_lt_transitive(id@, v[mid as int], v[k]);
                            }
                        }
                    }
                    hi = mid;
                },
            }
        }
        proof {
            if v.contains(id@) {
                let w = choose|w: int| 0 <= w < v.len() && v[w] == id@;
                lemma_seq_lt_irreflexive(id@);
            }
        }
        None
    }

    /// The selected cases: `ids`, when given, names the exact cases (the
    /// filter is ignored and names absent from the suite are skipped);
    /// otherwise every case passing `filter`.
    pub fn select(&self, filter: Option<&str>, ids: Option<&[EinmoId]>) -> (r: Vec<EinmoCase>)
        requires
            self.wf(),
        ensures
            r@.len() == selected(self.ids_spec(), opt_chars(filter), match ids { Some(l) => Some(id_views(l@)), None => None }).len(),
            forall|i: int| 0 <= i < r@.len() ==> (#[trigger] r@[i])@
                == selected(self.ids_spec(), opt_chars(filter), match ids { Some(l) => Some(id_views(l@)), None => None })[i],
    {
        match ids {
            Some(list) => {
                let ghost lv = id_views(list@);
                let mut out: Vec<EinmoCase> = Vec::new();
                let mut i: usize = 0;
                while i < list.len()
                    invariant
                        self.wf(),
                        i <= list@.len(),
                        lv == id_views(list@),
                        out@.len() == keep_members(lv.take(i as int), self.ids_spec()).len(),
                        forall|k: int| 0 <= k < out@.len() ==> (#[trigger] out@[k])@
                            == keep_members(lv.take(i as int), self.ids_spec())[k],
                    decreases list@.len() - i,
                {
                    proof {
                        assert(lv.take(i + 1).drop_last() =~= lv.take(i as int));
                        assert(lv.take(i + 1).last() == list@[i as int]@);
                    }
                    match self.case(&list[i]) {
                        Some(c) => {
                            out.push(c);
                        },
                        None => {},
                    }
                    i = i + 1;
                }
                assert(lv.take(i as int) =~= lv);
                out
            },
            None => {
                let all = self.cases();
                let ghost sv = self.ids_spec();
                let mut out: Vec<EinmoCase> = Vec::new();
                let mut i: usize = 0;
                while i < all.len()
                    invariant
                        i <= all@.len(),
                        all@.len() == sv.len(),
                        forall|k: int| 0 <= k < all@.len() ==> (#[trigger] all@[k])@ == sv[k],
                        out@.len() == keep_passing(sv.take(i as int), opt_chars(filter)).len(),
                        forall|k: int| 0 <= k < out@.len() ==> (#[trigger] out@[k])@
                            == keep_passing(sv.take(i as int), opt_chars(filter))[k],
                    decreases all@.len() - i,
                {
                    let keep = match filter {
                        Some(p) => str_contains(all[i].id().as_str(), p),
                        None => true,
                    };
                    proof {
                        assert(sv.take(i + 1).drop_last() =~= sv.take(i as int));
                        assert(sv.take(i + 1).last() == all@[i as int]@);
                    }
                    if keep {
                        out.push(EinmoCase::new(all[i].id().duplicate()));
                    }
                    i = i + 1;
                }
                assert(sv.take(i as int) =~= sv);
                out
            },
        }
    }
}

/// The optional id list's characters.
pub open spec fn opt_ids(ids: Option<&[EinmoId]>) -> Option<Seq<Seq<char>>> {
    match ids {
        Some(l) => Some(id_views(l@)),
        None => None,
    }
}

/// Retracting every case of `sel` from `stage`, in order: the artifacts
/// after, and the `(stage, mirror path)` removed.
pub open spec fn retract_fold(m: Map<ArtifactKey, Seq<u8>>, sel: Seq<Seq<char>>, stage: Stage)
    -> (Map<ArtifactKey, Seq<u8>>, Seq<(Stage, Seq<char>)>)
    decreases sel.len(),
{
    if sel.len() == 0 {
        (m, Seq::empty())
    } else {
        let (m1, rep) = retract_fold(m, sel.drop_last(), stage);
        let id = sel.last();
        let t = retracted_spec(m1, id, stage);
        (remove_keys(m1, id, t), rep + Seq::new(t.len(), |k: int| (t[k], mirror_spec(id))))
    }
}

/// The ids of `sel` whose case had something at `at` in the state just
/// before its turn.
pub open spec fn present_in_trace(ms: Seq<Map<ArtifactKey, Seq<u8>>>, sel: Seq<Seq<char>>, at: ArtifactLocation) -> Seq<Seq<char>>
    decreases sel.len(),
{
    if sel.len() == 0 {
        Seq::empty()
    } else {
        let p = present_in_trace(ms, sel.drop_last(), at);
        let i = sel.len() - 1;
        if ms[i].dom().contains((sel[i], at)) {
            p.push(sel[i])
        } else {
            p
        }
    }
}

/// `ms` is the sequence of states of flagging each case of `sel` at
/// `stage` in turn: a case with nothing there is skipped, every other is
/// flagged.
pub open spec fn flag_trace(ms: Seq<Map<ArtifactKey, Seq<u8>>>, sel: Seq<Seq<char>>, stage: Stage, reason: Seq<char>, timestamp: Seq<char>) -> bool {
    &&& ms.len() == sel.len() + 1
    &&& forall|i: int| 0 <= i < sel.len() ==> if (#[trigger] ms[i]).dom().contains((sel[i], ArtifactLocation::Stage(stage))) {
        flag_effect(ms[i], ms[i + 1], sel[i], stage, reason, timestamp)
    } else {
        ms[i + 1] == ms[i]
    }
}

/// Some promotion outcome takes `m0` to `m1`.
pub open spec fn promoted_step(
    m0: Map<ArtifactKey, Seq<u8>>,
    m1: Map<ArtifactKey, Seq<u8>>,
    id: Seq<char>,
    from: Stage,
    to: Stage,
    pk: Seq<char>,
    timestamp: Seq<char>,
) -> bool {
    exists|o: PromoteOutcome| #[trigger] promote_effect(m0, m1, id, from, to, pk, timestamp, o)
}

/// `ms` is the sequence of states of promoting each case of `sel` in turn:
/// a case with nothing at `from` is skipped, every other is promoted.
pub open spec fn promote_trace(
    ms: Seq<Map<ArtifactKey, Seq<u8>>>,
    sel: Seq<Seq<char>>,
    from: Stage,
    to: Stage,
    pk: Seq<char>,
    timestamp: Seq<char>,
) -> bool {
    &&& ms.len() == sel.len() + 1
    &&& forall|i: int| 0 <= i < sel.len() ==> if (#[trigger] ms[i]).dom().contains((sel[i], ArtifactLocation::Stage(from))) {
        promoted_step(ms[i], ms[i + 1], sel[i], from, to, pk, timestamp)
    } else {
        ms[i + 1] == ms[i]
    }
}

/// The mirror paths of a list of ids.
pub open spec fn mirror_all(ids: Seq<Seq<char>>) -> Seq<Seq<char>> {
    Seq::new(ids.len(), |i: int| mirror_spec(ids[i]))
}

/// The views of a retraction report.
pub open spec fn retract_view(v: Seq<(Stage, String)>) -> Seq<(Stage, Seq<char>)> {
    Seq::new(v.len(), |i: int| (v[i].0, v[i].1@))
}

/// The verified-stage bytes of each id, where present, concatenated.
pub open spec fn verified_corpus(m: Map<ArtifactKey, Seq<u8>>, ids: Seq<Seq<char>>) -> Seq<u8>
    decreases ids.len(),
{
    if ids.len() == 0 {
        Seq::empty()
    } else {
        let k = (ids.last(), ArtifactLocation::Stage(Stage::Verified));
        verified_corpus(m, ids.drop_last()) + if m.dom().contains(k) { m[k] } else { Seq::empty() }
    }
}

impl<S: EinmoStorage> EinmoSuite<S> {
    /// Retract every selected case from `stage`, cascading `checked` to
    /// `verified` (see [`EinmoCase::retract`]).
    ///
    /// # Errors
    /// [`EinmoError::Config`] if `stage` is `output`, checked before
    /// selection, so even an empty selection errors; any storage failure.
    pub fn retract(&mut self, stage: Stage, filter: Option<&str>, ids: Option<&[EinmoId]>) -> (r: Result<RetractReport, EinmoError>)
        requires
            old(self).wf(),
        ensures
            final(self).wf(),
            final(self).ids_spec() == old(self).ids_spec(),
            stage == Stage::Output ==> (r matches Err(e) && e is Config && final(self).artifacts() == old(self).artifacts()),
            r matches Ok(rep) ==> (final(self).artifacts(), retract_view(rep.retracted@))
                == retract_fold(old(self).artifacts(), selected(old(self).ids_spec(), opt_chars(filter), opt_ids(ids)), stage),
            r matches Err(e) ==> e is Io || (e is Config && stage == Stage::Output),
    {
        if let Stage::Output = stage {
            proof {
                reveal_strlit("cannot retract from output/: it is regenerated every run");
            }
            return Err(EinmoError::Config(crate::text::own("cannot retract from output/: it is regenerated every run")));
        }
        let chosen = self.select(filter, ids);
        let ghost sel = selected(self.ids_spec(), opt_chars(filter), opt_ids(ids));
        let ghost m0 = self.artifacts();
        let mut report: Vec<(Stage, String)> = Vec::new();
        let mut i: usize = 0;
        while i < chosen.len()
            invariant
                stage != Stage::Output,
                i <= chosen@.len(),
                chosen@.len() == sel.len(),
                forall|k: int| 0 <= k < chosen@.len() ==> (#[trigger] chosen@[k])@ == sel[k],
                self.ids_spec() == old(self).ids_spec(),
                self.wf(),
                m0 == old(self).artifacts(),
                (self.artifacts(), retract_view(report@)) == retract_fold(m0, sel.take(i as int), stage),
            decreases chosen@.len() - i,
        {
            let case = &chosen[i];
            let ghost before = retract_view(report@);
            let done = match case.retract(&mut self.storage, stage) {
                Err(e) => return Err(e),
                Ok(v) => v,
            };
            let path = case.id().mirror_path();
            let mut j: usize = 0;
            while j < done.len()
                invariant
                    i < sel.len(),
                    j <= done@.len(),
                    retract_view(report@) == before + Seq::new(j as nat, |k: int| (done@[k], mirror_spec(sel[i as int]))),
                    path@ == mirror_spec(sel[i as int]),
                decreases done@.len() - j,
            {
                let ghost prev = report@;
                report.push((done[j], path.clone()));
                proof {
                    assert(retract_view(report@) =~= retract_view(prev).push((done@[j as int], path@)));
                    assert(retract_view(report@) =~= before + Seq::new((j + 1) as nat, |k: int| (done@[k], mirror_spec(sel[i as int]))));
                }
                j = j + 1;
            }
            proof {
                assert(sel.take(i + 1).drop_last() =~= sel.take(i as int));
                assert(sel.take(i + 1).last() == sel[i as int]);
                assert(Seq::new(j as nat, |k: int| (done@[k], mirror_spec(sel[i as int])))
                    =~= Seq::new(done@.len(), |k: int| (done@[k], mirror_spec(sel[i as int]))));
            }
            i = i + 1;
        }
        assert(sel.take(i as int) =~= sel);
        Ok(RetractReport { retracted: report })
    }

    /// Flag every selected case's `stage` artifact (see
    /// [`EinmoCase::flag`]); a case with nothing at `stage` is skipped.
    ///
    /// # Errors
    /// Any storage or verify-on-inspect failure of a case that was present
    /// at `stage`.
    pub fn flag(
        &mut self,
        stage: Stage,
        reason: &str,
        filter: Option<&str>,
        ids: Option<&[EinmoId]>,
        timestamp: &str,
    ) -> (r: Result<FlagReport, EinmoError>)
        requires
            old(self).wf(),
        ensures
            final(self).wf(),
            final(self).ids_spec() == old(self).ids_spec(),
            r matches Ok(rep) ==> exists|ms: Seq<Map<ArtifactKey, Seq<u8>>>|
                #[trigger] flag_trace(ms, selected(old(self).ids_spec(), opt_chars(filter), opt_ids(ids)), stage, reason@, timestamp@)
                && ms[0] == old(self).artifacts() && ms.last() == final(self).artifacts()
                && strings_view(rep.flagged@) == mirror_all(present_in_trace(ms,
                    selected(old(self).ids_spec(), opt_chars(filter), opt_ids(ids)), ArtifactLocation::Stage(stage))),
            r matches Err(e) ==> e is Io || e is Verification || e is Parse,
    {
        let chosen = self.select(filter, ids);
        let ghost sel = selected(self.ids_spec(), opt_chars(filter), opt_ids(ids));
        let ghost mut ms: Seq<Map<ArtifactKey, Seq<u8>>> = seq![self.artifacts()];
        let mut flagged: Vec<String> = Vec::new();
        let mut i: usize = 0;
        while i < chosen.len()
            invariant
                i <= chosen@.len(),
                chosen@.len() == sel.len(),
                forall|k: int| 0 <= k < chosen@.len() ==> (#[trigger] chosen@[k])@ == sel[k],
                self.ids_spec() == old(self).ids_spec(),
                self.wf(),
                ms.len() == i + 1,
                ms[0] == old(self).artifacts(),
                ms.last() == self.artifacts(),
                flag_trace(ms, sel.take(i as int), stage, reason@, timestamp@),
                strings_view(flagged@) == mirror_all(present_in_trace(ms, sel.take(i as int), ArtifactLocation::Stage(stage))),
            decreases chosen@.len() - i,
        {
            let case = &chosen[i];
            let ghost before = self.artifacts();
            let present = match case.read(&self.storage, ArtifactLocation::Stage(stage)) {
                Err(e) => return Err(e),
                Ok(o) => o.is_some(),
            };
            let ghost prev_ms = ms;
            let ghost prev_flagged = strings_view(flagged@);
            if present {
                match case.flag(&mut self.storage, stage, reason, timestamp) {
                    Err(e) => return Err(e),
                    Ok(()) => {},
                }
                flagged.push(case.id().mirror_path());
            }
            proof {
                ms = ms.push(self.artifacts());
                let t = sel.take(i + 1);
                assert(t.drop_last() =~= sel.take(i as int));
                assert(t.last() == sel[i as int]);
                assert(ms[i as int] == before);
                assert forall|k: int| 0 <= k < t.len() implies if (#[trigger] ms[k]).dom().contains((t[k], ArtifactLocation::Stage(stage))) {
                    flag_effect(ms[k], ms[k + 1], t[k], stage, reason@, timestamp@)
                } else {
                    ms[k + 1] == ms[k]
                } by {
                    if k < i {
                        assert(ms[k] == prev_ms[k] && ms[k + 1] == prev_ms[k + 1]);
                        assert(t[k] == sel.take(i as int)[k]);
                    }
                }
                assert(present_in_trace(ms, sel.take(i as int), ArtifactLocation::Stage(stage))
                    == present_in_trace(prev_ms, sel.take(i as int), ArtifactLocation::Stage(stage))) by {
                    lemma_present_in_trace_prefix(prev_ms, ms, sel.take(i as int), ArtifactLocation::Stage(stage));
                }
                if present {
                    assert(strings_view(flagged@) =~= prev_flagged.push(mirror_spec(sel[i as int])));
                }
                assert(strings_view(flagged@) =~= mirror_all(present_in_trace(ms, t, ArtifactLocation::Stage(stage))));
            }
            i = i + 1;
        }
        assert(sel.take(i as int) =~= sel);
        Ok(FlagReport { flagged })
    }
}

/// `present_in_trace` only looks at the states before each turn.
proof fn lemma_present_in_trace_prefix(
    a: Seq<Map<ArtifactKey, Seq<u8>>>,
    b: Seq<Map<ArtifactKey, Seq<u8>>>,
    sel: Seq<Seq<char>>,
    at: ArtifactLocation,
)
    requires
        a.len() >= sel.len(),
        b.len() >= sel.len(),
        forall|k: int| 0 <= k < sel.len() ==> a[k] == b[k],
    ensures
        present_in_trace(a, sel, at) == present_in_trace(b, sel, at),
    decreases sel.len(),
{
    if sel.len() > 0 {
        lemma_present_in_trace_prefix(a, b, sel.drop_last(), at);
        assert(a[sel.len() - 1] == b[sel.len() - 1]);
    }
}

/// What every entry of a promotion report says besides its path.
pub open spec fn promoted_entry_ok(p: Promoted, pk: Seq<char>, to: Stage, score: Option<PassphraseScore>) -> bool {
    &&& p.stamp_pubkey@ == pk
    &&& p.non_human == (to == Stage::Verified && pk == computer_pubkey_hex())
    &&& p.passphrase_score == score
}

/// A passphrase-effectiveness measurement of `passphrase` against some
/// corpus: the corpus compressed alone and followed by the passphrase.
pub open spec fn score_of(sc: PassphraseScore, corpus: Seq<u8>, passphrase: Seq<char>) -> bool {
    &&& zstd_len_spec(corpus, 0) == Some(sc.compressed_without)
    &&& zstd_len_spec(corpus + encode_utf8(passphrase), 0) == Some(sc.compressed_with)
    &&& sc.passphrase_len == encode_utf8(passphrase).len()
}

/// The passphrase measurement `sc` passed the `verified` gate: a human
/// key, and the corpus compressed larger with the passphrase than without.
pub open spec fn gate_passed(sc: PassphraseScore, to: Stage, passphrase: Seq<char>) -> bool {
    &&& to == Stage::Verified
    &&& derived_pubkey_hex(passphrase) != computer_pubkey_hex()
    &&& sc.compressed_with > sc.compressed_without
    &&& exists|c: Seq<u8>| #[trigger] score_of(sc, c, passphrase)
}

/// The passphrase gate refuses a promotion to `to` under `passphrase`,
/// measured against the `verified` corpus `corpus`: the key is a human
/// one, both compressions were measured, and the passphrase did not make
/// the compressed corpus any larger.
pub open spec fn gate_refuses(corpus: Seq<u8>, to: Stage, passphrase: Seq<char>) -> bool {
    &&& to == Stage::Verified
    &&& derived_pubkey_hex(passphrase) != computer_pubkey_hex()
    &&& zstd_len_spec(corpus, 0) is Some
    &&& zstd_len_spec(corpus + encode_utf8(passphrase), 0) is Some
    &&& zstd_len_spec(corpus + encode_utf8(passphrase), 0)->0 <= zstd_len_spec(corpus, 0)->0
}

/// The message the passphrase gate refuses with.
pub open spec fn gate_refusal_message() -> Seq<char> {
    "passphrase effectiveness score is not positive, must be > 0"@
}

/// The message an empty passphrase is refused with for `verified`.
pub open spec fn empty_passphrase_message() -> Seq<char> {
    "empty passphrase is not allowed for verified stage promotion"@
}

/// Every case of `sel` that holds an artifact at `from` holds one that
/// verifies.
pub open spec fn sources_verify(m: Map<ArtifactKey, Seq<u8>>, sel: Seq<Seq<char>>, from: Stage) -> bool {
    forall|k: int| 0 <= k < sel.len() && m.dom().contains((#[trigger] sel[k], ArtifactLocation::Stage(from)))
        ==> verifies(m[(sel[k], ArtifactLocation::Stage(from))])
}

/// `m1` holds at stage `s` exactly what `m0` holds there.
pub open spec fn same_at_stage(m0: Map<ArtifactKey, Seq<u8>>, m1: Map<ArtifactKey, Seq<u8>>, s: Stage) -> bool {
    forall|x: Seq<char>| #![trigger m1.dom().contains((x, ArtifactLocation::Stage(s)))]
        #![trigger m0.dom().contains((x, ArtifactLocation::Stage(s)))]
        (m1.dom().contains((x, ArtifactLocation::Stage(s))) == m0.dom().contains((x, ArtifactLocation::Stage(s))))
        && (m0.dom().contains((x, ArtifactLocation::Stage(s))) ==> m1[(x, ArtifactLocation::Stage(s))]
            == m0[(x, ArtifactLocation::Stage(s))])
}

/// A promotion writes only its destination, so what its source stage
/// holds is left as it was.
proof fn lemma_promote_keeps_source(
    m: Map<ArtifactKey, Seq<u8>>,
    m1: Map<ArtifactKey, Seq<u8>>,
    id: Seq<char>,
    from: Stage,
    to: Stage,
    pk: Seq<char>,
    timestamp: Seq<char>,
    o: PromoteOutcome,
)
    requires
        promote_effect(m, m1, id, from, to, pk, timestamp, o),
    ensures
        same_at_stage(m, m1, from),
{
    let kd = (id, ArtifactLocation::Stage(to));
    if !(o is AlreadySigned) {
        assert(exists|g: EinmoFile| m1 == #[trigger] m.insert(kd, encode_utf8(render(g))));
        let g = choose|g: EinmoFile| m1 == #[trigger] m.insert(kd, encode_utf8(render(g)));
        assert(m1 == m.insert(kd, encode_utf8(render(g))));
    }
}

/// A batch promotion of `sel` under the key `passphrase` derives went
/// through the states `ms` (from `before`), and
/// reported `promoted`: one entry per case present at `from` on its turn,
/// in order.
pub open spec fn batch_promoted(
    ms: Seq<Map<ArtifactKey, Seq<u8>>>,
    promoted: Seq<Promoted>,
    sel: Seq<Seq<char>>,
    from: Stage,
    to: Stage,
    passphrase: Seq<char>,
    timestamp: Seq<char>,
    before: Map<ArtifactKey, Seq<u8>>,
) -> bool {
    let pk = derived_pubkey_hex(passphrase);
    let present = present_in_trace(ms, sel, ArtifactLocation::Stage(from));
    &&& ms.len() > 0
    &&& ms[0] == before
    &&& promote_trace(ms, sel, from, to, pk, timestamp)
    &&& promoted.len() == present.len()
    &&& forall|i: int| 0 <= i < promoted.len() ==> (#[trigger] promoted[i]).rel_path@ == mirror_spec(present[i])
        && promoted_entry_ok(promoted[i], pk, to, promoted[0].passphrase_score)
        && (promoted[i].passphrase_score matches Some(sc) ==> gate_passed(sc, to, passphrase))
}

impl<S: EinmoStorage> EinmoSuite<S> {
    /// The verified-stage bytes of every case, concatenated in id order (a
    /// case whose read fails contributes nothing).
    fn verified_corpus_bytes(&self) -> (r: Vec<u8>)
        ensures
            self.storage.infallible() ==> r@ == verified_corpus(self.artifacts(), self.ids_spec()),
    {
        let ghost m = self.storage.artifacts();
        let ghost ids = id_views(self.ids@);
        let mut corpus: Vec<u8> = Vec::new();
        let mut k: usize = 0;
        while k < self.ids.len()
            invariant
                k <= self.ids@.len(),
                m == self.storage.artifacts(),
                ids == id_views(self.ids@),
                self.storage.infallible() ==> corpus@ == verified_corpus(m, ids.take(k as int)),
            decreases self.ids@.len() - k,
        {
            proof {
                assert(ids.take(k + 1).drop_last() =~= ids.take(k as int));
                assert(ids.take(k + 1).last() == self.ids@[k as int]@);
            }
            match self.storage.read(&self.ids[k], ArtifactLocation::Stage(Stage::Verified)) {
                Ok(Some(b)) => {
                    let mut b = b;
                    corpus.append(&mut b);
                },
                _ => {},
            }
            k = k + 1;
        }
        proof {
            assert(ids.take(k as int) =~= ids);
        }
        corpus
    }

    /// Promote every selected case from `from` to `to` under the key
    /// `key` derives (derived once for the whole batch); a case with
    /// nothing at `from` is skipped.
    ///
    /// Promotion to `verified` under a human key is gated on the
    /// passphrase's effectiveness: the verified corpus compressed with the
    /// passphrase appended must be larger than without it. Under the
    /// computer key the empty passphrase is refused.
    ///
    /// # Errors
    /// [`EinmoError::IllegalTransition`] for a disallowed pair, checked
    /// before selection (so even an empty selection errors);
    /// [`EinmoError::Verification`] for a refused passphrase; any storage
    /// or verify-on-inspect failure of a case present at `from`.
    #[verifier::rlimit(80)]
    pub fn promote(
        &mut self,
        from: Stage,
        to: Stage,
        key: &KeySource,
        filter: Option<&str>,
        ids: Option<&[EinmoId]>,
        timestamp: &str,
    ) -> (r: Result<PromotionReport, EinmoError>)
        requires
            old(self).wf(),
        ensures
            final(self).wf(),
            final(self).ids_spec() == old(self).ids_spec(),
            !legal_transition(from, to) ==> (r matches Err(e) && e is IllegalTransition
                && final(self).artifacts() == old(self).artifacts()),
            legal_transition(from, to) && to == Stage::Verified && key.passphrase_spec().len() == 0
                ==> (r matches Err(e) && e matches EinmoError::Verification(m) && m@ == empty_passphrase_message()
                && final(self).artifacts() == old(self).artifacts()),
            old(self).storage_infallible() && legal_transition(from, to)
                && gate_refuses(verified_corpus(old(self).artifacts(), old(self).ids_spec()), to, key.passphrase_spec())
                ==> (r matches Err(e) && e matches EinmoError::Verification(m) && m@ == gate_refusal_message()
                && final(self).artifacts() == old(self).artifacts()),
            old(self).storage_infallible() && legal_transition(from, to)
                && !(to == Stage::Verified && key.passphrase_spec().len() == 0)
                && !gate_refuses(verified_corpus(old(self).artifacts(), old(self).ids_spec()), to, key.passphrase_spec())
                && sources_verify(old(self).artifacts(), selected(old(self).ids_spec(), opt_chars(filter), opt_ids(ids)), from)
                ==> r is Ok,
            r matches Ok(rep) ==> exists|ms: Seq<Map<ArtifactKey, Seq<u8>>>|
                #[trigger] batch_promoted(ms, rep.promoted@, selected(old(self).ids_spec(), opt_chars(filter), opt_ids(ids)),
                    from, to, key.passphrase_spec(), timestamp@, old(self).artifacts())
                && ms.last() == final(self).artifacts(),
            r matches Err(e) ==> e is Io || e is Verification || e is Parse || (e is IllegalTransition
                && !legal_transition(from, to)),
    {
        if !is_legal_transition(from, to) {
            return Err(EinmoError::IllegalTransition { from: from.to_string(), to: to.to_string() });
        }
        let keypair = StageKeypair::derive(key.passphrase());
        let pubkey = keypair.pubkey_hex();
        let mut score: Option<PassphraseScore> = None;
        if let Stage::Verified = to {
            let human = !is_computer_key(pubkey.as_str());
            if human {
                let corpus = self.verified_corpus_bytes();
                let pass_bytes = slice_to_vec(key.passphrase().as_bytes());
                let mut with = corpus.clone();
                let mut pb = pass_bytes.clone();
                with.append(&mut pb);
                assert(with@ =~= corpus@ + encode_utf8(key.passphrase_spec()));
                match (zstd_compressed_len(corpus.as_slice(), 0), zstd_compressed_len(with.as_slice(), 0)) {
                    (Some(a), Some(b)) => {
                        if b <= a {
                            proof {
                                reveal_strlit("passphrase effectiveness score is not positive, must be > 0");
                            }
                            return Err(EinmoError::Verification(crate::text::own(
                                "passphrase effectiveness score is not positive, must be > 0")));
                        }
                        let sc = PassphraseScore { compressed_without: a, compressed_with: b, passphrase_len: pass_bytes.len() };
                        assert(score_of(sc, corpus@, key.passphrase_spec()));
                        score = Some(sc);
                    },
                    _ => {},
                }
            } else if key.passphrase().is_empty() {
                proof {
                    reveal_strlit("empty passphrase is not allowed for verified stage promotion");
                }
                return Err(EinmoError::Verification(crate::text::own(
                    "empty passphrase is not allowed for verified stage promotion")));
            }
            proof {
                if key.passphrase_spec().len() == 0 {
                    assert(key.passphrase_spec() =~= Seq::<char>::empty());
                }
            }
        }
        let ghost pk = derived_pubkey_hex(key.passphrase_spec());
        assert(score matches Some(sc) ==> gate_passed(sc, to, key.passphrase_spec()));
        let chosen = self.select(filter, ids);
        let ghost sel = selected(self.ids_spec(), opt_chars(filter), opt_ids(ids));
        let ghost mut ms: Seq<Map<ArtifactKey, Seq<u8>>> = seq![self.artifacts()];
        let mut promoted: Vec<Promoted> = Vec::new();
        let mut i: usize = 0;
        while i < chosen.len()
            invariant
                legal_transition(from, to),
                !(to == Stage::Verified && key.passphrase_spec().len() == 0),
                score matches Some(sc) ==> gate_passed(sc, to, key.passphrase_spec()),
                self.storage_infallible() == old(self).storage_infallible(),
                same_at_stage(old(self).artifacts(), self.artifacts(), from),
                sel == selected(old(self).ids_spec(), opt_chars(filter), opt_ids(ids)),
                old(self).storage_infallible() ==> !gate_refuses(verified_corpus(old(self).artifacts(), old(self).ids_spec()),
                    to, key.passphrase_spec()),
                pubkey@ == pk,
                keypair.pubkey_hex_spec() == pk,
                i <= chosen@.len(),
                chosen@.len() == sel.len(),
                forall|k: int| 0 <= k < chosen@.len() ==> (#[trigger] chosen@[k])@ == sel[k],
                self.ids_spec() == old(self).ids_spec(),
                self.wf(),
                ms.len() == i + 1,
                ms[0] == old(self).artifacts(),
                ms.last() == self.artifacts(),
                promote_trace(ms, sel.take(i as int), from, to, pk, timestamp@),
                promoted@.len() == present_in_trace(ms, sel.take(i as int), ArtifactLocation::Stage(from)).len(),
                forall|k: int| 0 <= k < promoted@.len() ==> (#[trigger] promoted@[k]).rel_path@
                    == mirror_spec(present_in_trace(ms, sel.take(i as int), ArtifactLocation::Stage(from))[k])
                    && promoted_entry_ok(promoted@[k], pk, to, score),
            decreases chosen@.len() - i,
        {
            let case = &chosen[i];
            let ghost before = self.artifacts();
            let ghost x = sel[i as int];
            let ghost src_ok = old(self).storage_infallible() && sources_verify(old(self).artifacts(), sel, from);
            proof {
                assert(case@ == x);
                if src_ok && old(self).artifacts().dom().contains((x, ArtifactLocation::Stage(from))) {
                    assert(verifies(old(self).artifacts()[(x, ArtifactLocation::Stage(from))]));
                }
            }
            let present = match case.read(&self.storage, ArtifactLocation::Stage(from)) {
                Err(e) => {
                    proof {
                        assert(!src_ok);
                    }
                    return Err(e);
                },
                Ok(o) => o.is_some(),
            };
            let ghost prev_ms = ms;
            let ghost prev_promoted = promoted@;
            if present {
                let o = match case.promote(&mut self.storage, from, to, &keypair, timestamp) {
                    Err(e) => {
                        proof {
                            assert(!src_ok);
                        }
                        return Err(e);
                    },
                    Ok(o) => o,
                };
                let entry = Promoted {
                    rel_path: case.id().mirror_path(),
                    stamp_pubkey: pubkey.clone(),
                    non_human: o.non_human(),
                    passphrase_score: score,
                };
                promoted.push(entry);
                proof {
                    assert(promote_effect(before, self.artifacts(), sel[i as int], from, to, pk, timestamp@, o));
                    assert(promoted_step(before, self.artifacts(), sel[i as int], from, to, pk, timestamp@));
                    lemma_promote_keeps_source(before, self.artifacts(), sel[i as int], from, to, pk, timestamp@, o);
                }
            }
            proof {
                ms = ms.push(self.artifacts());
                let t = sel.take(i + 1);
                assert(t.drop_last() =~= sel.take(i as int));
                assert(t.last() == sel[i as int]);
                assert(ms[i as int] == before);
                assert forall|k: int| 0 <= k < t.len() implies if (#[trigger] ms[k]).dom().contains((t[k], ArtifactLocation::Stage(from))) {
                    promoted_step(ms[k], ms[k + 1], t[k], from, to, pk, timestamp@)
                } else {
                    ms[k + 1] == ms[k]
                } by {
                    if k < i {
                        assert(ms[k] == prev_ms[k] && ms[k + 1] == prev_ms[k + 1]);
                        assert(t[k] == sel.take(i as int)[k]);
                    }
                }
                lemma_present_in_trace_prefix(prev_ms, ms, sel.take(i as int), ArtifactLocation::Stage(from));
                let pt = present_in_trace(ms, t, ArtifactLocation::Stage(from));
                assert forall|k: int| 0 <= k < promoted@.len() implies (#[trigger] promoted@[k]).rel_path@ == mirror_spec(pt[k])
                    && promoted_entry_ok(promoted@[k], pk, to, score) by {
                    if k < prev_promoted.len() {
                        assert(promoted@[k] == prev_promoted[k]);
                    }
                }
            }
            i = i + 1;
        }
        assert(sel.take(i as int) =~= sel);
        let rep = PromotionReport { promoted };
        assert(batch_promoted(ms, rep.promoted@, selected(old(self).ids_spec(), opt_chars(filter), opt_ids(ids)),
            from, to, key.passphrase_spec(), timestamp@, old(self).artifacts()));
        let res: Result<PromotionReport, EinmoError> = Ok(rep);
        assert(res matches Ok(x) && batch_promoted(ms, x.promoted@, selected(old(self).ids_spec(), opt_chars(filter), opt_ids(ids)),
                from, to, key.passphrase_spec(), timestamp@, old(self).artifacts()));
        res
    }
}

/// What an update of `stage`'s section signature reported: left alone
/// only when a record existed and verifies; otherwise a new signature, made
/// over the section under `c` with the key of `passphrase`, which verifies,
/// reported as `Updated` exactly when a record existed, with the
/// manifest's length.
pub open spec fn update_done(
    u: CorpusSignatureUpdate,
    o: Option<SectionSig>,
    existed: bool,
    existing: Option<&SectionSig>,
    m: Map<ArtifactKey, Seq<u8>>,
    stage: Stage,
    c: Collation,
    passphrase: Seq<char>,
) -> bool {
    match u {
        CorpusSignatureUpdate::AlreadyCurrent => {
            &&& o is None
            &&& existed
            &&& existing is Some
            &&& verify_ok_spec(*existing->0, m, stage)
        },
        CorpusSignatureUpdate::Created { manifest_len } => {
            &&& !existed
            &&& manifest_len == manifest_spec(m, stage).len()
            &&& o is Some
            &&& signed_spec(o->0, m, stage, c, passphrase)
            &&& verify_ok_spec(o->0, m, stage)
        },
        CorpusSignatureUpdate::Updated { manifest_len } => {
            &&& existed
            &&& manifest_len == manifest_spec(m, stage).len()
            &&& o is Some
            &&& signed_spec(o->0, m, stage, c, passphrase)
            &&& verify_ok_spec(o->0, m, stage)
        },
    }
}

impl<S: EinmoStorage> EinmoSuite<S> {
    /// Bring `stage`'s section signature up to date. `existed` says whether
    /// a signature record exists for the stage, and `existing` holds it
    /// where it could be read. A record that exists and still verifies is
    /// left alone; otherwise the section is signed anew over this suite's
    /// storage, and the new signature is returned for the caller to record.
    ///
    /// # Errors
    /// Whatever listing or reading the storage reports, or
    /// [`EinmoError::CorpusSignature`] if signing fails.
    pub fn update_corpus_signature(
        &self,
        signer: &CorpusSigner,
        stage: Stage,
        key: &KeySource,
        existed: bool,
        existing: Option<&SectionSig>,
    ) -> (r: Result<(CorpusSignatureUpdate, Option<SectionSig>), EinmoError>)
        ensures
            r matches Ok((u, o)) ==> update_done(
                u,
                o,
                existed,
                existing,
                self.artifacts(),
                stage,
                signer.collation_spec(),
                key.passphrase_spec(),
            ),
            r matches Err(e) ==> e is Io || e is InvalidId || e is CorpusSignature,
            self.storage_infallible() ==> r is Ok,
            self.storage_infallible() && existed && existing is Some
                && verify_ok_spec(*existing->0, self.artifacts(), stage) ==> r == Ok::<(CorpusSignatureUpdate, Option<SectionSig>), EinmoError>((CorpusSignatureUpdate::AlreadyCurrent, None)),
    {
        if existed {
            if let Some(sig) = existing {
                if signer.verify(&self.storage, stage, sig).is_ok() {
                    return Ok((CorpusSignatureUpdate::AlreadyCurrent, None));
                }
            }
        }
        let ids = match self.storage.list_ids(ArtifactLocation::Stage(stage)) {
            Ok(ids) => ids,
            Err(e) => {
                return Err(e);
            },
        };
        let manifest_len = ids.len();
        match signer.sign_ids(&self.storage, stage, key, ids) {
            Ok(sig) => {
                let u = if existed {
                    CorpusSignatureUpdate::Updated { manifest_len }
                } else {
                    CorpusSignatureUpdate::Created { manifest_len }
                };
                Ok((u, Some(sig)))
            },
            Err(e) => Err(e),
        }
    }
}

impl<S: EinmoStorage> EinmoSuite<S> {
    /// The suite's cases grouped by their ids' path components:
    /// `foop/23/sub_feature/test1` nests under `foop`, then `foop/23`, then
    /// `foop/23/sub_feature`. A case with no directory component sits at
    /// the root; no node but the root is ever empty.
    pub fn directory_tree(&self) -> (r: DirectoryNode)
        requires
            self.wf(),
        ensures
            tree_ok(r, Seq::empty(), self.ids_spec()),
    {
        let ghost all = self.ids_spec();
        let mut bound: usize = 0;
        let mut items: Vec<EinmoId> = Vec::new();
        let mut i: usize = 0;
        while i < self.ids.len()
            invariant
                all == id_views(self.ids@),
                i <= self.ids@.len(),
                id_views(items@) == all.take(i as int),
                components_at_most(all.take(i as int), bound as nat),
            decreases self.ids@.len() - i,
        {
            let parts = split_components(self.ids[i].chars().as_slice());
            if parts.len() > bound {
                bound = parts.len();
            }
            let ghost before = id_views(items@);
            let d = self.ids[i].duplicate();
            items.push(d);
            proof {
                assert(all[i as int] == self.ids@[i as int]@);
                assert(id_views(items@) =~= before.push(all[i as int]));
                assert(all.take(i + 1) =~= all.take(i as int).push(all[i as int]));
                assert(id_views(items@) =~= all.take(i + 1));
                let t1 = all.take(i + 1);
                let t0 = all.take(i as int);
                assert forall|x: Seq<char>| #[trigger] t1.contains(x) implies split_slash(x).len() <= bound by {
                    let k = choose|k: int| 0 <= k < t1.len() && t1[k] == x;
                    if k < i {
                        assert(t0[k] == x);
                        assert(t0.contains(x));
                    } else {
                        assert(x == self.ids@[i as int]@);
                    }
                }
            }
            i = i + 1;
        }
        proof {
            assert(all.take(self.ids@.len() as int) =~= all);
            assert forall|x: Seq<char>| #[trigger] id_views(items@).contains(x) <==> (all.contains(x) && below(x, Seq::empty())) by {
                assert(dir_parts(x).subrange(0, 0) =~= Seq::<Seq<char>>::empty());
            }
        }
        build_node(Vec::new(), 0, bound, items, Ghost(Seq::empty()), Ghost(all))
    }
}

/// Case `x` has an input and a flagged artifact at `stage` in `m` and,
/// where a filter is given, its id's UTF-8 bytes match it as a glob.
pub open spec fn note_candidate(x: Seq<char>, m: Map<ArtifactKey, Seq<u8>>, stage: Stage, filter: Option<Seq<u8>>) -> bool {
    &&& m.dom().contains((x, ArtifactLocation::Input))
    &&& m.dom().contains((x, ArtifactLocation::Flagged(stage)))
    &&& (filter matches Some(f) ==> glob_spec(encode_utf8(x), f))
}

/// The candidates among `ids` for notes, in order.
pub open spec fn note_candidates(
    ids: Seq<Seq<char>>,
    m: Map<ArtifactKey, Seq<u8>>,
    stage: Stage,
    filter: Option<Seq<u8>>,
) -> Seq<Seq<char>>
    decreases ids.len(),
{
    if ids.len() == 0 {
        Seq::empty()
    } else {
        let rest = note_candidates(ids.drop_last(), m, stage, filter);
        if note_candidate(ids.last(), m, stage, filter) {
            rest.push(ids.last())
        } else {
            rest
        }
    }
}

/// A filter's UTF-8 bytes.
pub open spec fn opt_bytes(filter: Option<&str>) -> Option<Seq<u8>> {
    match filter {
        Some(f) => Some(f.spec_bytes()),
        None => None,
    }
}

/// `n` is the note of case `x`'s flagged artifact at `stage` in `m`,
/// stamped under the configured public key `configured` and the note
/// signer's public key `signer` (hex), its header naming the suite, the
/// producer, the producer's uncommitted-changes digest and the generation
/// time.
pub open spec fn note_with(
    n: EinmoFile,
    m: Map<ArtifactKey, Seq<u8>>,
    stage: Stage,
    x: Seq<char>,
    configured: Seq<char>,
    signer: Seq<char>,
    header: (Seq<char>, Seq<char>, Seq<char>, Seq<char>),
) -> bool {
    &&& n.metadata.test@ == mirror_spec(x)
    &&& n.metadata.suite@ == header.0
    &&& n.metadata.producer@ == header.1
    &&& n.metadata.producer_diff@ == header.2
    &&& n.metadata.generated@ == header.3
    &&& file_chain_valid(n)
    &&& n.advisory is None
    &&& n.sections@.len() == 1
    &&& n.sections@[0].name@ == "NOTE"@
    &&& strings_view(n.metadata.sections@) == seq!["NOTE"@, "STAMPS"@]
    &&& n.metadata.status == crate::format::Status::Normal
    &&& n.stamps.entries@.len() == 3
    &&& n.stamps.entries@[1].pubkey_hex@ == configured
    &&& n.stamps.entries@[2].key@ == "stage:notes"@
    &&& n.stamps.entries@[2].pubkey_hex@ == signer
    &&& exists|f: EinmoFile|
        #[trigger] encode_utf8(render(f)) == m[(x, ArtifactLocation::Flagged(stage))] && file_chain_valid(f)
            && f.advisory is Some && n.sections@[0].body@ == f.advisory->0@
}

/// As `note_with`, the keys derived from the configured passphrase and
/// the note signer's passphrase.
pub open spec fn note_of(
    n: EinmoFile,
    m: Map<ArtifactKey, Seq<u8>>,
    stage: Stage,
    x: Seq<char>,
    configured: Seq<char>,
    signer: Seq<char>,
    header: (Seq<char>, Seq<char>, Seq<char>, Seq<char>),
) -> bool {
    note_with(n, m, stage, x, derived_pubkey_hex(configured), derived_pubkey_hex(signer), header)
}

/// The cases notes are made for, in order: those `files` names when a
/// list is given, else those `note_candidates` selects.
pub open spec fn note_order(
    files: Option<Seq<Seq<char>>>,
    ids: Seq<Seq<char>>,
    m: Map<ArtifactKey, Seq<u8>>,
    stage: Stage,
    filter: Option<Seq<u8>>,
) -> Seq<Seq<char>> {
    match files {
        Some(f) => named_flags(f, m, stage),
        None => note_candidates(ids, m, stage, filter),
    }
}

/// Case `x`'s flagged artifact at `stage`, if any, can become a note: it
/// verifies and carries an advisory.
pub open spec fn notable(m: Map<ArtifactKey, Seq<u8>>, stage: Stage, x: Seq<char>) -> bool {
    m.dom().contains((x, ArtifactLocation::Flagged(stage))) ==> verifies(m[(x, ArtifactLocation::Flagged(stage))])
        && file_of(m[(x, ArtifactLocation::Flagged(stage))]).advisory is Some
}

/// Every case a note would be made for (the named flags, or the suite's
/// note candidates) can become one.
pub open spec fn notes_ok(
    files: Option<Seq<Seq<char>>>,
    ids: Seq<Seq<char>>,
    m: Map<ArtifactKey, Seq<u8>>,
    stage: Stage,
    filter: Option<Seq<u8>>,
) -> bool {
    &&& files matches Some(f) ==> all_notable(named_flags(f, m, stage), m, stage)
    &&& files is None ==> forall|i: int| 0 <= i < ids.len() && note_candidate(#[trigger] ids[i], m, stage, filter)
        ==> notable(m, stage, ids[i])
}

/// Every case of `xs` can become a note.
pub open spec fn all_notable(xs: Seq<Seq<char>>, m: Map<ArtifactKey, Seq<u8>>, stage: Stage) -> bool {
    forall|i: int| 0 <= i < xs.len() ==> notable(m, stage, #[trigger] xs[i])
}

/// A file list's views.
pub open spec fn opt_strings(files: Option<&[String]>) -> Option<Seq<Seq<char>>> {
    match files {
        Some(f) => Some(strings_view(f@)),
        None => None,
    }
}

/// Whether `id` is among `v`.
fn contains_id(v: &Vec<EinmoId>, id: &EinmoId) -> (r: bool)
    ensures
        r == id_views(v@).contains(id@),
{
    let mut i: usize = 0;
    while i < v.len()
        invariant
            i <= v@.len(),
            forall|j: int| 0 <= j < i ==> id_views(v@)[j] != id@,
        decreases v@.len() - i,
    {
        if v[i].same(id) {
            proof {
                assert(id_views(v@)[i as int] == id@);
            }
            return true;
        }
        i = i + 1;
    }
    false
}

/// Some file of `files` names case `x`: its normalized path is `x`'s
/// mirror path.
pub open spec fn names_case(files: Seq<Seq<char>>, x: Seq<char>) -> bool {
    exists|k: int| 0 <= k < files.len() && normalized_spec(#[trigger] files[k]) == mirror_spec(x)
}

/// `s` lists, once each and in collation order, the valid ids some file of
/// `files` names that have a flagged artifact at `stage` in `m`.
pub open spec fn lists_named_flags(s: Seq<Seq<char>>, files: Seq<Seq<char>>, m: Map<ArtifactKey, Seq<u8>>, stage: Stage) -> bool {
    &&& path_strictly_sorted(s)
    &&& forall|x: Seq<char>| #[trigger] s.contains(x) <==> (valid_id(x) && names_case(files, x)
        && m.dom().contains((x, ArtifactLocation::Flagged(stage))))
}

/// The cases a list of files names for notes, in collation order.
pub open spec fn named_flags(files: Seq<Seq<char>>, m: Map<ArtifactKey, Seq<u8>>, stage: Stage) -> Seq<Seq<char>> {
    choose|s: Seq<Seq<char>>| lists_named_flags(s, files, m, stage)
}

impl<S: EinmoStorage> EinmoSuite<S> {
    /// The note of case `id`'s flagged artifact at `stage`, if it has one.
    fn note_flagged(
        &self,
        id: &EinmoId,
        stage: Stage,
        configured: &StageKeypair,
        signer: &StageKeypair,
        suite: &str,
        producer: &str,
        producer_diff: &str,
        generated: &str,
    ) -> (r: Result<Option<(String, EinmoFile)>, EinmoError>)
        ensures
            r matches Ok(None) ==> !self.artifacts().dom().contains((id@, ArtifactLocation::Flagged(stage))),
            r matches Ok(Some((rel, n))) ==> self.artifacts().dom().contains((id@, ArtifactLocation::Flagged(stage)))
                && rel@ == mirror_spec(id@) && note_with(
                n,
                self.artifacts(),
                stage,
                id@,
                configured.pubkey_hex_spec(),
                signer.pubkey_hex_spec(),
                (suite@, producer@, producer_diff@, generated@),
            ),
            r matches Err(e) ==> e is Io || e is Parse || e is Verification || e is Config,
            self.storage_infallible() && notable(self.artifacts(), stage, id@) ==> r is Ok,
    {
        let case = EinmoCase::new(id.duplicate());
        match case.read(&self.storage, ArtifactLocation::Flagged(stage)) {
            Err(e) => Err(e),
            Ok(None) => Ok(None),
            Ok(Some(flagged)) => {
                proof {
                    let kf = (id@, ArtifactLocation::Flagged(stage));
                    lemma_file_of(self.artifacts()[kf], flagged);
                    if file_of(self.artifacts()[kf]).advisory is Some {
                        assert(crate::format::advisory_list(flagged.advisory).len() > 0);
                    }
                }
                let rel = id.mirror_path();
                match note_for(&flagged, rel.as_str(), suite, producer, producer_diff, generated, configured, signer) {
                    Err(e) => Err(e),
                    Ok(n) => Ok(Some((rel, n))),
                }
            },
        }
    }

    /// The note of one case, if it is a candidate.
    fn note_one(
        &self,
        id: &EinmoId,
        stage: Stage,
        configured: &StageKeypair,
        signer: &StageKeypair,
        suite: &str,
        producer: &str,
        producer_diff: &str,
        generated: &str,
        filter: Option<&str>,
    ) -> (r: Result<Option<(String, EinmoFile)>, EinmoError>)
        ensures
            r matches Ok(None) ==> !note_candidate(id@, self.artifacts(), stage, opt_bytes(filter)),
            r matches Ok(Some((rel, n))) ==> note_candidate(id@, self.artifacts(), stage, opt_bytes(filter))
                && rel@ == mirror_spec(id@) && note_with(
                n,
                self.artifacts(),
                stage,
                id@,
                configured.pubkey_hex_spec(),
                signer.pubkey_hex_spec(),
                (suite@, producer@, producer_diff@, generated@),
            ),
            r matches Err(e) ==> e is Io || e is Parse || e is Verification || e is Config,
            self.storage_infallible() && (note_candidate(id@, self.artifacts(), stage, opt_bytes(filter))
                ==> notable(self.artifacts(), stage, id@)) ==> r is Ok,
    {
        let has_input = match self.storage.read(id, ArtifactLocation::Input) {
            Ok(o) => o.is_some(),
            Err(e) => {
                return Err(e);
            },
        };
        let matches_filter = match filter {
            Some(f) => glob_match(id.as_str(), f),
            None => true,
        };
        if !(has_input && matches_filter) {
            return Ok(None);
        }
        self.note_flagged(id, stage, configured, signer, suite, producer, producer_diff, generated)
    }

    /// The notes of the cases `ids`, all flagged at `stage`, in order.
    fn notes_of_ids(
        &self,
        ids: &Vec<EinmoId>,
        stage: Stage,
        configured: &StageKeypair,
        signer: &StageKeypair,
        suite: &str,
        producer: &str,
        producer_diff: &str,
        generated: &str,
    ) -> (r: Result<(Vec<String>, Vec<EinmoFile>), EinmoError>)
        requires
            forall|k: int| 0 <= k < ids@.len() ==> self.artifacts().dom().contains(((#[trigger] ids@[k])@, ArtifactLocation::Flagged(stage))),
        ensures
            r matches Ok((noted, notes)) ==> strings_view(noted@) == mirror_all(id_views(ids@)) && notes@.len() == noted@.len()
                && forall|k: int| 0 <= k < notes@.len() ==> note_with(
                #[trigger] notes@[k],
                self.artifacts(),
                stage,
                id_views(ids@)[k],
                configured.pubkey_hex_spec(),
                signer.pubkey_hex_spec(),
                (suite@, producer@, producer_diff@, generated@),
            ),
            r matches Err(e) ==> e is Io || e is Parse || e is Verification || e is Config,
            self.storage_infallible() && (forall|k: int| 0 <= k < ids@.len() ==> notable(self.artifacts(), stage, (#[trigger] ids@[k])@))
                ==> r is Ok,
    {
        let ghost iv = id_views(ids@);
        let mut noted: Vec<String> = Vec::new();
        let mut notes: Vec<EinmoFile> = Vec::new();
        let mut i: usize = 0;
        proof {
            assert(strings_view(noted@) =~= mirror_all(iv.take(0)));
        }
        while i < ids.len()
            invariant
                iv == id_views(ids@),
                i <= ids@.len(),
                forall|k: int| 0 <= k < ids@.len() ==> self.artifacts().dom().contains(((#[trigger] ids@[k])@, ArtifactLocation::Flagged(stage))),
                strings_view(noted@) == mirror_all(iv.take(i as int)),
                notes@.len() == i,
                noted@.len() == i,
                forall|k: int| 0 <= k < i ==> note_with(
                    #[trigger] notes@[k],
                    self.artifacts(),
                    stage,
                    iv[k],
                    configured.pubkey_hex_spec(),
                    signer.pubkey_hex_spec(),
                    (suite@, producer@, producer_diff@, generated@),
                ),
            decreases ids@.len() - i,
        {
            proof {
                assert(iv[i as int] == ids@[i as int]@);
            }
            match self.note_flagged(&ids[i], stage, configured, signer, suite, producer, producer_diff, generated) {
                Err(e) => {
                    return Err(e);
                },
                Ok(None) => {
                    proof {
                        assert(self.artifacts().dom().contains((ids@[i as int]@, ArtifactLocation::Flagged(stage))));
                        assert(false);
                    }
                    return Err(EinmoError::Config(own("a named flag disappeared")));
                },
                Ok(Some((rel, n))) => {
                    let ghost nn = noted@;
                    let ghost nb = notes@;
                    let ghost rv = rel@;
                    noted.push(rel);
                    notes.push(n);
                    proof {
                        assert(strings_view(noted@) =~= strings_view(nn).push(rv));
                        assert(iv.take(i + 1) =~= iv.take(i as int).push(iv[i as int]));
                        assert(mirror_all(iv.take(i + 1)) =~= mirror_all(iv.take(i as int)).push(mirror_spec(iv[i as int])));
                        assert forall|k: int| 0 <= k < i + 1 implies note_with(
                            #[trigger] notes@[k],
                            self.artifacts(),
                            stage,
                            iv[k],
                            configured.pubkey_hex_spec(),
                            signer.pubkey_hex_spec(),
                            (suite@, producer@, producer_diff@, generated@),
                        ) by {
                            if k < i {
                                assert(notes@[k] == nb[k]);
                            }
                        }
                    }
                },
            }
            i = i + 1;
        }
        proof {
            assert(iv.take(ids@.len() as int) =~= iv);
        }
        Ok((noted, notes))
    }

    /// The cases `files` names that have a flagged artifact at `stage`,
    /// each once, in collation order.
    fn named_flag_ids(&self, stage: Stage, files: &[String]) -> (r: Result<Vec<EinmoId>, EinmoError>)
        ensures
            r matches Ok(v) ==> id_views(v@) == named_flags(strings_view(files@), self.artifacts(), stage)
                && lists_named_flags(id_views(v@), strings_view(files@), self.artifacts(), stage),
            r matches Err(e) ==> e is Io,
            self.storage_infallible() ==> r is Ok,
    {
        let ghost fv = strings_view(files@);
        let ghost m = self.artifacts();
        let mut found: Vec<EinmoId> = Vec::new();
        let mut k: usize = 0;
        while k < files.len()
            invariant
                fv == strings_view(files@),
                m == self.artifacts(),
                k <= files@.len(),
                id_views(found@).no_duplicates(),
                forall|x: Seq<char>| #[trigger] id_views(found@).contains(x) <==> (valid_id(x) && names_case(fv.take(k as int), x)
                    && m.dom().contains((x, ArtifactLocation::Flagged(stage)))),
            decreases files@.len() - k,
        {
            let rel = normalize_file_path(files[k].as_str());
            let ghost t0 = fv.take(k as int);
            let ghost t1 = fv.take(k + 1);
            proof {
                assert(fv[k as int] == files@[k as int]@);
                assert(t1 =~= t0.push(fv[k as int]));
                assert forall|x: Seq<char>| names_case(t1, x) <==> (names_case(t0, x) || normalized_spec(fv[k as int]) == mirror_spec(x)) by {
                    if names_case(t1, x) {
                        let j = choose|j: int| 0 <= j < t1.len() && normalized_spec(#[trigger] t1[j]) == mirror_spec(x);
                        if j < k {
                            assert(t0[j] == t1[j]);
                        }
                    }
                    if names_case(t0, x) {
                        let j = choose|j: int| 0 <= j < t0.len() && normalized_spec(#[trigger] t0[j]) == mirror_spec(x);
                        assert(t1[j] == t0[j]);
                    }
                    if normalized_spec(fv[k as int]) == mirror_spec(x) {
                        assert(t1[k as int] == fv[k as int]);
                    }
                }
            }
            let r = chars_of(rel.as_str());
            let n = r.len();
            let ghost prev = id_views(found@);
            let ghost fk = fv[k as int];
            let is_mirror = n >= 6 && r[n - 6] == '.' && r[n - 5] == 'e' && r[n - 4] == 'i' && r[n - 3] == 'n'
                && r[n - 2] == 'm' && r[n - 1] == 'o';
            if is_mirror {
                let stem = string_of_range(r.as_slice(), 0, n - 6);
                proof {
                    assert(rel@ =~= stem@ + seq!['.', 'e', 'i', 'n', 'm', 'o']);
                    assert(mirror_spec(stem@) == normalized_spec(fk));
                    assert forall|x: Seq<char>| normalized_spec(fk) == mirror_spec(x) implies x == stem@ by {
                        assert(x =~= mirror_spec(x).subrange(0, x.len() as int));
                        assert(stem@ =~= rel@.subrange(0, n - 6));
                    }
                }
                match EinmoId::try_from(stem.as_str()) {
                    Ok(id) => {
                        let known = contains_id(&found, &id);
                        if !known {
                            match self.storage.read(&id, ArtifactLocation::Flagged(stage)) {
                                Ok(Some(_)) => {
                                    found.push(id);
                                    proof {
                                        let after = id_views(found@);
                                        assert(after =~= prev.push(stem@));
                                        assert forall|x: Seq<char>| #[trigger] after.contains(x) <==> prev.contains(x) || x == stem@ by {
                                            if after.contains(x) && x != stem@ {
                                                let i = choose|i: int| 0 <= i < after.len() && after[i] == x;
                                                assert(prev[i] == x);
                                            }
                                            if prev.contains(x) {
                                                let i = choose|i: int| 0 <= i < prev.len() && prev[i] == x;
                                                assert(after[i] == x);
                                            }
                                            assert(after[after.len() - 1] == stem@);
                                        }
                                        assert(after.no_duplicates()) by {
                                            assert forall|i: int, j: int| 0 <= i < j < after.len() implies after[i] != after[j] by {
                                                if j == after.len() - 1 {
                                                    assert(prev.contains(after[i]));
                                                }
                                            }
                                        }
                                    }
                                },
                                Ok(None) => {},
                                Err(e) => {
                                    return Err(e);
                                },
                            }
                        }
                    },
                    Err(_) => {},
                }
            } else {
                proof {
                    assert forall|x: Seq<char>| normalized_spec(fk) != mirror_spec(x) by {
                        if normalized_spec(fk) == mirror_spec(x) {
                            let ms = mirror_spec(x);
                            assert(ms.len() >= 6);
                            assert(ms[ms.len() - 6] == '.' && ms[ms.len() - 5] == 'e' && ms[ms.len() - 4] == 'i');
                            assert(ms[ms.len() - 3] == 'n' && ms[ms.len() - 2] == 'm' && ms[ms.len() - 1] == 'o');
                        }
                    }
                }
            }
            proof {
                assert forall|x: Seq<char>| #[trigger] id_views(found@).contains(x) <==> (valid_id(x) && names_case(t1, x)
                    && m.dom().contains((x, ArtifactLocation::Flagged(stage)))) by {
                    assert(names_case(t1, x) <==> (names_case(t0, x) || normalized_spec(fk) == mirror_spec(x)));
                    assert(prev.contains(x) <==> (valid_id(x) && names_case(t0, x)
                        && m.dom().contains((x, ArtifactLocation::Flagged(stage)))));
                }
            }
            k = k + 1;
        }
        proof {
            assert(fv.take(files@.len() as int) =~= fv);
        }
        let ghost before = id_views(found@);
        match Collation::PathBytes.sort(&mut found) {
            Ok(()) => {
                proof {
                    let after = id_views(found@);
                    before.to_multiset_ensures();
                    after.to_multiset_ensures();
                    assert forall|x: Seq<char>| after.contains(x) <==> before.contains(x) by {
                        assert(after.contains(x) <==> after.to_multiset().count(x) > 0);
                        assert(before.contains(x) <==> before.to_multiset().count(x) > 0);
                    }
                    assert(lists_named_flags(after, fv, m, stage));
                    let c = named_flags(fv, m, stage);
                    lemma_manifest_order_is_unique(c, after);
                }
                Ok(found)
            },
            Err(_) => {
                proof {
                    assert(false);
                }
                Ok(found)
            },
        }
    }

    /// Promote the flagged content of `stage`'s sink into notes. Without
    /// a file list: for each case with an input, a flagged artifact at
    /// `stage` and, where a filter is given, an id matching it as a glob.
    /// With one (the filter then ignored): for each case a listed file
    /// names, by its mirror path, that has a flagged artifact at `stage`, in
    /// collation order. Each note is signed by `key`, its body the flag's
    /// concatenated advisory. The flagged artifacts stay where they are;
    /// the notes are returned for the caller to store.
    ///
    /// # Errors
    /// Whatever reading reports, a flagged artifact failing
    /// verify-on-inspect ([`EinmoError::Parse`],
    /// [`EinmoError::Verification`]), or [`EinmoError::Config`] for one that
    /// carries no advisory.
    pub fn promote_flag_to_note(
        &self,
        stage: Stage,
        key: &KeySource,
        configured_passphrase: &str,
        suite: &str,
        producer: &str,
        producer_diff: &str,
        generated: &str,
        filter: Option<&str>,
        files: Option<&[String]>,
    ) -> (r: Result<(NoteReport, Vec<EinmoFile>), EinmoError>)
        requires
            encode_utf8(configured_passphrase@).len() <= 0xFFFF_FFFF,
        ensures
            r matches Ok((rep, notes)) ==> strings_view(rep.noted@) == mirror_all(
                note_order(opt_strings(files), self.ids_spec(), self.artifacts(), stage, opt_bytes(filter)),
            ) && notes@.len() == rep.noted@.len() && forall|k: int|
                0 <= k < notes@.len() ==> note_of(
                    #[trigger] notes@[k],
                    self.artifacts(),
                    stage,
                    note_order(opt_strings(files), self.ids_spec(), self.artifacts(), stage, opt_bytes(filter))[k],
                    configured_passphrase@,
                    key.passphrase_spec(),
                    (suite@, producer@, producer_diff@, generated@),
                ),
            r matches Err(e) ==> e is Io || e is Parse || e is Verification || e is Config,
            self.storage_infallible() && notes_ok(opt_strings(files), self.ids_spec(), self.artifacts(), stage, opt_bytes(filter))
                ==> r is Ok,
    {
        let configured = StageKeypair::derive(configured_passphrase);
        let signer = StageKeypair::derive(key.passphrase());
        if let Some(fs) = files {
            let ids = match self.named_flag_ids(stage, fs) {
                Ok(ids) => ids,
                Err(e) => {
                    return Err(e);
                },
            };
            proof {
                assert forall|k: int| 0 <= k < ids@.len() implies self.artifacts().dom().contains(
                    ((#[trigger] ids@[k])@, ArtifactLocation::Flagged(stage)),
                ) by {
                    assert(id_views(ids@)[k] == ids@[k]@);
                    assert(id_views(ids@).contains(ids@[k]@));
                }
            }
            proof {
                assert(opt_strings(files) == Some(strings_view(fs@)));
                if self.storage_infallible() && notes_ok(opt_strings(files), self.ids_spec(), self.artifacts(), stage, opt_bytes(filter)) {
                    assert forall|k: int| 0 <= k < ids@.len() implies notable(self.artifacts(), stage, (#[trigger] ids@[k])@) by {
                        assert(id_views(ids@)[k] == ids@[k]@);
                        assert(id_views(ids@).contains(ids@[k]@));
                        let nf = named_flags(strings_view(fs@), self.artifacts(), stage);
                        assert(nf == id_views(ids@));
                        assert(nf[k] == ids@[k]@);
                        assert(all_notable(nf, self.artifacts(), stage));
                        assert(notable(self.artifacts(), stage, nf[k]));
                    }
                }
            }
            return match self.notes_of_ids(&ids, stage, &configured, &signer, suite, producer, producer_diff, generated) {
                Ok((noted, notes)) => Ok((NoteReport { noted }, notes)),
                Err(e) => Err(e),
            };
        }
        let ghost all = self.ids_spec();
        let ghost m = self.artifacts();
        let ghost fb = opt_bytes(filter);
        let mut noted: Vec<String> = Vec::new();
        let mut notes: Vec<EinmoFile> = Vec::new();
        let mut i: usize = 0;
        proof {
            assert(all.take(0) =~= Seq::<Seq<char>>::empty());
            assert(strings_view(noted@) =~= mirror_all(Seq::<Seq<char>>::empty()));
        }
        while i < self.ids.len()
            invariant
                all == id_views(self.ids@),
                m == self.artifacts(),
                fb == opt_bytes(filter),
                files is None,
                configured.pubkey_hex_spec() == derived_pubkey_hex(configured_passphrase@),
                signer.pubkey_hex_spec() == derived_pubkey_hex(key.passphrase_spec()),
                i <= self.ids@.len(),
                strings_view(noted@) == mirror_all(note_candidates(all.take(i as int), m, stage, fb)),
                notes@.len() == noted@.len(),
                forall|k: int|
                    0 <= k < notes@.len() ==> note_of(
                        #[trigger] notes@[k],
                        m,
                        stage,
                        note_candidates(all.take(i as int), m, stage, fb)[k],
                        configured_passphrase@,
                        key.passphrase_spec(),
                        (suite@, producer@, producer_diff@, generated@),
                    ),
            decreases self.ids@.len() - i,
        {
            let ghost x = all[i as int];
            let ghost before = note_candidates(all.take(i as int), m, stage, fb);
            proof {
                assert(self.ids@[i as int]@ == x);
                assert(all.take(i + 1).drop_last() =~= all.take(i as int));
                assert(all.take(i + 1).last() == x);
            }
            proof {
                assert(all[i as int] == x);
            }
            match self.note_one(&self.ids[i], stage, &configured, &signer, suite, producer, producer_diff, generated, filter) {
                Err(e) => {
                    return Err(e);
                },
                Ok(None) => {},
                Ok(Some((rel, n))) => {
                    let ghost nn = noted@;
                    let ghost nb = notes@;
                    let ghost rv = rel@;
                    proof {
                        assert(note_of(n, m, stage, x, configured_passphrase@, key.passphrase_spec(), (suite@, producer@, producer_diff@, generated@)));
                    }
                    noted.push(rel);
                    notes.push(n);
                    proof {
                        let after = before.push(x);
                        assert(strings_view(noted@) =~= strings_view(nn).push(rv));
                        assert(mirror_all(after) =~= mirror_all(before).push(mirror_spec(x)));
                        assert forall|k: int| 0 <= k < notes@.len() implies note_of(
                            #[trigger] notes@[k],
                            m,
                            stage,
                            after[k],
                            configured_passphrase@,
                            key.passphrase_spec(),
                            (suite@, producer@, producer_diff@, generated@),
                        ) by {
                            if k < nb.len() {
                                assert(notes@[k] == nb[k]);
                                assert(after[k] == before[k]);
                            }
                        }
                    }
                },
            }
            i = i + 1;
        }
        proof {
            assert(all.take(self.ids@.len() as int) =~= all);
        }
        Ok((NoteReport { noted }, notes))
    }
}


/// How one case stands between two stages in a comparison.
#[derive(Debug, Clone, Copy, PartialEq, Eq, Structural)]
pub enum Comparison {
    /// Both present; every required section identical.
    Matching,
    /// Both present; some required sections diverged.
    Differing,
    /// Only the first stage holds it.
    OnlyInA,
    /// Only the second stage holds it.
    OnlyInB,
    /// At least one side fails verify-on-inspect.
    Tampered,
    /// Neither stage holds it (or the two stages are one).
    Neither,
}

/// How case `x` stands between stages `a` and `b` under `policy`.
pub open spec fn comparison_of(m: Map<ArtifactKey, Seq<u8>>, x: Seq<char>, a: Stage, b: Stage, policy: MatchSections) -> Comparison {
    if a == b {
        Comparison::Neither
    } else if tampered_at(m, x, a) || tampered_at(m, x, b) {
        Comparison::Tampered
    } else if absent_at(m, x, a) && absent_at(m, x, b) {
        Comparison::Neither
    } else if absent_at(m, x, b) {
        Comparison::OnlyInA
    } else if absent_at(m, x, a) {
        Comparison::OnlyInB
    } else if diverged(file_at(m, x, a).sections@, file_at(m, x, b).sections@, required_sections(policy)).len() == 0 {
        Comparison::Matching
    } else {
        Comparison::Differing
    }
}

/// The mirror paths of the cases of `sel` that compare as `c`, in order.
pub open spec fn compared_as(
    m: Map<ArtifactKey, Seq<u8>>,
    sel: Seq<Seq<char>>,
    a: Stage,
    b: Stage,
    policy: MatchSections,
    c: Comparison,
) -> Seq<Seq<char>>
    decreases sel.len(),
{
    if sel.len() == 0 {
        Seq::empty()
    } else {
        let p = compared_as(m, sel.drop_last(), a, b, policy, c);
        if comparison_of(m, sel.last(), a, b, policy) == c {
            p.push(mirror_spec(sel.last()))
        } else {
            p
        }
    }
}

/// The diverged sections of each differing case of `sel`, in order.
pub open spec fn differing_sections(
    m: Map<ArtifactKey, Seq<u8>>,
    sel: Seq<Seq<char>>,
    a: Stage,
    b: Stage,
    policy: MatchSections,
) -> Seq<Seq<Seq<char>>>
    decreases sel.len(),
{
    if sel.len() == 0 {
        Seq::empty()
    } else {
        let p = differing_sections(m, sel.drop_last(), a, b, policy);
        let x = sel.last();
        if comparison_of(m, x, a, b, policy) == Comparison::Differing {
            p.push(diverged(file_at(m, x, a).sections@, file_at(m, x, b).sections@, required_sections(policy)))
        } else {
            p
        }
    }
}

/// One differing case of a comparison.
pub struct DiffEntry {
    /// The case's mirror path.
    pub rel_path: String,
    /// The required sections that diverged.
    pub sections: Vec<String>,
}

/// A comparison of two stages: the mirror paths of the cases in each
/// class, in suite order.
pub struct ComparisonResult {
    /// Both present and matching.
    pub matching: Vec<String>,
    /// Both present, some required sections diverged.
    pub differing: Vec<DiffEntry>,
    /// Only in the first stage.
    pub only_in_a: Vec<String>,
    /// Only in the second stage.
    pub only_in_b: Vec<String>,
    /// At least one side tampered.
    pub tampered: Vec<String>,
}

impl ComparisonResult {
    /// Every compared case matched: nothing differing, one-sided or
    /// tampered.
    pub fn is_clean(&self) -> (r: bool)
        ensures
            r == (self.differing@.len() == 0 && self.only_in_a@.len() == 0 && self.only_in_b@.len() == 0
                && self.tampered@.len() == 0),
    {
        self.differing.len() == 0 && self.only_in_a.len() == 0 && self.only_in_b.len() == 0 && self.tampered.len() == 0
    }
}

/// `r` is the comparison of the cases `sel` between `a` and `b`.
pub open spec fn compared(r: ComparisonResult, m: Map<ArtifactKey, Seq<u8>>, sel: Seq<Seq<char>>, a: Stage, b: Stage, policy: MatchSections) -> bool {
    &&& strings_view(r.matching@) == compared_as(m, sel, a, b, policy, Comparison::Matching)
    &&& Seq::new(r.differing@.len(), |i: int| r.differing@[i].rel_path@) == compared_as(m, sel, a, b, policy, Comparison::Differing)
    &&& Seq::new(r.differing@.len(), |i: int| strings_view(r.differing@[i].sections@)) == differing_sections(m, sel, a, b, policy)
    &&& strings_view(r.only_in_a@) == compared_as(m, sel, a, b, policy, Comparison::OnlyInA)
    &&& strings_view(r.only_in_b@) == compared_as(m, sel, a, b, policy, Comparison::OnlyInB)
    &&& strings_view(r.tampered@) == compared_as(m, sel, a, b, policy, Comparison::Tampered)
}


/// The comparison prefix grows by one case's classification.
proof fn lemma_compared_push(
    m: Map<ArtifactKey, Seq<u8>>,
    sel: Seq<Seq<char>>,
    i: int,
    a: Stage,
    b: Stage,
    policy: MatchSections,
)
    requires
        0 <= i < sel.len(),
    ensures
        ({
            let t = sel.take(i + 1);
            let p = sel.take(i);
            &&& forall|c: Comparison| #[trigger] compared_as(m, t, a, b, policy, c) == if comparison_of(m, sel[i], a, b, policy) == c {
                compared_as(m, p, a, b, policy, c).push(mirror_spec(sel[i]))
            } else {
                compared_as(m, p, a, b, policy, c)
            }
            &&& differing_sections(m, t, a, b, policy) == if comparison_of(m, sel[i], a, b, policy) == Comparison::Differing {
                differing_sections(m, p, a, b, policy).push(diverged(file_at(m, sel[i], a).sections@,
                    file_at(m, sel[i], b).sections@, required_sections(policy)))
            } else {
                differing_sections(m, p, a, b, policy)
            }
        }),
{
    let t = sel.take(i + 1);
    assert(t.drop_last() =~= sel.take(i));
    assert(t.last() == sel[i]);
}

impl<S: EinmoStorage> EinmoSuite<S> {
    /// How `case` stands between `a` and `b` under `policy`, with the
    /// diverged sections when it differs.
    fn classify(&self, case: &EinmoCase, a: Stage, b: Stage, policy: MatchSections) -> (r: Result<
        (Comparison, Vec<String>),
        EinmoError,
    >)
        ensures
            r matches Ok((c, secs)) ==> c == comparison_of(self.artifacts(), case@, a, b, policy)
                && (c == Comparison::Differing ==> strings_view(secs@) == diverged(
                    file_at(self.artifacts(), case@, a).sections@,
                    file_at(self.artifacts(), case@, b).sections@,
                    required_sections(policy),
                )),
            r matches Err(e) ==> e is Io,
            self.storage_infallible() ==> r is Ok,
    {
        if a == b {
            return Ok((Comparison::Neither, Vec::new()));
        }
        let ghost m = self.artifacts();
        let stages = vec![a, b];
        let ag = match case.agreement(&self.storage, stages.as_slice(), policy) {
            Err(e) => return Err(e),
            Ok(g) => g,
        };
        let found = ag.pair(a, b);
        proof {
            assert(ag.stages_spec() == seq![a, b]);
            assert(ag.entry(0, 1) is Some);
            assert(pair_spec(ag.entry(0, 1).unwrap(), m, case@, a, b, policy));
            if let Some(p) = found {
                let (li, ri) = choose|li: int, ri: int| 0 <= li < ag.stages_spec().len() && 0 <= ri < ag.stages_spec().len()
                    && li != ri && ag.stages_spec()[li] == a && ag.stages_spec()[ri] == b && #[trigger] ag.entry(li, ri) == Some(*p);
                assert(li == 0 && ri == 1);
            } else {
                assert(!(ag.stages_spec()[0] == a && ag.stages_spec()[1] == b));
            }
        }
        match found {
            Some(StagePairAgreement::Agree) => Ok((Comparison::Matching, Vec::new())),
            Some(StagePairAgreement::Differ { sections }) => Ok((Comparison::Differing, copy_strings(sections))),
            Some(StagePairAgreement::OneSided { present, .. }) => {
                if *present == a {
                    Ok((Comparison::OnlyInA, Vec::new()))
                } else {
                    Ok((Comparison::OnlyInB, Vec::new()))
                }
            },
            Some(StagePairAgreement::Tampered { .. }) => Ok((Comparison::Tampered, Vec::new())),
            _ => Ok((Comparison::Neither, Vec::new())),
        }
    }

    /// Compare stages `a` and `b` case by case over the suite's cases (or
    /// only those of `ids` the suite holds), under `policy`: each case is
    /// matching, differing (with its diverged sections), only in one of
    /// the stages, tampered, or in neither.
    ///
    /// # Errors
    /// Any storage failure.
    #[verifier::rlimit(60)]
    pub fn compare(&self, a: Stage, b: Stage, policy: MatchSections, ids: Option<&[EinmoId]>) -> (r: Result<
        ComparisonResult,
        EinmoError,
    >)
        requires
            self.wf(),
        ensures
            r matches Ok(res) ==> compared(res, self.artifacts(), selected(self.ids_spec(), None, opt_ids(ids)), a, b, policy),
            r matches Err(e) ==> e is Io,
            self.storage_infallible() ==> r is Ok,
    {
        let cases = self.select(None, ids);
        let ghost sel = selected(self.ids_spec(), None, opt_ids(ids));
        let ghost m = self.artifacts();
        assert(opt_chars(None) == None::<Seq<char>>);
        let mut res = ComparisonResult {
            matching: Vec::new(),
            differing: Vec::new(),
            only_in_a: Vec::new(),
            only_in_b: Vec::new(),
            tampered: Vec::new(),
        };
        proof {
            assert(sel.take(0) =~= Seq::<Seq<char>>::empty());
            assert(strings_view(res.matching@) =~= Seq::<Seq<char>>::empty());
            assert(strings_view(res.only_in_a@) =~= Seq::<Seq<char>>::empty());
            assert(strings_view(res.only_in_b@) =~= Seq::<Seq<char>>::empty());
            assert(strings_view(res.tampered@) =~= Seq::<Seq<char>>::empty());
            assert(Seq::new(res.differing@.len(), |k: int| res.differing@[k].rel_path@) =~= Seq::<Seq<char>>::empty());
            assert(Seq::new(res.differing@.len(), |k: int| strings_view(res.differing@[k].sections@)) =~= Seq::<Seq<Seq<char>>>::empty());
        }
        let mut i: usize = 0;
        while i < cases.len()
            invariant
                i <= cases@.len(),
                cases@.len() == sel.len(),
                forall|k: int| 0 <= k < cases@.len() ==> (#[trigger] cases@[k])@ == sel[k],
                m == self.artifacts(),
                compared(res, m, sel.take(i as int), a, b, policy),
            decreases cases@.len() - i,
        {
            let case = &cases[i];
            let x = case.id();
            let ghost xv = sel[i as int];
            let ghost prev = res;
            proof {
                assert(cases@[i as int]@ == xv);
                lemma_compared_push(m, sel, i as int, a, b, policy);
            }
            let (c, secs) = match self.classify(case, a, b, policy) {
                Err(e) => return Err(e),
                Ok(v) => v,
            };
            if let Comparison::Differing = c {
                res.differing.push(DiffEntry { rel_path: x.mirror_path(), sections: secs });
            }
            match c {
                Comparison::Matching => res.matching.push(x.mirror_path()),
                Comparison::OnlyInA => res.only_in_a.push(x.mirror_path()),
                Comparison::OnlyInB => res.only_in_b.push(x.mirror_path()),
                Comparison::Tampered => res.tampered.push(x.mirror_path()),
                _ => {},
            }
            proof {
                assert(c == comparison_of(m, xv, a, b, policy));
                let t = sel.take(i + 1);
                assert(strings_view(res.matching@) =~= compared_as(m, t, a, b, policy, Comparison::Matching));
                assert(strings_view(res.only_in_a@) =~= compared_as(m, t, a, b, policy, Comparison::OnlyInA));
                assert(strings_view(res.only_in_b@) =~= compared_as(m, t, a, b, policy, Comparison::OnlyInB));
                assert(strings_view(res.tampered@) =~= compared_as(m, t, a, b, policy, Comparison::Tampered));
                assert(Seq::new(res.differing@.len(), |k: int| res.differing@[k].rel_path@)
                    =~= compared_as(m, t, a, b, policy, Comparison::Differing));
                assert(Seq::new(res.differing@.len(), |k: int| strings_view(res.differing@[k].sections@))
                    =~= differing_sections(m, t, a, b, policy));
            }
            i = i + 1;
        }
        proof {
            assert(sel.take(i as int) =~= sel);
        }
        Ok(res)
    }
}

/// The views of a list of flagged artifacts, as `(id, stage)`.
pub open spec fn flagged_view(v: Seq<(EinmoId, Stage)>) -> Seq<(Seq<char>, Stage)> {
    Seq::new(v.len(), |i: int| (v[i].0@, v[i].1))
}

impl<S: EinmoStorage> EinmoSuite<S> {
    /// Every flagged artifact of the suite, as `(id, stage)`: stage by
    /// stage in stage order, each once. Any flag fails `verify` unless
    /// flags are downgraded to advisory.
    ///
    /// # Errors
    /// Any storage listing failure.
    pub fn flagged(&self) -> (r: Result<Vec<(EinmoId, Stage)>, EinmoError>)
        ensures
            r matches Ok(v) ==> forall|x: Seq<char>, st: Stage| #[trigger] flagged_view(v@).contains((x, st))
                <==> self.artifacts().dom().contains((x, ArtifactLocation::Flagged(st))),
            r matches Ok(v) ==> flagged_view(v@).no_duplicates(),
            r matches Err(e) ==> e is Io || e is InvalidId,
            self.storage_infallible() ==> r is Ok,
    {
        let ghost m = self.artifacts();
        let stages = Stage::all();
        let mut out: Vec<(EinmoId, Stage)> = Vec::new();
        let mut k: usize = 0;
        while k < stages.len()
            invariant
                k <= 3,
                stages@ == crate::stage::all_stages(),
                m == self.artifacts(),
                flagged_view(out@).no_duplicates(),
                forall|x: Seq<char>, st: Stage| #[trigger] flagged_view(out@).contains((x, st))
                    <==> (m.dom().contains((x, ArtifactLocation::Flagged(st))) && stages@.take(k as int).contains(st)),
            decreases 3 - k,
        {
            let st = stages[k];
            let ids = match self.storage.list_ids(ArtifactLocation::Flagged(st)) {
                Err(e) => return Err(e),
                Ok(v) => v,
            };
            let ghost before = flagged_view(out@);
            proof {
                assert(stages@.take(k + 1) =~= stages@.take(k as int).push(st));
                assert(!stages@.take(k as int).contains(st)) by {
                    if stages@.take(k as int).contains(st) {
                        let tk = stages@.take(k as int);
                        let w = choose|w: int| 0 <= w < tk.len() && #[trigger] tk[w] == st;
                        assert(stages@[w] == stages@[k as int]);
                    }
                }
            }
            let mut j: usize = 0;
            while j < ids.len()
                invariant
                    j <= ids@.len(),
                    m == self.artifacts(),
                    id_views(ids@).no_duplicates(),
                    forall|x: Seq<char>| id_views(ids@).contains(x) <==> m.dom().contains((x, ArtifactLocation::Flagged(st))),
                    !stages@.take(k as int).contains(st),
                    flagged_view(out@).no_duplicates(),
                    forall|x: Seq<char>, s2: Stage| #[trigger] flagged_view(out@).contains((x, s2))
                        <==> (before.contains((x, s2)) || (s2 == st && id_views(ids@).take(j as int).contains(x))),
                    forall|x: Seq<char>, s2: Stage| before.contains((x, s2)) ==> s2 != st,
                decreases ids@.len() - j,
            {
                let ghost prev = flagged_view(out@);
                let ghost x0 = ids@[j as int]@;
                out.push((ids[j].duplicate(), st));
                proof {
                    let now = flagged_view(out@);
                    assert(now =~= prev.push((x0, st)));
                    assert(id_views(ids@).take(j + 1) =~= id_views(ids@).take(j as int).push(x0));
                    assert(id_views(ids@)[j as int] == x0);
                    assert(!prev.contains((x0, st))) by {
                        if prev.contains((x0, st)) {
                            if before.contains((x0, st)) {
                            } else {
                                let t0 = id_views(ids@).take(j as int);
                                let w = choose|w: int| 0 <= w < t0.len() && #[trigger] t0[w] == x0;
                                assert(id_views(ids@)[w] == id_views(ids@)[j as int]);
                            }
                        }
                    }
                    assert(now.no_duplicates()) by {
                        assert forall|a: int, b: int| 0 <= a < now.len() && 0 <= b < now.len() && a != b implies now[a] != now[b] by {
                            if a == prev.len() as int {
                                assert(prev.contains(now[b]));
                            } else if b == prev.len() as int {
                                assert(prev.contains(now[a]));
                            } else {
                                assert(now[a] == prev[a] && now[b] == prev[b]);
                            }
                        }
                    }
                    assert forall|x: Seq<char>, s2: Stage| #[trigger] now.contains((x, s2))
                        <==> (before.contains((x, s2)) || (s2 == st && id_views(ids@).take(j + 1).contains(x))) by {
                        if now.contains((x, s2)) && (x, s2) != (x0, st) {
                            let w = choose|w: int| 0 <= w < now.len() && now[w] == (x, s2);
                            assert(w < prev.len());
                            assert(prev[w] == (x, s2));
                        }
                        if (x, s2) == (x0, st) {
                            assert(now[prev.len() as int] == (x, s2));
                        }
                        if prev.contains((x, s2)) {
                            let w = choose|w: int| 0 <= w < prev.len() && prev[w] == (x, s2);
                            assert(now[w] == (x, s2));
                            if !before.contains((x, s2)) {
                                let t0 = id_views(ids@).take(j as int);
                                let v = choose|v: int| 0 <= v < t0.len() && #[trigger] t0[v] == x;
                                assert(id_views(ids@).take(j + 1)[v] == x);
                            }
                        }
                        if before.contains((x, s2)) {
                            assert(prev.contains((x, s2)));
                        }
                        if s2 == st && x == x0 {
                            assert(id_views(ids@).take(j + 1)[j as int] == x);
                        }
                        if s2 == st && id_views(ids@).take(j + 1).contains(x) && x != x0 {
                            let t1 = id_views(ids@).take(j + 1);
                            let w = choose|w: int| 0 <= w < t1.len() && #[trigger] t1[w] == x;
                            assert(w < j);
                            assert(id_views(ids@).take(j as int)[w] == x);
                            assert(prev.contains((x, s2)));
                        }
                    }
                }
                j = j + 1;
            }
            proof {
                assert(id_views(ids@).take(j as int) =~= id_views(ids@));
                assert forall|x: Seq<char>, s2: Stage| #[trigger] flagged_view(out@).contains((x, s2))
                    <==> (m.dom().contains((x, ArtifactLocation::Flagged(s2))) && stages@.take(k + 1).contains(s2)) by {
                    if s2 == st {
                        assert(stages@.take(k + 1)[k as int] == st);
                    } else if stages@.take(k + 1).contains(s2) {
                        let tk1 = stages@.take(k + 1);
                        let w = choose|w: int| 0 <= w < tk1.len() && #[trigger] tk1[w] == s2;
                        assert(stages@.take(k as int)[w] == s2);
                    }
                    if stages@.take(k as int).contains(s2) {
                        let tk = stages@.take(k as int);
                        let w = choose|w: int| 0 <= w < tk.len() && #[trigger] tk[w] == s2;
                        assert(stages@.take(k + 1)[w] == s2);
                    }
                }
            }
            k = k + 1;
        }
        proof {
            assert(stages@.take(3) =~= stages@);
            assert forall|x: Seq<char>, st: Stage| #[trigger] flagged_view(out@).contains((x, st))
                <==> self.artifacts().dom().contains((x, ArtifactLocation::Flagged(st))) by {
                match st {
                    Stage::Output => assert(stages@[0] == st),
                    Stage::Checked => assert(stages@[1] == st),
                    Stage::Verified => assert(stages@[2] == st),
                }
            }
        }
        Ok(out)
    }
}

} // verus!
