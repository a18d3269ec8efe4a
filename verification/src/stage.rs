//! Stages and case ids.
//!
//! An [`EinmoId`] names one case by its input-relative path (`/`-separated,
//! no `.einmo` suffix); every stage directory mirrors the input tree, so the
//! id alone locates a case's artifact at any stage.

use vstd::prelude::*;
use crate::error::EinmoError;
use crate::text::{
    chars_of, compare_chars, concat, lemma_seq_lt_irreflexive, lemma_seq_lt_transitive,
    lemma_seq_lt_trichotomy, own, seq_lt, str_eq, string_of, Order,
};

verus! {

/// One stage of the promotion pipeline. Flagging is not a stage: every
/// stage has its own nested flagged sink (see `ArtifactLocation`).
#[derive(Debug, Clone, Copy, PartialEq, Eq, Hash, Structural)]
pub enum Stage {
    /// Freshly generated output, regenerated every run.
    Output,
    /// A reviewed baseline.
    Checked,
    /// A baseline attested by a human signer.
    Verified,
}

/// The directory name of a stage.
pub open spec fn stage_dir_name(s: Stage) -> Seq<char> {
    match s {
        Stage::Output => seq!['o', 'u', 't', 'p', 'u', 't'],
        Stage::Checked => seq!['c', 'h', 'e', 'c', 'k', 'e', 'd'],
        Stage::Verified => seq!['v', 'e', 'r', 'i', 'f', 'i', 'e', 'd'],
    }
}

/// The stage whose directory name is `s`, if any.
pub open spec fn parse_stage_spec(s: Seq<char>) -> Option<Stage> {
    if s == stage_dir_name(Stage::Output) {
        Some(Stage::Output)
    } else if s == stage_dir_name(Stage::Checked) {
        Some(Stage::Checked)
    } else if s == stage_dir_name(Stage::Verified) {
        Some(Stage::Verified)
    } else {
        None
    }
}

/// The stamp key a promotion into `s` appends.
pub open spec fn stage_stamp_key(s: Stage) -> Seq<char> {
    seq!['s', 't', 'a', 'g', 'e', ':'] + stage_dir_name(s)
}

/// The position of a stage in the pipeline.
pub open spec fn stage_rank(s: Stage) -> int {
    match s {
        Stage::Output => 0,
        Stage::Checked => 1,
        Stage::Verified => 2,
    }
}

/// The three stages, in pipeline order.
pub open spec fn all_stages() -> Seq<Stage> {
    seq![Stage::Output, Stage::Checked, Stage::Verified]
}

impl Stage {
    /// Every stage, in pipeline order (`output`, `checked`, `verified`).
    pub fn all() -> (r: Vec<Stage>)
        ensures
            r@ == all_stages(),
    {
        let r = vec![Stage::Output, Stage::Checked, Stage::Verified];
        assert(r@ =~= all_stages());
        r
    }

    /// The stage's directory name (`output`, `checked`, `verified`).
    pub fn dir_name(&self) -> (r: &'static str)
        ensures
            r@ == stage_dir_name(*self),
    {
        proof {
            reveal_strlit("output");
            reveal_strlit("checked");
            reveal_strlit("verified");
        }
        match self {
            Stage::Output => "output",
            Stage::Checked => "checked",
            Stage::Verified => "verified",
        }
    }

    /// The stage's name as an owned string (what `Display` renders).
    pub fn to_string(&self) -> (r: String)
        ensures
            r@ == stage_dir_name(*self),
    {
        own(self.dir_name())
    }

    /// The stamp key a promotion into this stage appends (`stage:<name>`).
    pub fn stamp_key(&self) -> (r: String)
        ensures
            r@ == stage_stamp_key(*self),
    {
        proof {
            reveal_strlit("stage:");
        }
        concat("stage:", self.dir_name())
    }

    /// Parse a stage from its directory name.
    ///
    /// # Errors
    /// [`EinmoError::Config`] for any other name.
    pub fn parse(s: &str) -> (r: Result<Stage, EinmoError>)
        ensures
            r matches Ok(st) ==> parse_stage_spec(s@) == Some(st),
            r is Err ==> parse_stage_spec(s@) is None,
            r matches Err(e) ==> e is Config,
    {
        proof {
            reveal_strlit("output");
            reveal_strlit("checked");
            reveal_strlit("verified");
            assert("output"@ =~= stage_dir_name(Stage::Output));
            assert("checked"@ =~= stage_dir_name(Stage::Checked));
            assert("verified"@ =~= stage_dir_name(Stage::Verified));
        }
        if str_eq(s, "output") {
            Ok(Stage::Output)
        } else if str_eq(s, "checked") {
            Ok(Stage::Checked)
        } else if str_eq(s, "verified") {
            Ok(Stage::Verified)
        } else {
            Err(EinmoError::Config(concat("unknown stage ", s)))
        }
    }

    /// Whether two stages are the same stage.
    pub fn same(&self, other: &Stage) -> (r: bool)
        ensures
            r == (*self == *other),
    {
        match (self, other) {
            (Stage::Output, Stage::Output) => true,
            (Stage::Checked, Stage::Checked) => true,
            (Stage::Verified, Stage::Verified) => true,
            _ => false,
        }
    }
}

/// Parsing a stage's own directory name gives the stage back.
pub proof fn lemma_stage_name_round_trip(s: Stage)
    ensures
        parse_stage_spec(stage_dir_name(s)) == Some(s),
{
    let o = stage_dir_name(Stage::Output);
    let c = stage_dir_name(Stage::Checked);
    let v = stage_dir_name(Stage::Verified);
    assert(o != c) by { assert(o[0] != c[0]); }
    assert(o != v) by { assert(o[0] != v[0]); }
    assert(c != v) by { assert(c[0] != v[0]); }
}

// ---------------------------------------------------------------------------
// Path components
// ---------------------------------------------------------------------------

/// `s` split at every `/` (`str::split('/')`): always at least one
/// component; adjacent, leading, or trailing separators yield empty
/// components.
pub open spec fn split_slash(s: Seq<char>) -> Seq<Seq<char>>
    decreases s.len(),
{
    if s.len() == 0 {
        seq![Seq::<char>::empty()]
    } else {
        let rest = split_slash(s.drop_first());
        if s[0] == '/' {
            seq![Seq::<char>::empty()] + rest
        } else {
            rest.update(0, seq![s[0]] + rest[0])
        }
    }
}

pub proof fn lemma_split_slash_nonempty(s: Seq<char>)
    ensures
        split_slash(s).len() >= 1,
    decreases s.len(),
{
    if s.len() > 0 {
        lemma_split_slash_nonempty(s.drop_first());
    }
}

/// Appending a character to `s` either starts a new component (`/`) or
/// extends the last one.
pub proof fn lemma_split_slash_push(s: Seq<char>, c: char)
    ensures
        split_slash(s).len() >= 1,
        split_slash(s.push(c)) == (if c == '/' {
            split_slash(s).push(Seq::<char>::empty())
        } else {
            split_slash(s).update(split_slash(s).len() - 1, split_slash(s).last().push(c))
        }),
    decreases s.len(),
{
    lemma_split_slash_nonempty(s);
    if s.len() == 0 {
        assert(s.push(c).drop_first() =~= Seq::<char>::empty());
        assert(s =~= Seq::<char>::empty());
        assert(s.push(c) =~= seq![c]);
        reveal_with_fuel(split_slash, 2);
        if c == '/' {
            assert(split_slash(s.push(c)) =~= split_slash(s).push(Seq::<char>::empty()));
        } else {
            assert(split_slash(s.push(c)) =~= split_slash(s).update(0, seq![c]));
            assert(split_slash(s).last().push(c) =~= seq![c]);
        }
    } else {
        let t = s.drop_first();
        lemma_split_slash_push(t, c);
        lemma_split_slash_nonempty(t);
        assert(s.push(c).drop_first() =~= t.push(c));
        let rt = split_slash(t);
        let rtc = split_slash(t.push(c));
        if s[0] == '/' {
            if c == '/' {
                assert(split_slash(s.push(c)) =~= split_slash(s).push(Seq::<char>::empty()));
            } else {
                assert(split_slash(s.push(c)) =~= split_slash(s).update(
                    split_slash(s).len() - 1,
                    split_slash(s).last().push(c),
                ));
            }
        } else {
            if c == '/' {
                assert(split_slash(s.push(c)) =~= split_slash(s).push(Seq::<char>::empty()));
            } else {
                if rt.len() == 1 {
                    assert((seq![s[0]] + rt[0]).push(c) =~= seq![s[0]] + rt[0].push(c));
                }
                assert(split_slash(s.push(c)) =~= split_slash(s).update(
                    split_slash(s).len() - 1,
                    split_slash(s).last().push(c),
                ));
            }
        }
    }
}

/// Split a character slice at every `/`.
pub fn split_components(s: &[char]) -> (r: Vec<Vec<char>>)
    ensures
        r@.len() == split_slash(s@).len(),
        forall|k: int| 0 <= k < r@.len() ==> #[trigger] r@[k]@ == split_slash(s@)[k],
        deep_chars(r@) == split_slash(s@),
{
    let mut out: Vec<Vec<char>> = Vec::new();
    let mut cur: Vec<char> = Vec::new();
    let mut i: usize = 0;
    proof {
        assert(s@.take(0) =~= Seq::<char>::empty());
    }
    while i < s.len()
        invariant
            i <= s@.len(),
            out@.len() + 1 == split_slash(s@.take(i as int)).len(),
            forall|k: int| 0 <= k < out@.len() ==> #[trigger] out@[k]@ == split_slash(s@.take(i as int))[k],
            cur@ == split_slash(s@.take(i as int)).last(),
        decreases s@.len() - i,
    {
        let c = s[i];
        proof {
            lemma_split_slash_push(s@.take(i as int), c);
            assert(s@.take(i + 1) =~= s@.take(i as int).push(c));
        }
        if c == '/' {
            let done = cur;
            out.push(done);
            cur = Vec::new();
        } else {
            cur.push(c);
        }
        i = i + 1;
    }
    proof {
        assert(s@.take(s@.len() as int) =~= s@);
    }
    out.push(cur);
    assert(deep_chars(out@) =~= split_slash(s@));
    out
}

/// The character sequences of a vector of character vectors.
pub open spec fn deep_chars(v: Seq<Vec<char>>) -> Seq<Seq<char>> {
    Seq::new(v.len(), |k: int| v[k]@)
}

/// `split_slash` is injective: equal component lists come from equal paths.
pub proof fn lemma_split_slash_injective(x: Seq<char>, y: Seq<char>)
    requires
        split_slash(x) == split_slash(y),
    ensures
        x == y,
    decreases x.len() + y.len(),
{
    lemma_split_slash_nonempty(x);
    lemma_split_slash_nonempty(y);
    if x.len() == 0 && y.len() == 0 {
        assert(x =~= y);
    } else if x.len() == 0 {
        lemma_split_slash_nonempty(y.drop_first());
        if y[0] == '/' {
            assert(split_slash(y).len() >= 2);
        } else {
            assert(split_slash(y)[0].len() >= 1);
        }
    } else if y.len() == 0 {
        lemma_split_slash_nonempty(x.drop_first());
        if x[0] == '/' {
            assert(split_slash(x).len() >= 2);
        } else {
            assert(split_slash(x)[0].len() >= 1);
        }
    } else {
        let xs = split_slash(x.drop_first());
        let ys = split_slash(y.drop_first());
        lemma_split_slash_nonempty(x.drop_first());
        lemma_split_slash_nonempty(y.drop_first());
        if x[0] == '/' && y[0] == '/' {
            assert(xs =~= split_slash(x).drop_first());
            assert(ys =~= split_slash(y).drop_first());
            lemma_split_slash_injective(x.drop_first(), y.drop_first());
            assert(x =~= seq![x[0]] + x.drop_first());
            assert(y =~= seq![y[0]] + y.drop_first());
        } else if x[0] == '/' {
            assert(split_slash(x)[0].len() == 0);
            assert(split_slash(y)[0].len() >= 1);
        } else if y[0] == '/' {
            assert(split_slash(y)[0].len() == 0);
            assert(split_slash(x)[0].len() >= 1);
        } else {
            assert(split_slash(x)[0] == seq![x[0]] + xs[0]);
            assert(split_slash(y)[0] == seq![y[0]] + ys[0]);
            assert((seq![x[0]] + xs[0])[0] == x[0]);
            assert((seq![y[0]] + ys[0])[0] == y[0]);
            assert(x[0] == y[0]);
            assert(xs[0] =~= (seq![x[0]] + xs[0]).drop_first());
            assert(ys[0] =~= (seq![y[0]] + ys[0]).drop_first());
            assert(xs =~= ys) by {
                assert forall|k: int| 0 <= k < xs.len() implies xs[k] == ys[k] by {
                    if k > 0 {
                        assert(split_slash(x)[k] == xs[k]);
                        assert(split_slash(y)[k] == ys[k]);
                    }
                }
            }
            lemma_split_slash_injective(x.drop_first(), y.drop_first());
            assert(x =~= seq![x[0]] + x.drop_first());
            assert(y =~= seq![y[0]] + y.drop_first());
        }
    }
}

/// A valid id component: non-empty, not `.` or `..`, no NUL or backslash.
pub open spec fn valid_component(c: Seq<char>) -> bool {
    &&& c.len() > 0
    &&& c != seq!['.']
    &&& c != seq!['.', '.']
    &&& forall|i: int| 0 <= i < c.len() ==> c[i] != '\0' && c[i] != '\\'
}

/// A valid case id: a relative path whose every component is valid.
pub open spec fn valid_id(s: Seq<char>) -> bool {
    forall|k: int| 0 <= k < split_slash(s).len() ==> valid_component(#[trigger] split_slash(s)[k])
}

fn component_ok(c: &[char]) -> (r: bool)
    ensures
        r == valid_component(c@),
{
    if c.len() == 0 {
        return false;
    }
    if c.len() == 1 && c[0] == '.' {
        assert(c@ =~= seq!['.']);
        return false;
    }
    if c.len() == 2 && c[0] == '.' && c[1] == '.' {
        assert(c@ =~= seq!['.', '.']);
        return false;
    }
    assert(c@ != seq!['.']) by {
        if c@ == seq!['.'] {
            assert(c@.len() == 1 && c@[0] == '.');
        }
    }
    assert(c@ != seq!['.', '.']) by {
        if c@ == seq!['.', '.'] {
            assert(c@.len() == 2 && c@[0] == '.' && c@[1] == '.');
        }
    }
    let mut i: usize = 0;
    while i < c.len()
        invariant
            i <= c@.len(),
            forall|k: int| 0 <= k < i ==> c@[k] != '\0' && c@[k] != '\\',
        decreases c@.len() - i,
    {
        if c[i] == '\0' || c[i] == '\\' {
            return false;
        }
        i = i + 1;
    }
    true
}

/// Whether `s` is a valid case id.
pub fn id_ok(s: &[char]) -> (r: bool)
    ensures
        r == valid_id(s@),
{
    let comps = split_components(s);
    let mut k: usize = 0;
    while k < comps.len()
        invariant
            comps@.len() == split_slash(s@).len(),
            forall|j: int| 0 <= j < comps@.len() ==> #[trigger] comps@[j]@ == split_slash(s@)[j],
            k <= comps@.len(),
            forall|j: int| 0 <= j < k ==> valid_component(#[trigger] split_slash(s@)[j]),
        decreases comps@.len() - k,
    {
        if !component_ok(comps[k].as_slice()) {
            assert(comps@[k as int]@ == split_slash(s@)[k as int]);
            return false;
        }
        k = k + 1;
    }
    true
}

/// One case's identifier: its input-relative path with `/` separators and
/// no `.einmo` suffix (`foop/23/sub_feature/test1.foo`). Validated at
/// construction, so building a stage path from it never fails.
#[derive(Debug, Clone, PartialEq, Eq, Hash)]
pub struct EinmoId {
    text: String,
}

impl View for EinmoId {
    type V = Seq<char>;

    closed spec fn view(&self) -> Seq<char> {
        self.text@
    }
}

/// `p` with the `.einmo` mirror suffix appended.
pub open spec fn mirror_spec(p: Seq<char>) -> Seq<char> {
    p + seq!['.', 'e', 'i', 'n', 'm', 'o']
}

impl EinmoId {
    /// Invariant of every `EinmoId`.
    pub open spec fn wf(&self) -> bool {
        valid_id(self@)
    }

    /// Validate `s` as an id.
    ///
    /// # Errors
    /// [`EinmoError::InvalidId`] if any component is empty, `.`, `..`, or
    /// holds a NUL or backslash.
    pub fn try_from(s: &str) -> (r: Result<EinmoId, EinmoError>)
        ensures
            r matches Ok(id) ==> id@ == s@ && id.wf(),
            r is Err <==> !valid_id(s@),
            r matches Err(e) ==> e is InvalidId,
    {
        let v = chars_of(s);
        if id_ok(v.as_slice()) {
            Ok(EinmoId { text: string_of(v.as_slice()) })
        } else {
            Err(EinmoError::InvalidId(concat("invalid case id ", s)))
        }
    }

    /// The id of an input file at input-relative path `rel`.
    ///
    /// # Errors
    /// As [`EinmoId::try_from`].
    pub fn from_input_rel(rel: &str) -> (r: Result<EinmoId, EinmoError>)
        ensures
            r matches Ok(id) ==> id@ == rel@ && id.wf(),
            r is Err <==> !valid_id(rel@),
    {
        EinmoId::try_from(rel)
    }

    /// The id as a string slice.
    pub fn as_str(&self) -> (r: &str)
        ensures
            r@ == self@,
    {
        self.text.as_str()
    }

    /// The id's characters.
    pub fn chars(&self) -> (r: Vec<char>)
        ensures
            r@ == self@,
    {
        chars_of(self.text.as_str())
    }

    /// A copy of this id.
    pub fn duplicate(&self) -> (r: EinmoId)
        ensures
            r@ == self@,
    {
        EinmoId { text: own(self.text.as_str()) }
    }

    /// Content equality.
    pub fn same(&self, other: &EinmoId) -> (r: bool)
        ensures
            r == (self@ == other@),
    {
        str_eq(self.text.as_str(), other.text.as_str())
    }

    /// The mirror-relative artifact path (`<id>.einmo`).
    pub fn mirror_path(&self) -> (r: String)
        ensures
            r@ == mirror_spec(self@),
    {
        proof {
            reveal_strlit(".einmo");
        }
        concat(self.text.as_str(), ".einmo")
    }
}

/// The characters of each id in a list.
pub open spec fn id_views(s: Seq<EinmoId>) -> Seq<Seq<char>> {
    Seq::new(s.len(), |k: int| s[k]@)
}

/// Strictly increasing in id order (`seq_lt`, the order `EinmoId` sorts by).
pub open spec fn ids_strictly_sorted(s: Seq<Seq<char>>) -> bool {
    forall|i: int, j: int| 0 <= i < j < s.len() ==> seq_lt(#[trigger] s[i], #[trigger] s[j])
}

/// Every id in the list is valid.
pub open spec fn all_wf(s: Seq<EinmoId>) -> bool {
    forall|i: int| 0 <= i < s.len() ==> (#[trigger] s[i]).wf()
}

impl EinmoId {
    /// Three-way comparison in id order (code-point order of the text).
    pub fn compare(&self, other: &EinmoId) -> (r: Order)
        ensures
            r == Order::Equal <==> self@ == other@,
            r == Order::Less <==> seq_lt(self@, other@),
            r == Order::Greater <==> seq_lt(other@, self@),
    {
        let a = self.chars();
        let b = other.chars();
        proof {
            lemma_seq_lt_trichotomy(self@, other@);
        }
        compare_chars(a.as_slice(), b.as_slice())
    }
}

/// `v`'s ids sorted in id order with duplicates removed: the result holds
/// exactly the ids (by content) that `v` holds, each once, ascending.
pub fn sort_dedup_ids(v: &Vec<EinmoId>) -> (r: Vec<EinmoId>)
    ensures
        ids_strictly_sorted(id_views(r@)),
        forall|x: Seq<char>| id_views(r@).contains(x) <==> id_views(v@).contains(x),
        all_wf(v@) ==> all_wf(r@),
{
    let mut out: Vec<EinmoId> = Vec::new();
    let mut i: usize = 0;
    while i < v.len()
        invariant
            i <= v@.len(),
            ids_strictly_sorted(id_views(out@)),
            forall|x: Seq<char>| id_views(out@).contains(x) <==> id_views(v@.take(i as int)).contains(x),
            all_wf(v@) ==> all_wf(out@),
        decreases v@.len() - i,
    {
        let x = v[i].duplicate();
        let ghost before = id_views(out@);
        let mut k: usize = 0;
        let mut dup = false;
        let mut stop = false;
        while !stop && k < out.len()
            invariant
                k <= out@.len(),
                before == id_views(out@),
                forall|j: int| 0 <= j < k ==> seq_lt(#[trigger] before[j], x@),
                dup ==> stop && k < out@.len() && before[k as int] == x@,
                stop && !dup ==> k < out@.len() && seq_lt(x@, before[k as int]),
            decreases out@.len() - k + (if stop { 0int } else { 1int }),
        {
            match out[k].compare(&x) {
                Order::Less => {
                    k = k + 1;
                }
                Order::Equal => {
                    dup = true;
                    stop = true;
                }
                Order::Greater => {
                    stop = true;
                }
            }
        }
        proof {
            assert(v@.take(i + 1) =~= v@.take(i as int).push(v@[i as int]));
            assert(id_views(v@.take(i + 1)) =~= id_views(v@.take(i as int)).push(x@));
        }
        if dup {
            proof {
                assert(before[k as int] == x@);
                assert forall|y: Seq<char>| id_views(out@).contains(y) <==> id_views(v@.take(i + 1)).contains(y) by {
                    if id_views(v@.take(i + 1)).contains(y) && y == x@ {
                        assert(id_views(out@)[k as int] == y);
                    }
                    if id_views(v@.take(i + 1)).contains(y) && y != x@ {
                        let w = choose|w: int| 0 <= w < i + 1 && #[trigger] id_views(v@.take(i + 1))[w] == y;
                        assert(id_views(v@.take(i as int))[w] == y);
                    }
                    if id_views(out@).contains(y) {
                        assert(id_views(v@.take(i as int)).contains(y));
                        let w = choose|w: int| 0 <= w < i && #[trigger] id_views(v@.take(i as int))[w] == y;
                        assert(id_views(v@.take(i + 1))[w] == y);
                    }
                }
            }
        } else {
            let ghost old_out = out@;
            out.insert(k, x);
            proof {
                let after = id_views(out@);
                old_out.insert_ensures(k as int, x);
                assert(after =~= before.insert(k as int, x@));
                before.insert_ensures(k as int, x@);
                assert forall|a: int, b: int| 0 <= a < b < after.len() implies seq_lt(#[trigger] after[a], #[trigger] after[b]) by {
                    if a < k && b == k {
                    } else if a < k && b > k {
                        assert(after[b] == before[b - 1]);
                        if k < before.len() {
                            lemma_seq_lt_transitive(after[a], x@, before[k as int]);
                            if b - 1 > k {
                                lemma_seq_lt_transitive(after[a], before[k as int], before[b - 1]);
                            }
                        }
                    } else if a == k {
                        assert(after[b] == before[b - 1]);
                        if b - 1 > k {
                            lemma_seq_lt_transitive(x@, before[k as int], before[b - 1]);
                        }
                    } else if a > k {
                        assert(after[a] == before[a - 1]);
                        assert(after[b] == before[b - 1]);
                    }
                }
                assert forall|y: Seq<char>| after.contains(y) <==> id_views(v@.take(i + 1)).contains(y) by {
                    if after.contains(y) {
                        let w = choose|w: int| 0 <= w < after.len() && #[trigger] after[w] == y;
                        if w < k {
                            assert(before[w] == y);
                        } else if w > k {
                            assert(before[w - 1] == y);
                        }
                        if y != x@ {
                            assert(before.contains(y));
                            let u = choose|u: int| 0 <= u < i && #[trigger] id_views(v@.take(i as int))[u] == y;
                            assert(id_views(v@.take(i + 1))[u] == y);
                        } else {
                            assert(id_views(v@.take(i + 1))[i as int] == y);
                        }
                    }
                    if id_views(v@.take(i + 1)).contains(y) {
                        if y == x@ {
                            assert(after[k as int] == y);
                        } else {
                            let u = choose|u: int| 0 <= u < i + 1 && #[trigger] id_views(v@.take(i + 1))[u] == y;
                            assert(id_views(v@.take(i as int))[u] == y);
                            assert(before.contains(y));
                            let w = choose|w: int| 0 <= w < before.len() && #[trigger] before[w] == y;
                            if w < k {
                                assert(after[w] == y);
                            } else {
                                assert(after[w + 1] == y);
                            }
                        }
                    }
                }
                if all_wf(v@) {
                    assert(v@[i as int].wf());
                    assert forall|a: int| 0 <= a < out@.len() implies (#[trigger] out@[a]).wf() by {
                        if a < k {
                            assert(out@[a] == old_out[a]);
                        } else if a > k {
                            assert(out@[a] == old_out[a - 1]);
                        } else {
                            assert(out@[a]@ == v@[i as int]@);
                        }
                    }
                }
            }
        }
        i = i + 1;
    }
    proof {
        assert(v@.take(v@.len() as int) =~= v@);
    }
    out
}

/// `p` with the `.einmo` mirror suffix appended.
pub fn mirror_input_path(p: &str) -> (r: String)
    ensures
        r@ == mirror_spec(p@),
{
    proof {
        reveal_strlit(".einmo");
    }
    concat(p, ".einmo")
}

} // verus!
