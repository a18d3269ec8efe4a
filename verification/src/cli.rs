//! The command line's own decisions, apart from its I/O: how a stage
//! transition and promote's positional arguments are read, how `-` in a
//! file list expands to stdin's lines, and when flags make `verify` fail.

use vstd::prelude::*;
use crate::error::EinmoError;
use crate::stage::{lemma_stage_name_round_trip, parse_stage_spec, stage_dir_name, EinmoId, Stage};
use crate::text::{chars_of, concat, is_ws, lead_ws, own, string_of_range, trail_ws, trim, trim_spec};
use crate::codec::strings_view;
use crate::case::{file_of, key_at};
use crate::compare::body_pairs;
use crate::review::{body_view, read_stage_body, VerifiedBody};
use crate::storage::{ArtifactKey, ArtifactLocation, EinmoStorage};
use crate::text::str_eq;
use crate::verify::verifies;

verus! {

/// `sep` occurs in `s` at `i`.
pub open spec fn occurs_at(s: Seq<char>, sep: Seq<char>, i: int) -> bool {
    0 <= i && i + sep.len() <= s.len() && s.subrange(i, i + sep.len()) == sep
}

/// The first position at or after `i` where `sep` occurs in `s`.
pub open spec fn find_from(s: Seq<char>, sep: Seq<char>, i: int) -> Option<int>
    decreases s.len() - i,
{
    if sep.len() == 0 || i < 0 || i + sep.len() > s.len() {
        None
    } else if occurs_at(s, sep, i) {
        Some(i)
    } else {
        find_from(s, sep, i + 1)
    }
}

/// Whether `sep` occurs in `v` at `i`.
fn occurs_at_exec(v: &[char], sep: &[char], i: usize) -> (r: bool)
    requires
        i + sep@.len() <= v@.len(),
    ensures
        r == occurs_at(v@, sep@, i as int),
{
    let n = v.len();
    let mut k: usize = 0;
    while k < sep.len()
        invariant
            n == v@.len(),
            k <= sep@.len(),
            i + sep@.len() <= v@.len(),
            forall|x: int| 0 <= x < k ==> v@[i + x] == sep@[x],
        decreases sep@.len() - k,
    {
        let c = v[i + k];
        if c != sep[k] {
            proof {
                assert(v@.subrange(i as int, i + sep@.len())[k as int] != sep@[k as int]);
            }
            return false;
        }
        k = k + 1;
    }
    proof {
        assert(v@.subrange(i as int, i + sep@.len()) =~= sep@);
    }
    true
}

/// A position `find_from` gives is an occurrence at or after `j`.
proof fn lemma_find_from(s: Seq<char>, sep: Seq<char>, j: int)
    ensures
        find_from(s, sep, j) matches Some(i) ==> occurs_at(s, sep, i) && i >= j,
    decreases s.len() - j,
{
    if !(sep.len() == 0 || j < 0 || j + sep.len() > s.len()) && !occurs_at(s, sep, j) {
        lemma_find_from(s, sep, j + 1);
    }
}

/// The first position where `sep` occurs in `v`.
fn find_first(v: &[char], sep: &[char]) -> (r: Option<usize>)
    ensures
        r matches Some(i) ==> find_from(v@, sep@, 0) == Some(i as int) && occurs_at(v@, sep@, i as int),
        r is None ==> find_from(v@, sep@, 0) is None,
{
    proof {
        lemma_find_from(v@, sep@, 0);
    }
    if sep.len() > v.len() || sep.len() == 0 {
        return None;
    }
    let n = v.len();
    let last = n - sep.len();
    let mut i: usize = 0;
    while i <= last
        invariant
            n == v@.len(),
            0 < sep@.len() <= v@.len(),
            last == v@.len() - sep@.len(),
            i <= last + 1,
            find_from(v@, sep@, 0) == find_from(v@, sep@, i as int),
        decreases last + 1 - i,
    {
        if occurs_at_exec(v, sep, i) {
            return Some(i);
        }
        i = i + 1;
    }
    None
}

/// How a glued transition `<from><sep><to>` splits: at the first `..`, or
/// failing that at the first `:`.
pub open spec fn transition_parts(s: Seq<char>) -> Option<(Seq<char>, Seq<char>)> {
    match find_from(s, seq!['.', '.'], 0) {
        Some(i) => Some((s.subrange(0, i), s.subrange(i + 2, s.len() as int))),
        None => match find_from(s, seq![':'], 0) {
            Some(i) => Some((s.subrange(0, i), s.subrange(i + 1, s.len() as int))),
            None => None,
        },
    }
}

/// The stage pair a glued transition names, when it splits and both
/// (trimmed) halves are stage names.
pub open spec fn transition_spec(s: Seq<char>) -> Option<(Stage, Stage)> {
    match transition_parts(s) {
        Some((a, b)) => match (parse_stage_spec(trim_spec(a)), parse_stage_spec(trim_spec(b))) {
            (Some(f), Some(t)) => Some((f, t)),
            _ => None,
        },
        None => None,
    }
}

/// Parse a glued `<from>..<to>` or `<from>:<to>` transition into a stage
/// pair. (`->` is not a separator: the shell would take its `>` as a
/// redirection.)
///
/// # Errors
/// [`EinmoError::Config`] if there is no separator or either half is not
/// a stage name.
pub fn parse_transition(s: &str) -> (r: Result<(Stage, Stage), EinmoError>)
    ensures
        r matches Ok(p) ==> transition_spec(s@) == Some(p),
        r is Err ==> transition_spec(s@) is None,
        r matches Err(e) ==> e is Config,
{
    let v = chars_of(s);
    let dots = vec!['.', '.'];
    let colon = vec![':'];
    proof {
        assert(dots@ =~= seq!['.', '.']);
        assert(colon@ =~= seq![':']);
    }
    let n = v.len();
    let (a, b) = match find_first(v.as_slice(), dots.as_slice()) {
        Some(i) => {
            proof {
                assert(occurs_at(v@, dots@, i as int));
                assert(i + 2 <= n);
            }
            (string_of_range(v.as_slice(), 0, i), string_of_range(v.as_slice(), i + 2, n))
        },
        None => match find_first(v.as_slice(), colon.as_slice()) {
            Some(i) => {
                proof {
                    assert(occurs_at(v@, colon@, i as int));
                    assert(i + 1 <= n);
                }
                (string_of_range(v.as_slice(), 0, i), string_of_range(v.as_slice(), i + 1, n))
            },
            None => {
                let m1 = concat("transition \"", s);
                return Err(EinmoError::Config(concat(m1.as_str(), "\" must be `<from> to <to>` (or `<from>:<to>`).")));
            },
        },
    };
    let ta = trim(a.as_str());
    let tb = trim(b.as_str());
    let from = match Stage::parse(ta.as_str()) {
        Ok(st) => st,
        Err(e) => return Err(e),
    };
    let to = match Stage::parse(tb.as_str()) {
        Ok(st) => st,
        Err(e) => return Err(e),
    };
    Ok((from, to))
}

/// `s` is the word `to`, in any ASCII case.
pub open spec fn is_to_word(s: Seq<char>) -> bool {
    s.len() == 2 && (s[0] == 't' || s[0] == 'T') && (s[1] == 'o' || s[1] == 'O')
}

/// How promote's positional arguments read: the spaced form
/// `<from> to <to> <work_dir> [files...]`, or the glued form
/// `<transition> <work_dir> [files...]`.
pub open spec fn promote_args_spec(raw: Seq<Seq<char>>) -> Option<(Stage, Stage, Seq<char>, Seq<Seq<char>>)> {
    if raw.len() >= 3 && is_to_word(raw[1]) {
        match (parse_stage_spec(trim_spec(raw[0])), parse_stage_spec(trim_spec(raw[2]))) {
            (Some(f), Some(t)) => if raw.len() >= 4 {
                Some((f, t, raw[3], raw.subrange(4, raw.len() as int)))
            } else {
                None
            },
            _ => None,
        }
    } else {
        match transition_spec(raw[0]) {
            Some((f, t)) => if raw.len() >= 2 {
                Some((f, t, raw[1], raw.subrange(2, raw.len() as int)))
            } else {
                None
            },
            None => None,
        }
    }
}

/// A stage's name: lower-case letters only, so no whitespace to trim and
/// no separator inside.
proof fn lemma_stage_name_letters(s: Stage)
    ensures
        stage_dir_name(s).len() > 0,
        forall|i: int| 0 <= i < stage_dir_name(s).len() ==> 'a' <= #[trigger] stage_dir_name(s)[i] <= 'z',
        trim_spec(stage_dir_name(s)) == stage_dir_name(s),
        parse_stage_spec(stage_dir_name(s)) == Some(s),
{
    let n = stage_dir_name(s);
    assert forall|i: int| 0 <= i < n.len() implies 'a' <= #[trigger] n[i] <= 'z' by {
        match s {
            Stage::Output => {},
            Stage::Checked => {},
            Stage::Verified => {},
        }
    }
    assert(!is_ws(n[0]));
    assert(lead_ws(n) == 0);
    assert(n.subrange(0, n.len() as int) =~= n);
    assert(!is_ws(n.last()));
    assert(trail_ws(n) == 0);
    assert(n.subrange(0, n.len() as int) =~= n);
    lemma_stage_name_round_trip(s);
}

/// Positions with no occurrence do not change where the first one is.
proof fn lemma_find_skips(s: Seq<char>, sep: Seq<char>, j: int, k: int)
    requires
        0 <= j <= k,
        sep.len() > 0,
        forall|i: int| j <= i < k ==> !occurs_at(s, sep, i),
    ensures
        find_from(s, sep, j) == find_from(s, sep, k),
    decreases k - j,
{
    if j < k {
        if j + sep.len() > s.len() {
            assert(find_from(s, sep, k) is None);
        } else {
            lemma_find_skips(s, sep, j + 1, k);
        }
    }
}

/// The glued `<from><sep><to>` names the stages its halves name.
proof fn lemma_glued_transition(f: Stage, t: Stage, sep: Seq<char>)
    requires
        sep == seq!['.', '.'] || sep == seq![':'],
    ensures
        transition_spec(stage_dir_name(f) + sep + stage_dir_name(t)) == Some((f, t)),
{
    let a = stage_dir_name(f);
    let b = stage_dir_name(t);
    let s = a + sep + b;
    let dots = seq!['.', '.'];
    let colon = seq![':'];
    lemma_stage_name_letters(f);
    lemma_stage_name_letters(t);
    assert forall|i: int| 0 <= i < a.len() implies !occurs_at(s, dots, i) && !occurs_at(s, colon, i) by {
        assert(s[i] == a[i]);
        if occurs_at(s, dots, i) {
            assert(s.subrange(i, i + 2)[0] == s[i]);
        }
        if occurs_at(s, colon, i) {
            assert(s.subrange(i, i + 1)[0] == s[i]);
        }
    }
    if sep == dots {
        lemma_find_skips(s, dots, 0, a.len() as int);
        assert(s.subrange(a.len() as int, a.len() as int + 2) =~= dots);
        assert(find_from(s, dots, 0) == Some(a.len() as int));
        assert(s.subrange(0, a.len() as int) =~= a);
        assert(s.subrange(a.len() as int + 2, s.len() as int) =~= b);
    } else {
        assert forall|i: int| a.len() <= i < s.len() implies !occurs_at(s, dots, i) by {
            if occurs_at(s, dots, i) {
                assert(s.subrange(i, i + 2)[1] == s[i + 1]);
                assert(s[i + 1] == b[i + 1 - a.len() - 1]);
            }
        }
        lemma_find_skips(s, dots, 0, s.len() as int);
        assert(find_from(s, dots, s.len() as int) is None);
        lemma_find_skips(s, colon, 0, a.len() as int);
        assert(s.subrange(a.len() as int, a.len() as int + 1) =~= colon);
        assert(find_from(s, colon, 0) == Some(a.len() as int));
        assert(s.subrange(0, a.len() as int) =~= a);
        assert(s.subrange(a.len() as int + 1, s.len() as int) =~= b);
    }
}

/// Promote's two argument shapes agree: `<from> to <to> <dir> [files]`
/// and `<from>..<to> <dir> [files]` (or `<from>:<to>`) read as the same
/// transition, work directory and files. The glued shape is read as the
/// spaced one when its work directory is itself the word `to` and files
/// follow, so that input is left out.
pub proof fn lemma_spaced_and_glued_promote_args_agree(
    f: Stage,
    t: Stage,
    to_word: Seq<char>,
    sep: Seq<char>,
    dir: Seq<char>,
    files: Seq<Seq<char>>,
)
    requires
        is_to_word(to_word),
        sep == seq!['.', '.'] || sep == seq![':'],
        !(files.len() >= 1 && is_to_word(dir)),
    ensures
        promote_args_spec(seq![stage_dir_name(f), to_word, stage_dir_name(t), dir] + files) == Some((f, t, dir, files)),
        promote_args_spec(seq![stage_dir_name(f) + sep + stage_dir_name(t), dir] + files) == Some((f, t, dir, files)),
{
    lemma_stage_name_letters(f);
    lemma_stage_name_letters(t);
    let spaced = seq![stage_dir_name(f), to_word, stage_dir_name(t), dir] + files;
    assert(spaced[0] == stage_dir_name(f) && spaced[1] == to_word && spaced[2] == stage_dir_name(t));
    assert(spaced[3] == dir);
    assert(spaced.subrange(4, spaced.len() as int) =~= files);
    let g = stage_dir_name(f) + sep + stage_dir_name(t);
    let glued = seq![g, dir] + files;
    assert(glued[0] == g && glued[1] == dir);
    assert(glued.subrange(2, glued.len() as int) =~= files);
    lemma_glued_transition(f, t, sep);
}

/// Copies of `v[from..]`.
fn tail_strings(v: &[String], from: usize) -> (r: Vec<String>)
    requires
        from <= v@.len(),
    ensures
        strings_view(r@) == strings_view(v@).subrange(from as int, v@.len() as int),
{
    let mut out: Vec<String> = Vec::new();
    let mut i: usize = from;
    while i < v.len()
        invariant
            from <= i <= v@.len(),
            out@.len() == i - from,
            forall|k: int| 0 <= k < out@.len() ==> (#[trigger] out@[k])@ == v@[from + k]@,
        decreases v@.len() - i,
    {
        out.push(own(v[i].as_str()));
        i = i + 1;
    }
    proof {
        assert(strings_view(out@) =~= strings_view(v@).subrange(from as int, v@.len() as int));
    }
    out
}

/// Split promote's positional arguments into `(from, to, work_dir,
/// files)`, from either the spaced form (`to` in any case) or the glued
/// form.
///
/// # Errors
/// [`EinmoError::Config`] if a stage name or the transition does not
/// parse, or the work directory is missing.
pub fn split_promote_args(raw: &[String]) -> (r: Result<(Stage, Stage, String, Vec<String>), EinmoError>)
    requires
        raw@.len() >= 1,
    ensures
        r is Ok <==> promote_args_spec(strings_view(raw@)) is Some,
        r matches Ok((f, t, d, fs)) ==> promote_args_spec(strings_view(raw@)) == Some((f, t, d@, strings_view(fs@))),
        r matches Err(e) ==> e is Config,
{
    let ghost rv = strings_view(raw@);
    proof {
        assert(rv[0] == raw@[0]@);
    }
    if raw.len() >= 3 && is_to(raw[1].as_str()) {
        proof {
            assert(rv[1] == raw@[1]@ && rv[2] == raw@[2]@);
        }
        let t0 = trim(raw[0].as_str());
        let from = match Stage::parse(t0.as_str()) {
            Ok(st) => st,
            Err(e) => return Err(e),
        };
        let t2 = trim(raw[2].as_str());
        let to = match Stage::parse(t2.as_str()) {
            Ok(st) => st,
            Err(e) => return Err(e),
        };
        if raw.len() < 4 {
            return Err(EinmoError::Config(own("missing work directory after `<from> to <to>`")));
        }
        proof {
            assert(rv[3] == raw@[3]@);
        }
        let files = tail_strings(raw, 4);
        return Ok((from, to, own(raw[3].as_str()), files));
    }
    let (from, to) = match parse_transition(raw[0].as_str()) {
        Ok(p) => p,
        Err(e) => return Err(e),
    };
    if raw.len() < 2 {
        return Err(EinmoError::Config(own("missing work directory")));
    }
    proof {
        assert(rv[1] == raw@[1]@);
    }
    let files = tail_strings(raw, 2);
    Ok((from, to, own(raw[1].as_str()), files))
}

/// Whether `s` is the word `to`, in any ASCII case.
fn is_to(s: &str) -> (r: bool)
    ensures
        r == is_to_word(s@),
{
    let v = chars_of(s);
    v.len() == 2 && (v[0] == 't' || v[0] == 'T') && (v[1] == 'o' || v[1] == 'O')
}

/// The lines that are not blank (not all whitespace).
pub open spec fn nonblank(lines: Seq<Seq<char>>) -> Seq<Seq<char>>
    decreases lines.len(),
{
    if lines.len() == 0 {
        Seq::empty()
    } else {
        let p = nonblank(lines.drop_last());
        if trim_spec(lines.last()).len() > 0 {
            p.push(lines.last())
        } else {
            p
        }
    }
}

/// `files` with every `-` replaced by `ins`.
pub open spec fn expand_dashes(files: Seq<Seq<char>>, ins: Seq<Seq<char>>) -> Seq<Seq<char>>
    decreases files.len(),
{
    if files.len() == 0 {
        Seq::empty()
    } else {
        let p = expand_dashes(files.drop_last(), ins);
        if files.last() == seq!['-'] {
            p + ins
        } else {
            p.push(files.last())
        }
    }
}

/// Expand each `-` in `files` into the non-blank lines of `stdin_lines`
/// (the paths stdin supplied, one per line); other entries are kept as
/// they are, in order.
pub fn resolve_files_from_iter(files: Vec<String>, stdin_lines: Vec<String>) -> (r: Vec<String>)
    ensures
        strings_view(r@) == expand_dashes(strings_view(files@), nonblank(strings_view(stdin_lines@))),
{
    let mut ins: Vec<String> = Vec::new();
    let mut i: usize = 0;
    while i < stdin_lines.len()
        invariant
            i <= stdin_lines@.len(),
            strings_view(ins@) == nonblank(strings_view(stdin_lines@).take(i as int)),
        decreases stdin_lines@.len() - i,
    {
        let ghost pre = strings_view(stdin_lines@).take(i as int);
        let ghost now = strings_view(stdin_lines@).take(i + 1);
        proof {
            assert(now.drop_last() =~= pre);
            assert(now.last() == stdin_lines@[i as int]@);
        }
        let t = chars_of(trim(stdin_lines[i].as_str()).as_str());
        if t.len() > 0 {
            let ghost prev = ins@;
            ins.push(own(stdin_lines[i].as_str()));
            proof {
                assert(strings_view(ins@) =~= strings_view(prev).push(stdin_lines@[i as int]@));
            }
        }
        i = i + 1;
    }
    proof {
        assert(strings_view(stdin_lines@).take(stdin_lines@.len() as int) =~= strings_view(stdin_lines@));
    }
    let mut out: Vec<String> = Vec::new();
    let mut j: usize = 0;
    while j < files.len()
        invariant
            j <= files@.len(),
            strings_view(ins@) == nonblank(strings_view(stdin_lines@)),
            strings_view(out@) == expand_dashes(strings_view(files@).take(j as int), strings_view(ins@)),
        decreases files@.len() - j,
    {
        let ghost pre = strings_view(files@).take(j as int);
        let ghost now = strings_view(files@).take(j + 1);
        proof {
            assert(now.drop_last() =~= pre);
            assert(now.last() == files@[j as int]@);
            reveal_strlit("-");
        }
        let ghost prev = out@;
        proof {
            assert("-"@ =~= seq!['-']);
        }
        if crate::text::str_eq(files[j].as_str(), "-") {
            let mut k: usize = 0;
            while k < ins.len()
                invariant
                    k <= ins@.len(),
                    strings_view(out@) == strings_view(prev) + strings_view(ins@).take(k as int),
                decreases ins@.len() - k,
            {
                let ghost o = out@;
                out.push(own(ins[k].as_str()));
                proof {
                    assert(strings_view(out@) =~= strings_view(prev) + strings_view(ins@).take(k + 1)) by {
                        assert(strings_view(out@) =~= strings_view(o).push(ins@[k as int]@));
                    }
                }
                k = k + 1;
            }
            proof {
                assert(strings_view(ins@).take(ins@.len() as int) =~= strings_view(ins@));
            }
        } else {
            out.push(own(files[j].as_str()));
            proof {
                assert(strings_view(out@) =~= strings_view(prev).push(files@[j as int]@));
            }
        }
        j = j + 1;
    }
    proof {
        assert(strings_view(files@).take(files@.len() as int) =~= strings_view(files@));
    }
    out
}

/// `files`, or `None` when it is empty (so the caller walks the suite
/// instead).
pub fn files_ref(files: &[String]) -> (r: Option<&[String]>)
    ensures
        r is None <==> files@.len() == 0,
        r matches Some(x) ==> x@ == files@,
{
    if files.len() == 0 {
        None
    } else {
        Some(files)
    }
}

/// Whether flagged artifacts make `verify` fail: any flag does, unless
/// flags were downgraded to advisory.
pub fn flags_fail_the_gate(flagged_count: usize, flag_is_not_failure: bool) -> (r: bool)
    ensures
        r == (flagged_count > 0 && !flag_is_not_failure),
{
    flagged_count > 0 && !flag_is_not_failure
}

/// The body a stage holds for case `id`, when it holds a verified envelope.
pub open spec fn stage_body_spec(m: Map<ArtifactKey, Seq<u8>>, id: Seq<char>, st: Stage) -> Option<Seq<Seq<Seq<char>>>> {
    let k = key_at(id, ArtifactLocation::Stage(st));
    if m.dom().contains(k) && verifies(m[k]) {
        Some(body_pairs(file_of(m[k]).sections@, None))
    } else {
        None
    }
}

/// `list`'s notion of differing: some stage lacks a verified envelope, or
/// two neighbouring stages' bodies (every section but `STAMPS`) differ.
pub open spec fn differing_spec(m: Map<ArtifactKey, Seq<u8>>, id: Seq<char>) -> bool {
    let o = stage_body_spec(m, id, Stage::Output);
    let c = stage_body_spec(m, id, Stage::Checked);
    let v = stage_body_spec(m, id, Stage::Verified);
    o is None || c is None || v is None || o != c || c != v
}

/// Whether two bodies are the same.
fn bodies_eq(a: &VerifiedBody, b: &VerifiedBody) -> (r: bool)
    ensures
        r == (body_view(*a) == body_view(*b)),
{
    if a.sections.len() != b.sections.len() {
        proof {
            assert(body_view(*a).len() != body_view(*b).len());
        }
        return false;
    }
    let mut i: usize = 0;
    while i < a.sections.len()
        invariant
            i <= a.sections@.len(),
            a.sections@.len() == b.sections@.len(),
            forall|k: int| 0 <= k < i ==> body_view(*a)[k] == body_view(*b)[k],
        decreases a.sections@.len() - i,
    {
        let same = str_eq(a.sections[i].0.as_str(), b.sections[i].0.as_str())
            && str_eq(a.sections[i].1.as_str(), b.sections[i].1.as_str());
        if !same {
            proof {
                assert(body_view(*a)[i as int][0] == a.sections@[i as int].0@);
                assert(body_view(*a)[i as int][1] == a.sections@[i as int].1@);
                assert(body_view(*b)[i as int][0] == b.sections@[i as int].0@);
                assert(body_view(*b)[i as int][1] == b.sections@[i as int].1@);
                assert(body_view(*a)[i as int] != body_view(*b)[i as int]);
            }
            return false;
        }
        proof {
            assert(body_view(*a)[i as int] =~= body_view(*b)[i as int]);
        }
        i = i + 1;
    }
    proof {
        assert(body_view(*a) =~= body_view(*b));
    }
    true
}

/// Whether `list` shows case `id` as differing: unless every stage holds a
/// verified envelope and all three bodies are the same (a stage that fails
/// verification, or cannot be read, counts as absent).
pub fn list_differing<S: EinmoStorage>(storage: &S, id: &EinmoId) -> (r: bool)
    ensures
        differing_spec(storage.artifacts(), id@) ==> r,
        storage.infallible() ==> r == differing_spec(storage.artifacts(), id@),
{
    let o = match read_stage_body(storage, id, Stage::Output) {
        Ok(b) => b,
        Err(_) => return true,
    };
    let c = match read_stage_body(storage, id, Stage::Checked) {
        Ok(b) => b,
        Err(_) => return true,
    };
    let v = match read_stage_body(storage, id, Stage::Verified) {
        Ok(b) => b,
        Err(_) => return true,
    };
    !bodies_eq(&o, &c) || !bodies_eq(&c, &v)
}

} // verus!
