//! Section-aware comparison of two envelopes under a [`MatchSections`]
//! policy, and the body-section view promotion compares exactly.

use vstd::prelude::*;
use crate::codec::records_view;
use crate::format::{section_record, EinmoFile, Section};
use crate::text::{own, str_eq};

verus! {

/// Which sections two envelopes must agree on to count as the same.
#[derive(Debug, Clone, Copy, PartialEq, Eq, Structural)]
pub enum MatchSections {
    /// `INPUT` and `OUTPUT`.
    InputOutput,
    /// `INPUT`, `OUTPUT` and `COMMENTS`.
    InputOutputComments,
}

/// The section names a policy requires to agree, in order.
pub open spec fn required_sections(p: MatchSections) -> Seq<Seq<char>> {
    match p {
        MatchSections::InputOutput => seq![seq!['I', 'N', 'P', 'U', 'T'], seq!['O', 'U', 'T', 'P', 'U', 'T']],
        MatchSections::InputOutputComments => seq![
            seq!['I', 'N', 'P', 'U', 'T'],
            seq!['O', 'U', 'T', 'P', 'U', 'T'],
            seq!['C', 'O', 'M', 'M', 'E', 'N', 'T', 'S'],
        ],
    }
}

/// The body of the first section named `name`, if any.
pub open spec fn first_body(secs: Seq<Section>, name: Seq<char>) -> Option<Seq<char>>
    decreases secs.len(),
{
    if secs.len() == 0 {
        None
    } else if secs[0].name@ == name {
        Some(secs[0].body@)
    } else {
        first_body(secs.drop_first(), name)
    }
}

/// The names among `names` on which the two section lists disagree, in
/// order.
pub open spec fn diverged(a: Seq<Section>, b: Seq<Section>, names: Seq<Seq<char>>) -> Seq<Seq<char>>
    decreases names.len(),
{
    if names.len() == 0 {
        Seq::empty()
    } else {
        let p = diverged(a, b, names.drop_last());
        if first_body(a, names.last()) != first_body(b, names.last()) {
            p.push(names.last())
        } else {
            p
        }
    }
}

/// The name of the pseudo-section that holds the stamps.
pub open spec fn stamps_section_name() -> Seq<char> {
    seq!['S', 'T', 'A', 'M', 'P', 'S']
}

/// The body sections (every section but `STAMPS`), optionally only those
/// named `only`, as `(name, body)` records, in order.
pub open spec fn body_pairs(secs: Seq<Section>, only: Option<Seq<char>>) -> Seq<Seq<Seq<char>>>
    decreases secs.len(),
{
    if secs.len() == 0 {
        Seq::empty()
    } else {
        let p = body_pairs(secs.drop_last(), only);
        let s = secs.last();
        if s.name@ != stamps_section_name() && (only matches Some(n) ==> s.name@ == n) {
            p.push(section_record(s))
        } else {
            p
        }
    }
}

/// Section lists that store the same records read the same everywhere.
pub proof fn lemma_same_sections(a: Seq<Section>, b: Seq<Section>, o: Option<Seq<char>>, names: Seq<Seq<char>>, c: Seq<Section>)
    requires
        crate::format::section_records(a) == crate::format::section_records(b),
    ensures
        body_pairs(a, o) == body_pairs(b, o),
        diverged(a, c, names) == diverged(b, c, names),
        diverged(c, a, names) == diverged(c, b, names),
    decreases a.len(),
{
    let (ra, rb) = (crate::format::section_records(a), crate::format::section_records(b));
    assert(ra.len() == a.len());
    assert(rb.len() == b.len());
    assert(a.len() == b.len());
    assert forall|i: int| 0 <= i < a.len() implies a[i].name@ == b[i].name@ && a[i].body@ == b[i].body@ by {
        assert(crate::format::section_records(a)[i] == crate::format::section_records(b)[i]);
        assert(section_record(a[i])[0] == section_record(b[i])[0]);
        assert(section_record(a[i])[1] == section_record(b[i])[1]);
    }
    if a.len() > 0 {
        assert(crate::format::section_records(a.drop_last()) =~= crate::format::section_records(b.drop_last()));
        lemma_same_sections(a.drop_last(), b.drop_last(), o, Seq::empty(), c);
        assert(section_record(a.last()) =~= section_record(b.last()));
    }
    assert forall|n: Seq<char>| first_body(a, n) == first_body(b, n) by {
        lemma_first_body_same(a, b, n);
    }
    lemma_diverged_same(a, b, c, names);
}

proof fn lemma_first_body_same(a: Seq<Section>, b: Seq<Section>, n: Seq<char>)
    requires
        a.len() == b.len(),
        forall|i: int| 0 <= i < a.len() ==> a[i].name@ == b[i].name@ && a[i].body@ == b[i].body@,
    ensures
        first_body(a, n) == first_body(b, n),
    decreases a.len(),
{
    if a.len() > 0 {
        assert(a[0].name@ == b[0].name@ && a[0].body@ == b[0].body@);
        lemma_first_body_same(a.drop_first(), b.drop_first(), n);
    }
}

proof fn lemma_diverged_same(a: Seq<Section>, b: Seq<Section>, c: Seq<Section>, names: Seq<Seq<char>>)
    requires
        forall|n: Seq<char>| first_body(a, n) == first_body(b, n),
    ensures
        diverged(a, c, names) == diverged(b, c, names),
        diverged(c, a, names) == diverged(c, b, names),
    decreases names.len(),
{
    if names.len() > 0 {
        lemma_diverged_same(a, b, c, names.drop_last());
        assert(first_body(a, names.last()) == first_body(b, names.last()));
    }
}

impl MatchSections {
    /// The section names this policy requires to agree.
    pub fn required(&self) -> (r: Vec<String>)
        ensures
            crate::codec::strings_view(r@) == required_sections(*self),
    {
        proof {
            reveal_strlit("INPUT");
            reveal_strlit("OUTPUT");
            reveal_strlit("COMMENTS");
        }
        assert("INPUT"@ =~= seq!['I', 'N', 'P', 'U', 'T']);
        assert("OUTPUT"@ =~= seq!['O', 'U', 'T', 'P', 'U', 'T']);
        assert("COMMENTS"@ =~= seq!['C', 'O', 'M', 'M', 'E', 'N', 'T', 'S']);
        let mut r: Vec<String> = Vec::new();
        r.push(own("INPUT"));
        r.push(own("OUTPUT"));
        if let MatchSections::InputOutputComments = self {
            r.push(own("COMMENTS"));
        }
        assert(crate::codec::strings_view(r@) =~= required_sections(*self));
        r
    }
}

/// The body of the first section of `secs` named `name`.
fn find_body<'a>(secs: &'a [Section], name: &str) -> (r: Option<&'a str>)
    ensures
        r matches Some(b) ==> first_body(secs@, name@) == Some(b@),
        r is None ==> first_body(secs@, name@) is None,
{
    let mut i: usize = 0;
    assert(secs@.skip(0) =~= secs@);
    while i < secs.len()
        invariant
            i <= secs@.len(),
            first_body(secs@, name@) == first_body(secs@.skip(i as int), name@),
        decreases secs@.len() - i,
    {
        assert(secs@.skip(i as int)[0] == secs@[i as int]);
        if str_eq(secs[i].name.as_str(), name) {
            return Some(secs[i].body.as_str());
        }
        assert(secs@.skip(i as int).drop_first() =~= secs@.skip(i + 1));
        i = i + 1;
    }
    None
}

/// The sections required by `policy` on which `a` and `b` disagree (a
/// section missing on one side disagrees with one present on the other).
pub fn compare_sections(a: &EinmoFile, b: &EinmoFile, policy: MatchSections) -> (r: Vec<String>)
    ensures
        crate::codec::strings_view(r@) == diverged(a.sections@, b.sections@, required_sections(policy)),
{
    let names = policy.required();
    let ghost req = required_sections(policy);
    let mut out: Vec<String> = Vec::new();
    let mut i: usize = 0;
    while i < names.len()
        invariant
            i <= names@.len(),
            crate::codec::strings_view(names@) == req,
            crate::codec::strings_view(out@) == diverged(a.sections@, b.sections@, req.take(i as int)),
        decreases names@.len() - i,
    {
        let x = find_body(a.sections.as_slice(), names[i].as_str());
        let y = find_body(b.sections.as_slice(), names[i].as_str());
        let same = match (x, y) {
            (Some(p), Some(q)) => str_eq(p, q),
            (None, None) => true,
            _ => false,
        };
        let ghost prev = crate::codec::strings_view(out@);
        proof {
            assert(req.take(i + 1).drop_last() =~= req.take(i as int));
            assert(req.take(i + 1).last() == names@[i as int]@);
        }
        if !same {
            out.push(names[i].clone());
            assert(crate::codec::strings_view(out@) =~= prev.push(names@[i as int]@));
        }
        i = i + 1;
    }
    assert(req.take(i as int) =~= req);
    out
}

/// An optional string's characters.
pub open spec fn opt_chars(o: Option<&str>) -> Option<Seq<char>> {
    match o {
        Some(n) => Some(n@),
        None => None,
    }
}

/// The envelope's body sections as `(name, body)` pairs: every section but
/// `STAMPS`, or only those named `only`.
pub fn body_sections(file: &EinmoFile, only: Option<&str>) -> (r: Vec<(String, String)>)
    ensures
        r@.len() == body_pairs(file.sections@, opt_chars(only)).len(),
        forall|i: int| 0 <= i < r@.len() ==> seq![(#[trigger] r@[i]).0@, r@[i].1@]
            == body_pairs(file.sections@, opt_chars(only))[i],
{
    proof {
        reveal_strlit("STAMPS");
        assert("STAMPS"@ =~= stamps_section_name());
    }
    let ghost secs = file.sections@;
    let mut out: Vec<(String, String)> = Vec::new();
    let mut i: usize = 0;
    while i < file.sections.len()
        invariant
            i <= secs.len(),
            secs == file.sections@,
            out@.len() == body_pairs(secs.take(i as int), opt_chars(only)).len(),
            forall|k: int| 0 <= k < out@.len() ==> seq![(#[trigger] out@[k]).0@, out@[k].1@]
                == body_pairs(secs.take(i as int), opt_chars(only))[k],
        decreases secs.len() - i,
    {
        let s = &file.sections[i];
        let not_stamps = !str_eq(s.name.as_str(), "STAMPS");
        let named = match only {
            Some(n) => str_eq(s.name.as_str(), n),
            None => true,
        };
        let keep = not_stamps && named;
        let ghost prev = out@;
        let ghost bp = body_pairs(secs.take(i as int), opt_chars(only));
        proof {
            reveal_strlit("STAMPS");
            assert("STAMPS"@ =~= stamps_section_name());
            assert(not_stamps == (secs[i as int].name@ != stamps_section_name()));
            assert(secs.take(i + 1).drop_last() =~= secs.take(i as int));
            assert(secs.take(i + 1).last() == secs[i as int]);
            assert(named == (opt_chars(only) matches Some(n) ==> secs[i as int].name@ == n));
        }
        if keep {
            out.push((s.name.clone(), s.body.clone()));
            proof {
                assert(body_pairs(secs.take(i + 1), opt_chars(only)) == bp.push(section_record(secs[i as int])));
                assert forall|k: int| 0 <= k < out@.len() implies seq![(#[trigger] out@[k]).0@, out@[k].1@]
                    == body_pairs(secs.take(i + 1), opt_chars(only))[k] by {
                    if k < prev.len() {
                        assert(out@[k] == prev[k]);
                    } else {
                        assert(section_record(secs[i as int]) =~= seq![out@[k].0@, out@[k].1@]);
                    }
                }
            }
        } else {
            assert(body_pairs(secs.take(i + 1), opt_chars(only)) == bp);
        }
        i = i + 1;
    }
    assert(secs.take(i as int) =~= secs);
    out
}

} // verus!
