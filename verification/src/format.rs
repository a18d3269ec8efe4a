//! The `.einmo` envelope: metadata, named body sections, an unsigned
//! advisory block, and the stamp chain, serialized as a flat run of
//! length-prefixed fields (see `codec`). Any text, including newlines and
//! separators, survives a serialize/parse round trip unchanged.

use vstd::prelude::*;
use crate::codec::{
    all_width, decode_fields, decode_records, encode_fields, encode_records, fields_text,
    lemma_encode_injective, lemma_encode_records_injective, records_text, records_view,
    strings_view,
};
use crate::error::EinmoError;
use crate::signature::{stamp_record, stamp_records, Stamp, Stamps};
use crate::text::{chars_of, own, str_eq, str_from_utf8};
use vstd::slice::slice_to_vec;
use vstd::utf8::{decode_utf8, encode_utf8, valid_utf8};

verus! {

/// The outcome a generated output records.
#[derive(Debug, Clone, Copy, PartialEq, Eq, Structural)]
pub enum Status {
    /// The producer ran to completion.
    Normal,
    /// The producer crashed; the envelope is a crash crumb.
    Crashed,
}

/// The token a status is stored (and displayed) as.
pub open spec fn status_token(s: Status) -> Seq<char> {
    match s {
        Status::Normal => seq!['N', 'O', 'R', 'M', 'A', 'L'],
        Status::Crashed => seq!['C', 'R', 'A', 'S', 'H', 'E', 'D'],
    }
}

/// The status a token names, if any.
pub open spec fn parse_status_spec(t: Seq<char>) -> Option<Status> {
    if t == status_token(Status::Normal) {
        Some(Status::Normal)
    } else if t == status_token(Status::Crashed) {
        Some(Status::Crashed)
    } else {
        None
    }
}

/// Parsing a status's own token gives the status back.
pub proof fn lemma_status_round_trip(s: Status)
    ensures
        parse_status_spec(status_token(s)) == Some(s),
{
    assert(status_token(Status::Normal) != status_token(Status::Crashed)) by {
        assert(status_token(Status::Normal)[0] != status_token(Status::Crashed)[0]);
    }
}

impl Status {
    /// The status's token (`NORMAL`, `CRASHED`).
    pub fn token(&self) -> (r: &'static str)
        ensures
            r@ == status_token(*self),
    {
        proof {
            reveal_strlit("NORMAL");
            reveal_strlit("CRASHED");
        }
        match self {
            Status::Normal => "NORMAL",
            Status::Crashed => "CRASHED",
        }
    }

    /// The status as an owned string (what `Display` renders).
    pub fn to_string(&self) -> (r: String)
        ensures
            r@ == status_token(*self),
    {
        own(self.token())
    }

    /// The status a token names.
    pub fn parse(t: &str) -> (r: Option<Status>)
        ensures
            r == parse_status_spec(t@),
    {
        proof {
            reveal_strlit("NORMAL");
            reveal_strlit("CRASHED");
            assert("NORMAL"@ =~= status_token(Status::Normal));
            assert("CRASHED"@ =~= status_token(Status::Crashed));
        }
        if str_eq(t, "NORMAL") {
            Some(Status::Normal)
        } else if str_eq(t, "CRASHED") {
            Some(Status::Crashed)
        } else {
            None
        }
    }
}

/// One named body section (`INPUT`, `OUTPUT`, `COMMENTS`, `NOTE`, ...).
#[derive(Debug)]
pub struct Section {
    /// The section's name.
    pub name: String,
    /// The section's text.
    pub body: String,
}

/// A section as the two text fields the envelope stores.
pub open spec fn section_record(s: Section) -> Seq<Seq<char>> {
    seq![s.name@, s.body@]
}

/// The records of a run of sections.
pub open spec fn section_records(s: Seq<Section>) -> Seq<Seq<Seq<char>>> {
    Seq::new(s.len(), |i: int| section_record(s[i]))
}

impl Section {
    /// A section named `name` holding `body`.
    pub fn new(name: &str, body: &str) -> (r: Section)
        ensures
            r.name@ == name@,
            r.body@ == body@,
    {
        Section { name: own(name), body: own(body) }
    }

    /// The section's name.
    pub fn name(&self) -> (r: &str)
        ensures
            r@ == self.name@,
    {
        self.name.as_str()
    }

    /// The section's text.
    pub fn body(&self) -> (r: &str)
        ensures
            r@ == self.body@,
    {
        self.body.as_str()
    }

    /// A copy of this section.
    pub fn duplicate(&self) -> (r: Section)
        ensures
            section_record(r) == section_record(*self),
    {
        Section { name: self.name.clone(), body: self.body.clone() }
    }
}

/// What produced an envelope, and for which test.
#[derive(Debug)]
pub struct Metadata {
    /// The input-relative path of the test.
    pub test: String,
    /// The suite's name.
    pub suite: String,
    /// The producer's commit.
    pub producer: String,
    /// A digest of the producer's uncommitted changes, if any.
    pub producer_diff: String,
    /// When the output was generated (ISO-8601).
    pub generated: String,
    /// The producer's outcome.
    pub status: Status,
    /// Free text qualifying `status`.
    pub status_detail: String,
    /// An external reference (ticket, URL), if any.
    pub reference: String,
    /// The declared section names, in order (`STAMPS` included).
    pub sections: Vec<String>,
}

/// The fixed metadata fields, in stored order.
pub open spec fn metadata_tokens(m: Metadata) -> Seq<Seq<char>> {
    seq![
        m.test@,
        m.suite@,
        m.producer@,
        m.producer_diff@,
        m.generated@,
        status_token(m.status),
        m.status_detail@,
        m.reference@,
    ]
}

/// One `.einmo` envelope.
#[derive(Debug)]
pub struct EinmoFile {
    /// The body text encoding (`utf-8`).
    pub encoding: String,
    /// The section separator a human-facing rendering uses.
    pub separator: String,
    /// What produced the envelope.
    pub metadata: Metadata,
    /// The body sections, in order.
    pub sections: Vec<Section>,
    /// The unsigned advisory block a flag leaves, if any.
    pub advisory: Option<String>,
    /// The stamp chain.
    pub stamps: Stamps,
}

/// The format marker every envelope starts with.
pub open spec fn magic() -> Seq<char> {
    seq!['e', 'i', 'n', 'm', 'o', '/', '1']
}

/// The advisory as a list of zero or one text.
pub open spec fn advisory_list(a: Option<String>) -> Seq<Seq<char>> {
    match a {
        Some(s) => seq![s@],
        None => Seq::empty(),
    }
}

/// The fields every stamp signs over: everything but the advisory and the
/// stamps themselves.
pub open spec fn prefix_tokens(f: EinmoFile) -> Seq<Seq<char>> {
    seq![magic(), f.encoding@, f.separator@] + metadata_tokens(f.metadata) + seq![
        encode_fields(strings_view(f.metadata.sections@)),
        encode_records(section_records(f.sections@)),
    ]
}

/// Every stored field of an envelope, in order.
pub open spec fn file_tokens(f: EinmoFile) -> Seq<Seq<char>> {
    prefix_tokens(f) + seq![
        encode_fields(advisory_list(f.advisory)),
        encode_records(stamp_records(f.stamps.entries@)),
    ]
}

/// The envelope's text.
pub open spec fn render(f: EinmoFile) -> Seq<char> {
    encode_fields(file_tokens(f))
}

/// The text every stamp signs over (before its own chain context).
pub open spec fn signed_prefix_spec(f: EinmoFile) -> Seq<char> {
    encode_fields(prefix_tokens(f))
}

/// Fresh copies of a list of strings.
pub fn copy_strings(v: &Vec<String>) -> (r: Vec<String>)
    ensures
        strings_view(r@) == strings_view(v@),
{
    let mut out: Vec<String> = Vec::new();
    let mut i: usize = 0;
    while i < v.len()
        invariant
            i <= v@.len(),
            out@.len() == i,
            forall|k: int| 0 <= k < i ==> (#[trigger] out@[k])@ == v@[k]@,
        decreases v@.len() - i,
    {
        out.push(v[i].clone());
        i = i + 1;
    }
    assert(strings_view(out@) =~= strings_view(v@));
    out
}

/// The records of a run of sections, as exec values.
fn section_rows(s: &Vec<Section>) -> (r: Vec<Vec<String>>)
    ensures
        records_view(r@) == section_records(s@),
{
    let mut out: Vec<Vec<String>> = Vec::new();
    let mut i: usize = 0;
    while i < s.len()
        invariant
            i <= s@.len(),
            out@.len() == i,
            forall|k: int| 0 <= k < i ==> strings_view((#[trigger] out@[k])@) == section_record(s@[k]),
        decreases s@.len() - i,
    {
        let mut row: Vec<String> = Vec::new();
        row.push(s[i].name.clone());
        row.push(s[i].body.clone());
        assert(strings_view(row@) =~= section_record(s@[i as int]));
        out.push(row);
        i = i + 1;
    }
    assert(records_view(out@) =~= section_records(s@));
    out
}

/// The records of a run of stamps, as exec values.
pub fn stamp_rows(s: &[Stamp]) -> (r: Vec<Vec<String>>)
    ensures
        records_view(r@) == stamp_records(s@),
{
    let mut out: Vec<Vec<String>> = Vec::new();
    let mut i: usize = 0;
    while i < s.len()
        invariant
            i <= s@.len(),
            out@.len() == i,
            forall|k: int| 0 <= k < i ==> strings_view((#[trigger] out@[k])@) == stamp_record(s@[k]),
        decreases s@.len() - i,
    {
        let mut row: Vec<String> = Vec::new();
        row.push(s[i].key.clone());
        row.push(s[i].pubkey_hex.clone());
        row.push(s[i].timestamp.clone());
        row.push(s[i].signature_hex.clone());
        assert(strings_view(row@) =~= stamp_record(s@[i as int]));
        out.push(row);
        i = i + 1;
    }
    assert(records_view(out@) =~= stamp_records(s@));
    out
}

impl EinmoFile {
    /// An envelope with no advisory.
    pub fn new(encoding: &str, separator: &str, metadata: Metadata, sections: Vec<Section>, stamps: Stamps) -> (r: EinmoFile)
        ensures
            r.encoding@ == encoding@,
            r.separator@ == separator@,
            r.metadata == metadata,
            r.sections == sections,
            r.advisory is None,
            r.stamps == stamps,
    {
        EinmoFile {
            encoding: own(encoding),
            separator: own(separator),
            metadata,
            sections,
            advisory: None,
            stamps,
        }
    }

    /// What produced the envelope.
    pub fn metadata(&self) -> (r: &Metadata)
        ensures
            *r == self.metadata,
    {
        &self.metadata
    }

    /// The stamp chain.
    pub fn stamps(&self) -> (r: &Stamps)
        ensures
            *r == self.stamps,
    {
        &self.stamps
    }

    /// Replace the stamp chain.
    pub fn set_stamps(&mut self, stamps: Stamps)
        ensures
            final(self).stamps == stamps,
            prefix_tokens(*final(self)) == prefix_tokens(*old(self)),
            final(self).advisory == old(self).advisory,
            final(self).encoding == old(self).encoding,
            final(self).separator == old(self).separator,
            final(self).metadata == old(self).metadata,
            final(self).sections == old(self).sections,
    {
        self.stamps = stamps;
    }

    /// The advisory block, if any.
    pub fn advisory(&self) -> (r: Option<&str>)
        ensures
            r matches Some(a) ==> self.advisory matches Some(s) && a@ == s@,
            r is None <==> self.advisory is None,
    {
        match &self.advisory {
            Some(a) => Some(a.as_str()),
            None => None,
        }
    }

    /// Replace the advisory block. The advisory is not signed: the stamp
    /// chain and everything it signs stay as they were.
    pub fn set_advisory(&mut self, advisory: String)
        ensures
            final(self).advisory == Some(advisory),
            prefix_tokens(*final(self)) == prefix_tokens(*old(self)),
            final(self).stamps == old(self).stamps,
    {
        self.advisory = Some(advisory);
    }

    /// The first section named `name`, if any.
    pub fn section(&self, name: &str) -> (r: Option<&Section>)
        ensures
            r matches Some(s) ==> exists|i: int| 0 <= i < self.sections@.len() && self.sections@[i] == *s
                && s.name@ == name@ && forall|k: int| 0 <= k < i ==> self.sections@[k].name@ != name@,
            r is None ==> forall|k: int| 0 <= k < self.sections@.len() ==> self.sections@[k].name@ != name@,
    {
        let mut i: usize = 0;
        while i < self.sections.len()
            invariant
                i <= self.sections@.len(),
                forall|k: int| 0 <= k < i ==> self.sections@[k].name@ != name@,
            decreases self.sections@.len() - i,
        {
            if str_eq(self.sections[i].name.as_str(), name) {
                return Some(&self.sections[i]);
            }
            i = i + 1;
        }
        None
    }

    /// The signed fields, as exec values.
    fn prefix_token_list(&self) -> (r: Vec<String>)
        ensures
            strings_view(r@) == prefix_tokens(*self),
    {
        proof {
            reveal_strlit("einmo/1");
        }
        let names = copy_strings(&self.metadata.sections);
        let rows = section_rows(&self.sections);
        let mut r: Vec<String> = Vec::new();
        r.push(own("einmo/1"));
        r.push(self.encoding.clone());
        r.push(self.separator.clone());
        r.push(self.metadata.test.clone());
        r.push(self.metadata.suite.clone());
        r.push(self.metadata.producer.clone());
        r.push(self.metadata.producer_diff.clone());
        r.push(self.metadata.generated.clone());
        r.push(self.metadata.status.to_string());
        r.push(self.metadata.status_detail.clone());
        r.push(self.metadata.reference.clone());
        r.push(fields_text(&names));
        r.push(records_text(&rows));
        let ghost p = prefix_tokens(*self);
        assert(p.len() == 13);
        assert forall|k: int| 0 <= k < 13 implies (#[trigger] r@[k])@ == p[k] by {
            assert(p == seq![magic(), self.encoding@, self.separator@] + metadata_tokens(self.metadata)
                + seq![encode_fields(strings_view(self.metadata.sections@)),
                    encode_records(section_records(self.sections@))]);
        }
        assert(strings_view(r@) =~= p);
        r
    }

    /// The text every stamp signs over.
    pub fn signed_prefix(&self) -> (r: String)
        ensures
            r@ == signed_prefix_spec(*self),
    {
        fields_text(&self.prefix_token_list())
    }

    /// The envelope's text.
    pub fn to_text(&self) -> (r: String)
        ensures
            r@ == render(*self),
    {
        let mut toks = self.prefix_token_list();
        let adv: Vec<String> = match &self.advisory {
            Some(a) => vec![a.clone()],
            None => Vec::new(),
        };
        assert(strings_view(adv@) =~= advisory_list(self.advisory));
        toks.push(fields_text(&adv));
        let rows = stamp_rows(self.stamps.entries.as_slice());
        toks.push(records_text(&rows));
        assert(strings_view(toks@) =~= file_tokens(*self));
        fields_text(&toks)
    }
}

/// An envelope's text determines its content: two envelopes that render
/// to the same text agree on every stored field, so parsing what
/// `serialize` wrote gives back the same envelope.
pub proof fn lemma_render_determines_content(f: EinmoFile, g: EinmoFile)
    requires
        render(f) == render(g),
    ensures
        file_tokens(f) == file_tokens(g),
        prefix_tokens(f) == prefix_tokens(g),
        f.encoding@ == g.encoding@,
        f.separator@ == g.separator@,
        metadata_tokens(f.metadata) == metadata_tokens(g.metadata),
        f.metadata.status == g.metadata.status,
        strings_view(f.metadata.sections@) == strings_view(g.metadata.sections@),
        section_records(f.sections@) == section_records(g.sections@),
        advisory_list(f.advisory) == advisory_list(g.advisory),
        stamp_records(f.stamps.entries@) == stamp_records(g.stamps.entries@),
{
    let (a, b) = (file_tokens(f), file_tokens(g));
    lemma_encode_injective(a, b);
    assert(a[11] == b[11]);
    lemma_encode_injective(strings_view(f.metadata.sections@), strings_view(g.metadata.sections@));
    assert(a[12] == b[12]);
    lemma_encode_records_injective(section_records(f.sections@), section_records(g.sections@));
    assert(a[13] == b[13]);
    lemma_encode_injective(advisory_list(f.advisory), advisory_list(g.advisory));
    assert(a[14] == b[14]);
    lemma_encode_records_injective(stamp_records(f.stamps.entries@), stamp_records(g.stamps.entries@));
    assert(a[1] == b[1] && a[2] == b[2]);
    assert forall|k: int| 0 <= k < 8 implies metadata_tokens(f.metadata)[k] == metadata_tokens(g.metadata)[k] by {
        assert(a[k + 3] == b[k + 3]);
    }
    assert(metadata_tokens(f.metadata) =~= metadata_tokens(g.metadata));
    lemma_status_round_trip(f.metadata.status);
    lemma_status_round_trip(g.metadata.status);
    assert(prefix_tokens(f) =~= a.take(13));
    assert(prefix_tokens(g) =~= b.take(13));
}

/// The error a malformed envelope is refused with.
fn malformed() -> (e: EinmoError)
    ensures
        e matches EinmoError::Parse(m) && m@ == "malformed einmo envelope"@,
{
    EinmoError::Parse(own("malformed einmo envelope"))
}

/// Sections built from two-field records.
fn sections_from_rows(rows: &Vec<Vec<String>>) -> (r: Vec<Section>)
    requires
        all_width(records_view(rows@), 2),
    ensures
        section_records(r@) == records_view(rows@),
{
    let mut out: Vec<Section> = Vec::new();
    let mut j: usize = 0;
    while j < rows.len()
        invariant
            j <= rows@.len(),
            all_width(records_view(rows@), 2),
            out@.len() == j,
            forall|k: int| 0 <= k < j ==> section_record(#[trigger] out@[k]) == records_view(rows@)[k],
        decreases rows@.len() - j,
    {
        assert(records_view(rows@)[j as int].len() == 2);
        let row = &rows[j];
        let sec = Section { name: row[0].clone(), body: row[1].clone() };
        assert(section_record(sec) =~= records_view(rows@)[j as int]);
        out.push(sec);
        j = j + 1;
    }
    assert(section_records(out@) =~= records_view(rows@));
    out
}

/// Stamps built from four-field records.
fn stamps_from_rows(rows: &Vec<Vec<String>>) -> (r: Vec<Stamp>)
    requires
        all_width(records_view(rows@), 4),
    ensures
        stamp_records(r@) == records_view(rows@),
{
    let mut out: Vec<Stamp> = Vec::new();
    let mut j: usize = 0;
    while j < rows.len()
        invariant
            j <= rows@.len(),
            all_width(records_view(rows@), 4),
            out@.len() == j,
            forall|k: int| 0 <= k < j ==> stamp_record(#[trigger] out@[k]) == records_view(rows@)[k],
        decreases rows@.len() - j,
    {
        assert(records_view(rows@)[j as int].len() == 4);
        let row = &rows[j];
        let st = Stamp {
            key: row[0].clone(),
            pubkey_hex: row[1].clone(),
            timestamp: row[2].clone(),
            signature_hex: row[3].clone(),
        };
        assert(stamp_record(st) =~= records_view(rows@)[j as int]);
        out.push(st);
        j = j + 1;
    }
    assert(stamp_records(out@) =~= records_view(rows@));
    out
}

/// The envelope whose stored fields are `ts`, if there is one.
fn from_tokens(ts: &Vec<String>) -> (r: Option<EinmoFile>)
    ensures
        r matches Some(f) ==> file_tokens(f) == strings_view(ts@),
        forall|f: EinmoFile| #[trigger] file_tokens(f) == strings_view(ts@) ==> r is Some,
{
    proof {
        reveal_strlit("einmo/1");
        assert("einmo/1"@ =~= magic());
    }
    let ghost tv = strings_view(ts@);
    if ts.len() != 15 || !str_eq(ts[0].as_str(), "einmo/1") {
        proof {
            assert forall|f: EinmoFile| #[trigger] file_tokens(f) == tv implies false by {
                assert(file_tokens(f).len() == 15);
                assert(file_tokens(f)[0] == magic());
                assert(tv[0] == ts@[0]@);
            }
        }
        return None;
    }
    assert forall|k: int| 0 <= k < 15 implies #[trigger] tv[k] == ts@[k]@ by {}
    let status = Status::parse(ts[8].as_str());
    let names = decode_fields(chars_of(ts[11].as_str()).as_slice());
    let secs = decode_records(chars_of(ts[12].as_str()).as_slice(), 2);
    let adv = decode_fields(chars_of(ts[13].as_str()).as_slice());
    let sts = decode_records(chars_of(ts[14].as_str()).as_slice(), 4);
    let ok = match (&status, &names, &secs, &adv, &sts) {
        (Some(_), Some(_), Some(_), Some(a), Some(_)) => a.len() <= 1,
        _ => false,
    };
    if !ok {
        proof {
            assert forall|f: EinmoFile| #[trigger] file_tokens(f) == tv implies false by {
                let ft = file_tokens(f);
                assert(ft[8] == status_token(f.metadata.status));
                lemma_status_round_trip(f.metadata.status);
                assert(ft[11] == encode_fields(strings_view(f.metadata.sections@)));
                assert(ft[12] == encode_records(section_records(f.sections@)));
                assert(ft[13] == encode_fields(advisory_list(f.advisory)));
                assert(ft[14] == encode_records(stamp_records(f.stamps.entries@)));
                assert(all_width(section_records(f.sections@), 2));
                assert(all_width(stamp_records(f.stamps.entries@), 4));
            }
        }
        return None;
    }
    let status = status.unwrap();
    let names = names.unwrap();
    let secs = secs.unwrap();
    let adv = adv.unwrap();
    let sts = sts.unwrap();
    let advisory = if adv.len() == 0 {
        None
    } else {
        Some(adv[0].clone())
    };
    assert(advisory_list(advisory) =~= strings_view(adv@));
    let sections = sections_from_rows(&secs);
    let stamps = Stamps { entries: stamps_from_rows(&sts) };
    let metadata = Metadata {
        test: ts[3].clone(),
        suite: ts[4].clone(),
        producer: ts[5].clone(),
        producer_diff: ts[6].clone(),
        generated: ts[7].clone(),
        status,
        status_detail: ts[9].clone(),
        reference: ts[10].clone(),
        sections: names,
    };
    let f = EinmoFile {
        encoding: ts[1].clone(),
        separator: ts[2].clone(),
        metadata,
        sections,
        advisory,
        stamps,
    };
    proof {
        assert(ts@[8]@ == status_token(status));
        let ft = file_tokens(f);
        assert(ft[0] == tv[0]);
        assert(ft[11] == tv[11]);
        assert(ft[12] == tv[12]);
        assert(ft[13] == tv[13]);
        assert(ft[14] == tv[14]);
        assert(ft =~= tv);
    }
    Some(f)
}

impl EinmoFile {
    /// Parse an envelope's text.
    ///
    /// # Errors
    /// [`EinmoError::Parse`] for any text that is not the rendering of an
    /// envelope.
    pub fn parse_text(text: &str) -> (r: Result<EinmoFile, EinmoError>)
        ensures
            r matches Ok(f) ==> render(f) == text@,
            forall|f: EinmoFile| #[trigger] render(f) == text@ ==> r is Ok,
            r matches Err(e) ==> e is Parse,
    {
        let c = chars_of(text);
        let ts = match decode_fields(c.as_slice()) {
            Some(ts) => ts,
            None => return Err(malformed()),
        };
        match from_tokens(&ts) {
            Some(f) => Ok(f),
            None => Err(malformed()),
        }
    }

    /// Parse an envelope's bytes (UTF-8 text).
    ///
    /// # Errors
    /// [`EinmoError::Parse`] for any bytes that are not the serialization
    /// of an envelope.
    pub fn parse(bytes: &[u8]) -> (r: Result<EinmoFile, EinmoError>)
        ensures
            r matches Ok(f) ==> encode_utf8(render(f)) == bytes@,
            forall|f: EinmoFile| #[trigger] encode_utf8(render(f)) == bytes@ ==> r is Ok,
            r matches Err(e) ==> e is Parse,
    {
        proof {
            broadcast use vstd::utf8::group_utf8_lib;
        }
        match str_from_utf8(bytes) {
            Some(text) => {
                let r = EinmoFile::parse_text(text.as_str());
                proof {
                    assert forall|f: EinmoFile| #[trigger] encode_utf8(render(f)) == bytes@ implies r is Ok by {
                        assert(decode_utf8(encode_utf8(render(f))) == render(f));
                    }
                }
                r
            },
            None => {
                proof {
                    assert forall|f: EinmoFile| #[trigger] encode_utf8(render(f)) == bytes@ implies false by {
                        assert(valid_utf8(encode_utf8(render(f))));
                    }
                }
                Err(malformed())
            },
        }
    }

    /// The envelope's bytes (its text, UTF-8 encoded).
    ///
    /// # Errors
    /// None: every envelope serializes.
    pub fn serialize(&self) -> (r: Result<Vec<u8>, EinmoError>)
        ensures
            r matches Ok(b) && b@ == encode_utf8(render(*self)),
    {
        let text = self.to_text();
        let b = text.as_str().as_bytes();
        Ok(slice_to_vec(b))
    }
}

} // verus!
