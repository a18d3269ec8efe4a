//! The review server's data model and decisions, apart from HTTP: session
//! handles as 16-digit hex, how each error maps to a status code, the
//! request and response shapes and how they convert to and from the
//! review's own types, and when `execute` may run.

use vstd::prelude::*;
use crate::config::KeySource;
use crate::error::{error_message, EinmoError};
use crate::review::{
    ActiveClaim, Decision, DiffLine, ExecutionPlan, ExecutionReport, PlannedAction, ReviewItem, SectionDiff, SignerSet,
    DEFAULT_CLAIM_TTL_MS,
};
use crate::review_cli::{decision_tag, decision_tag_spec, plan_promotes};
use crate::stage::{stage_dir_name, Stage};
use crate::text::{chars_of, concat, own, str_eq, string_of};
use crate::numtext::char_of_digit;

verus! {

/// A session handle: shown as 16 lowercase hex digits.
#[derive(Debug, Clone, Copy, PartialEq, Eq, Hash, Structural)]
pub struct SessionId(pub u64);

/// The hex digit of `d` (below 16), lowercase.
pub open spec fn hex_digit(d: int) -> char {
    if d < 10 {
        ((48 + d) as u32) as char
    } else {
        ((87 + d) as u32) as char
    }
}

/// The last `n` hex digits of `v`, most significant first.
pub open spec fn hex_digits(v: nat, n: nat) -> Seq<char>
    decreases n,
{
    if n == 0 {
        Seq::empty()
    } else {
        hex_digits(v / 16, (n - 1) as nat).push(hex_digit((v % 16) as int))
    }
}

/// The value of a hex digit, if `c` is one (either case).
pub open spec fn hex_value(c: char) -> Option<nat> {
    if '0' <= c && c <= '9' {
        Some((c as nat - 48) as nat)
    } else if 'a' <= c && c <= 'f' {
        Some((c as nat - 87) as nat)
    } else if 'A' <= c && c <= 'F' {
        Some((c as nat - 55) as nat)
    } else {
        None
    }
}

/// The number the hex digits `s` spell, if they all are hex digits.
pub open spec fn hex_number(s: Seq<char>) -> Option<nat>
    decreases s.len(),
{
    if s.len() == 0 {
        Some(0)
    } else {
        match (hex_number(s.drop_last()), hex_value(s.last())) {
            (Some(p), Some(d)) => Some(p * 16 + d),
            _ => None,
        }
    }
}

/// What `u64::from_str_radix(s, 16)` accepts: an optional `+`, then one or
/// more hex digits whose value fits in 64 bits.
pub open spec fn parsed_session(s: Seq<char>) -> Option<u64> {
    let digits = if s.len() > 0 && s[0] == '+' { s.drop_first() } else { s };
    if digits.len() == 0 {
        None
    } else {
        match hex_number(digits) {
            Some(v) => if v <= u64::MAX { Some(v as u64) } else { None },
            None => None,
        }
    }
}

impl SessionId {
    /// The handle as 16 lowercase hex digits.
    pub fn to_hex(&self) -> (r: String)
        ensures
            r@ == hex_digits(self.0 as nat, 16),
    {
        let mut digits: Vec<char> = Vec::new();
        let mut v: u64 = self.0;
        let mut k: usize = 0;
        proof {
            assert(pow16(0) == 1);
        }
        while k < 16
            invariant
                k <= 16,
                digits@.len() == k,
                v as nat == (self.0 as nat) / pow16(k as nat),
                forall|i: int| 0 <= i < k ==> digits@[i] == hex_digits(self.0 as nat, 16)[15 - i],
            decreases 16 - k,
        {
            let d = (v % 16) as usize;
            let c = if d < 10 { char_of_digit(d) } else { hex_letter(d) };
            proof {
                lemma_hex_digit_at(self.0 as nat, k as nat);
            }
            digits.push(c);
            v = v / 16;
            proof {
                lemma_pow16_div(self.0 as nat, k as nat);
            }
            k = k + 1;
        }
        let mut out: Vec<char> = Vec::new();
        let mut j: usize = 16;
        while j > 0
            invariant
                j <= 16,
                digits@.len() == 16,
                out@.len() == 16 - j,
                forall|i: int| 0 <= i < digits@.len() ==> digits@[i] == hex_digits(self.0 as nat, 16)[15 - i],
                forall|i: int| 0 <= i < out@.len() ==> out@[i] == hex_digits(self.0 as nat, 16)[i],
            decreases j,
        {
            j = j - 1;
            out.push(digits[j]);
        }
        proof {
            lemma_hex_digits_len(self.0 as nat, 16);
            assert(out@ =~= hex_digits(self.0 as nat, 16));
        }
        string_of(out.as_slice())
    }

    /// Read a handle back from hex (an optional `+`, then hex digits of
    /// either case).
    pub fn parse_hex(s: &str) -> (r: Option<SessionId>)
        ensures
            r is Some <==> parsed_session(s@) is Some,
            r matches Some(id) ==> parsed_session(s@) == Some(id.0),
    {
        let v = chars_of(s);
        let start: usize = if v.len() > 0 && v[0] == '+' { 1 } else { 0 };
        let ghost digits = if s@.len() > 0 && s@[0] == '+' { s@.drop_first() } else { s@ };
        proof {
            assert(digits =~= v@.skip(start as int));
        }
        if start == v.len() {
            return None;
        }
        let mut acc: u64 = 0;
        let mut i: usize = start;
        while i < v.len()
            invariant
                start <= i <= v@.len(),
                v@ == s@,
                digits == v@.skip(start as int),
                digits == (if s@.len() > 0 && s@[0] == '+' { s@.drop_first() } else { s@ }),
                digits.len() > 0,
                hex_number(digits.take(i - start)) == Some(acc as nat),
            decreases v@.len() - i,
        {
            let ghost pre = digits.take(i - start);
            let ghost now = digits.take(i + 1 - start);
            proof {
                assert(now.drop_last() =~= pre);
                assert(now.last() == v@[i as int]);
            }
            let c = v[i];
            proof {
                assert(digits[i - start] == c);
                assert(now.last() == c);
            }
            let d: u64 = if '0' <= c && c <= '9' {
                (c as u64) - 48
            } else if 'a' <= c && c <= 'f' {
                (c as u64) - 87
            } else if 'A' <= c && c <= 'F' {
                (c as u64) - 55
            } else {
                proof {
                    lemma_hex_number_none(digits, i + 1 - start);
                }
                return None;
            };
            proof {
                assert(hex_value(c) == Some(d as nat));
                assert(hex_number(now) == Some(acc as nat * 16 + d as nat));
            }
            if acc > (u64::MAX - d) / 16 {
                proof {
                    assert(acc * 16 + d > u64::MAX) by (nonlinear_arith)
                        requires acc > (u64::MAX - d) / 16, d < 16;
                    lemma_hex_number_grows(digits, i + 1 - start);
                }
                return None;
            }
            proof {
                assert(acc * 16 + d <= u64::MAX) by (nonlinear_arith)
                    requires acc <= (u64::MAX - d) / 16, d < 16;
            }
            acc = acc * 16 + d;
            i = i + 1;
        }
        proof {
            assert(digits.take(v@.len() - start) =~= digits);
        }
        Some(SessionId(acc))
    }
}

/// `16^n`.
pub open spec fn pow16(n: nat) -> nat
    decreases n,
{
    if n == 0 {
        1
    } else {
        16 * pow16((n - 1) as nat)
    }
}

proof fn lemma_hex_digits_len(v: nat, n: nat)
    ensures
        hex_digits(v, n).len() == n,
    decreases n,
{
    if n > 0 {
        lemma_hex_digits_len(v / 16, (n - 1) as nat);
    }
}

proof fn lemma_pow16_div(v: nat, k: nat)
    ensures
        v / pow16(k) / 16 == v / pow16(k + 1),
        pow16(k) > 0,
    decreases k,
{
    if k > 0 {
        lemma_pow16_div(v, (k - 1) as nat);
    }
    assert(pow16(k + 1) == 16 * pow16(k));
    vstd::arithmetic::div_mod::lemma_div_denominator(v as int, pow16(k) as int, 16);
    assert(pow16(k) * 16 == 16 * pow16(k)) by (nonlinear_arith);
}

/// The digit `hex_digit` writes for `d < 16` reads back as `d`.
proof fn lemma_hex_value_of_digit(d: nat)
    requires
        d < 16,
    ensures
        hex_value(hex_digit(d as int)) == Some(d),
{
    if d < 10 {
        assert(((48 + d) as u32) as nat == 48 + d);
    } else {
        assert(((87 + d) as u32) as nat == 87 + d);
    }
}

/// The `n` low hex digits of `v` spell `v` modulo `16^n`.
proof fn lemma_hex_number_of_digits(v: nat, n: nat)
    ensures
        hex_number(hex_digits(v, n)) == Some(v % pow16(n)),
    decreases n,
{
    if n == 0 {
        assert(hex_digits(v, 0) =~= Seq::<char>::empty());
    } else {
        let m = (n - 1) as nat;
        lemma_hex_number_of_digits(v / 16, m);
        let s = hex_digits(v, n);
        assert(s.drop_last() =~= hex_digits(v / 16, m));
        lemma_hex_value_of_digit(v % 16);
        lemma_pow16_div(v, 0);
        let p = pow16(m);
        assert(p > 0) by {
            lemma_pow16_div(v, m);
        }
        assert(pow16(n) == 16 * p);
        assert(((v / 16) % p) * 16 + v % 16 == v % (16 * p)) by {
            vstd::arithmetic::div_mod::lemma_breakdown(v as int, 16, p as int);
            assert(((v / 16) % p) * 16 == 16 * ((v / 16) % p)) by (nonlinear_arith);
            assert(16 * p == p * 16) by (nonlinear_arith);
        }
    }
}

/// A session id reads back from the hex it is shown as: parsing
/// [`SessionId::to_hex`]'s digits gives the same id.
pub proof fn lemma_session_id_round_trip(id: SessionId)
    ensures
        parsed_session(hex_digits(id.0 as nat, 16)) == Some(id.0),
{
    let v = id.0 as nat;
    lemma_hex_number_of_digits(v, 16);
    lemma_hex_digits_len(v, 16);
    assert(pow16(16) == 0x1_0000_0000_0000_0000) by {
        reveal_with_fuel(pow16, 17);
    }
    assert(v % pow16(16) == v);
    let s = hex_digits(v, 16);
    if s.len() > 0 && s[0] == '+' {
        assert(hex_value(s[0]) is None);
        assert(false) by {
            lemma_hex_digit_at(v, 15);
            lemma_hex_value_of_digit(((v / pow16(15)) % 16));
        }
    }
}

/// Digit `15 - k` of the 16 is the `k`-th least significant one.
proof fn lemma_hex_digit_at(v: nat, k: nat)
    requires
        k < 16,
    ensures
        hex_digits(v, 16)[15 - k] == hex_digit(((v / pow16(k)) % 16) as int),
{
    lemma_hex_digit_at_n(v, 16, k);
}

proof fn lemma_hex_digit_at_n(v: nat, n: nat, k: nat)
    requires
        k < n,
    ensures
        hex_digits(v, n)[n - 1 - k] == hex_digit(((v / pow16(k)) % 16) as int),
    decreases n,
{
    lemma_hex_digits_len(v / 16, (n - 1) as nat);
    if k == 0 {
        assert(pow16(0) == 1);
        assert(v / pow16(0) == v);
    } else {
        lemma_hex_digit_at_n(v / 16, (n - 1) as nat, (k - 1) as nat);
        lemma_pow16_div(v, 0);
        lemma_pow16_div(v, (k - 1) as nat);
        vstd::arithmetic::div_mod::lemma_div_denominator(v as int, 16, pow16((k - 1) as nat) as int);
        assert(16 * pow16((k - 1) as nat) == pow16(k));
    }
}

/// A non-digit anywhere makes the number undefined.
proof fn lemma_hex_number_none(s: Seq<char>, n: int)
    requires
        0 < n <= s.len(),
        hex_value(s[n - 1]) is None,
    ensures
        hex_number(s) is None,
    decreases s.len(),
{
    if n < s.len() {
        lemma_hex_number_none(s.drop_last(), n);
        assert(s.drop_last()[n - 1] == s[n - 1]);
    }
}

/// Once a prefix's value exceeds 64 bits, the whole number does.
proof fn lemma_hex_number_grows(s: Seq<char>, n: int)
    requires
        0 < n <= s.len(),
        hex_number(s.take(n)) matches Some(v) && v > u64::MAX,
    ensures
        !(hex_number(s) matches Some(v) && v <= u64::MAX),
    decreases s.len() - n,
{
    if n < s.len() {
        let t = s.take(n + 1);
        assert(t.drop_last() =~= s.take(n));
        if let Some(w) = hex_number(t) {
            assert(w >= hex_number(s.take(n)).unwrap() * 16);
        }
        if hex_number(t) is None {
            lemma_none_extends(s, n + 1);
        } else {
            lemma_hex_number_grows(s, n + 1);
        }
    } else {
        assert(s.take(n) =~= s);
    }
}

/// A prefix with no value gives the whole sequence no value.
proof fn lemma_none_extends(s: Seq<char>, n: int)
    requires
        0 < n <= s.len(),
        hex_number(s.take(n)) is None,
    ensures
        hex_number(s) is None,
    decreases s.len() - n,
{
    if n < s.len() {
        assert(s.take(n + 1).drop_last() =~= s.take(n));
        lemma_none_extends(s, n + 1);
    } else {
        assert(s.take(n) =~= s);
    }
}

/// The lowercase hex letter of `d` (10 to 15).
fn hex_letter(d: usize) -> (c: char)
    requires
        10 <= d < 16,
    ensures
        c == hex_digit(d as int),
{
    if d == 10 {
        'a'
    } else if d == 11 {
        'b'
    } else if d == 12 {
        'c'
    } else if d == 13 {
        'd'
    } else if d == 14 {
        'e'
    } else {
        'f'
    }
}

/// An error a request is answered with.
#[derive(Debug, Clone, PartialEq, Eq)]
pub enum ApiError {
    /// No session has that handle.
    UnknownSession(SessionId),
    /// The session's worklist has no such case.
    UnknownCase(String),
    /// The request itself is unacceptable.
    BadRequest(String),
    /// The review refused or failed.
    Einmo(EinmoError),
}

/// The HTTP status each error is answered with: 404 for an unknown session
/// or case and for a missing artifact, 400 for a bad request, an invalid
/// id, a missing key or a configuration error, 422 for a verification
/// failure, 500 otherwise.
pub open spec fn status_spec(e: ApiError) -> u16 {
    match e {
        ApiError::UnknownSession(_) => 404,
        ApiError::UnknownCase(_) => 404,
        ApiError::BadRequest(_) => 400,
        ApiError::Einmo(EinmoError::InvalidId(_)) => 400,
        ApiError::Einmo(EinmoError::NoKey(_)) => 400,
        ApiError::Einmo(EinmoError::Config(_)) => 400,
        ApiError::Einmo(EinmoError::Verification(_)) => 422,
        ApiError::Einmo(EinmoError::Io { not_found, .. }) => if not_found { 404 } else { 500 },
        ApiError::Einmo(_) => 500,
    }
}

/// The message each error is answered with.
pub open spec fn api_message_spec(e: ApiError) -> Seq<char> {
    match e {
        ApiError::UnknownSession(id) => "no such session: "@ + hex_digits(id.0 as nat, 16),
        ApiError::UnknownCase(c) => "no such case: "@ + c@,
        ApiError::BadRequest(m) => "bad request: "@ + m@,
        ApiError::Einmo(inner) => error_message(inner),
    }
}

impl ApiError {
    /// The review's error, as an answer.
    pub fn from_einmo(e: EinmoError) -> (r: ApiError)
        ensures
            r == ApiError::Einmo(e),
    {
        ApiError::Einmo(e)
    }

    /// The HTTP status this error is answered with.
    pub fn status_code(&self) -> (r: u16)
        ensures
            r == status_spec(*self),
    {
        match self {
            ApiError::UnknownSession(_) | ApiError::UnknownCase(_) => 404,
            ApiError::BadRequest(_) => 400,
            ApiError::Einmo(EinmoError::InvalidId(_)) => 400,
            ApiError::Einmo(EinmoError::NoKey(_)) => 400,
            ApiError::Einmo(EinmoError::Config(_)) => 400,
            ApiError::Einmo(EinmoError::Verification(_)) => 422,
            ApiError::Einmo(EinmoError::Io { not_found, .. }) => if *not_found { 404 } else { 500 },
            ApiError::Einmo(_) => 500,
        }
    }

    /// The message this error is answered with (what `Display` renders).
    pub fn to_string(&self) -> (r: String)
        ensures
            r@ == api_message_spec(*self),
    {
        match self {
            ApiError::UnknownSession(id) => {
                let h = id.to_hex();
                concat("no such session: ", h.as_str())
            },
            ApiError::UnknownCase(c) => concat("no such case: ", c.as_str()),
            ApiError::BadRequest(m) => concat("bad request: ", m.as_str()),
            ApiError::Einmo(inner) => inner.to_string(),
        }
    }
}

/// `POST /einmo/sessions`: the suite to open a session over.
#[derive(Debug, Clone, PartialEq, Eq)]
pub struct CreateSessionRequest {
    /// The suite's work directory.
    pub suite: String,
}

/// The handle of a newly opened session, as hex.
#[derive(Debug, Clone, PartialEq, Eq)]
pub struct CreateSessionResponse {
    /// The session handle.
    pub session: String,
}

/// One worklist row, as answered.
#[derive(Debug, Clone, PartialEq, Eq)]
pub struct CaseSummary {
    /// The case id.
    pub id: String,
    /// Whether output and checked disagree.
    pub differing: bool,
    /// `(stage name, status if present)`.
    pub stages: Vec<(String, Option<String>)>,
    /// The pending decision's tag, if any.
    pub decision: Option<String>,
}

/// The stage rows of a worklist row, as answered.
pub open spec fn stage_rows_view(v: Seq<(String, Option<String>)>) -> Seq<(Seq<char>, Option<Seq<char>>)> {
    Seq::new(v.len(), |i: int| (v[i].0@, match v[i].1 { Some(x) => Some(x@), None => None }))
}

/// The stage rows of a worklist row, from the review's.
pub open spec fn stage_rows_of(v: Seq<(Stage, Option<String>)>) -> Seq<(Seq<char>, Option<Seq<char>>)> {
    Seq::new(v.len(), |i: int| (stage_dir_name(v[i].0), match v[i].1 { Some(x) => Some(x@), None => None }))
}

impl CaseSummary {
    /// A worklist row as answered: stages by name, the decision by tag.
    pub fn from_item(item: ReviewItem) -> (r: CaseSummary)
        ensures
            r.id@ == item.id@,
            r.differing == item.differing,
            stage_rows_view(r.stages@) == stage_rows_of(item.stages@),
            r.decision is Some <==> item.decision is Some,
            r.decision matches Some(t) ==> t@ == decision_tag_spec(item.decision.unwrap()),
    {
        let mut stages: Vec<(String, Option<String>)> = Vec::new();
        let mut i: usize = 0;
        while i < item.stages.len()
            invariant
                i <= item.stages@.len(),
                stages@.len() == i,
                forall|k: int| 0 <= k < i ==> (#[trigger] stages@[k]).0@ == stage_dir_name(item.stages@[k].0)
                    && (stages@[k].1 is Some <==> item.stages@[k].1 is Some)
                    && (stages@[k].1 matches Some(x) ==> x@ == item.stages@[k].1.unwrap()@),
            decreases item.stages@.len() - i,
        {
            let (st, status) = &item.stages[i];
            let shown = match status {
                Some(x) => Some(own(x.as_str())),
                None => None,
            };
            stages.push((own(st.dir_name()), shown));
            i = i + 1;
        }
        proof {
            assert(stage_rows_view(stages@) =~= stage_rows_of(item.stages@));
        }
        let decision = match &item.decision {
            Some(d) => Some(decision_tag(d)),
            None => None,
        };
        CaseSummary { id: own(item.id.as_str()), differing: item.differing, stages, decision }
    }
}

/// A verified body, as answered.
#[derive(Debug, Clone, PartialEq, Eq)]
pub struct BodyResponse {
    /// `(section name, section body)` pairs.
    pub sections: Vec<(String, String)>,
}

/// One diff line, as answered (tagged `equal`, `removed` or `added`).
#[derive(Debug, Clone, PartialEq, Eq)]
pub enum DiffLineResponse {
    /// On both sides.
    Equal {
        /// The line.
        text: String,
    },
    /// On the left only.
    Removed {
        /// The line.
        text: String,
    },
    /// On the right only.
    Added {
        /// The line.
        text: String,
    },
}

impl DiffLineResponse {
    /// A diff line as answered: same tag, same text.
    pub fn from_line(line: DiffLine) -> (r: DiffLineResponse)
        ensures
            line matches DiffLine::Equal(t) ==> r == (DiffLineResponse::Equal { text: t }),
            line matches DiffLine::Removed(t) ==> r == (DiffLineResponse::Removed { text: t }),
            line matches DiffLine::Added(t) ==> r == (DiffLineResponse::Added { text: t }),
    {
        match line {
            DiffLine::Equal(text) => DiffLineResponse::Equal { text },
            DiffLine::Removed(text) => DiffLineResponse::Removed { text },
            DiffLine::Added(text) => DiffLineResponse::Added { text },
        }
    }
}

/// One section's diff, as answered.
#[derive(Debug, Clone, PartialEq, Eq)]
pub struct SectionDiffResponse {
    /// The section name.
    pub name: String,
    /// Its lines.
    pub lines: Vec<DiffLineResponse>,
}

/// A line as answered stands for the review's line.
pub open spec fn line_answers(r: DiffLineResponse, l: DiffLine) -> bool {
    match (l, r) {
        (DiffLine::Equal(a), DiffLineResponse::Equal { text }) => a == text,
        (DiffLine::Removed(a), DiffLineResponse::Removed { text }) => a == text,
        (DiffLine::Added(a), DiffLineResponse::Added { text }) => a == text,
        _ => false,
    }
}

impl SectionDiffResponse {
    /// A section diff as answered, line for line.
    pub fn from_section(section: SectionDiff) -> (r: SectionDiffResponse)
        ensures
            r.name == section.name,
            r.lines@.len() == section.lines@.len(),
            forall|i: int| 0 <= i < r.lines@.len() ==> line_answers(#[trigger] r.lines@[i], section.lines@[i]),
    {
        let SectionDiff { name, lines } = section;
        let ghost src = lines@;
        let mut out: Vec<DiffLineResponse> = Vec::new();
        let mut rest = lines;
        let mut taken: usize = 0;
        let n = rest.len();
        let mut reversed: Vec<DiffLine> = Vec::new();
        while rest.len() > 0
            invariant
                rest@.len() + reversed@.len() == n,
                n == src.len(),
                rest@ == src.take(rest@.len() as int),
                forall|k: int| 0 <= k < reversed@.len() ==> reversed@[k] == src[n - 1 - k],
            decreases rest@.len(),
        {
            let l = rest.pop().unwrap();
            reversed.push(l);
        }
        while reversed.len() > 0
            invariant
                reversed@.len() + out@.len() == n,
                n == src.len(),
                forall|k: int| 0 <= k < reversed@.len() ==> reversed@[k] == src[n - 1 - k],
                forall|k: int| 0 <= k < out@.len() ==> line_answers(#[trigger] out@[k], src[k]),
            decreases reversed@.len(),
        {
            let l = reversed.pop().unwrap();
            out.push(DiffLineResponse::from_line(l));
        }
        let _ = taken;
        SectionDiffResponse { name, lines: out }
    }
}

/// A diff, as answered.
#[derive(Debug, Clone, PartialEq, Eq)]
pub struct DiffResponse {
    /// One entry per section.
    pub sections: Vec<SectionDiffResponse>,
}

/// A stage a decision request may name.
#[derive(Debug, Clone, Copy, PartialEq, Eq, Structural)]
pub enum DecidableStage {
    /// `checked`.
    Checked,
    /// `verified`.
    Verified,
}

impl DecidableStage {
    /// The stage this names.
    pub fn to_stage(self) -> (r: Stage)
        ensures
            self == DecidableStage::Checked ==> r == Stage::Checked,
            self == DecidableStage::Verified ==> r == Stage::Verified,
    {
        match self {
            DecidableStage::Checked => Stage::Checked,
            DecidableStage::Verified => Stage::Verified,
        }
    }
}

/// `PUT .../decision`: the decision, by kind.
#[derive(Debug, Clone, PartialEq, Eq)]
pub enum DecisionRequest {
    /// Promote to `to`.
    Promote {
        /// The destination.
        to: DecidableStage,
    },
    /// Retract from `from`.
    Retract {
        /// The source.
        from: DecidableStage,
    },
    /// Flag at `stage` with `reason`.
    Flag {
        /// The stage.
        stage: DecidableStage,
        /// The reason.
        reason: String,
    },
    /// No ruling.
    Skip,
}

/// The stage a decidable stage names.
pub open spec fn decidable_to_stage(s: DecidableStage) -> Stage {
    match s {
        DecidableStage::Checked => Stage::Checked,
        DecidableStage::Verified => Stage::Verified,
    }
}

impl DecisionRequest {
    /// The decision this requests.
    pub fn into_decision(self) -> (r: Decision)
        ensures
            self matches DecisionRequest::Promote { to } ==> r == (Decision::Promote { to: decidable_to_stage(to) }),
            self matches DecisionRequest::Retract { from } ==> r == (Decision::Retract { from: decidable_to_stage(from) }),
            self matches DecisionRequest::Flag { stage, reason } ==> r == (Decision::Flag { stage: decidable_to_stage(stage), reason }),
            self is Skip ==> r == Decision::Skip,
    {
        match self {
            DecisionRequest::Promote { to } => Decision::Promote { to: to.to_stage() },
            DecisionRequest::Retract { from } => Decision::Retract { from: from.to_stage() },
            DecisionRequest::Flag { stage, reason } => Decision::Flag { stage: stage.to_stage(), reason },
            DecisionRequest::Skip => Decision::Skip,
        }
    }
}

/// `POST .../claim`: how long to claim for, in seconds (0: the default).
#[derive(Debug, Clone, Copy, PartialEq, Eq, Structural)]
pub struct ClaimRequest {
    /// Seconds; 0 means the default claim.
    pub ttl_secs: u64,
}

impl ClaimRequest {
    /// How long the claim lasts, in milliseconds (saturating).
    pub fn ttl_ms(&self) -> (r: u64)
        ensures
            self.ttl_secs == 0 ==> r == DEFAULT_CLAIM_TTL_MS,
            self.ttl_secs != 0 ==> r == (if self.ttl_secs * 1000 > u64::MAX { u64::MAX } else { (self.ttl_secs * 1000) as u64 }),
    {
        if self.ttl_secs == 0 {
            DEFAULT_CLAIM_TTL_MS
        } else {
            if self.ttl_secs > u64::MAX / 1000 {
                u64::MAX
            } else {
                self.ttl_secs * 1000
            }
        }
    }
}

/// A planned action, as answered (stages by name).
#[derive(Debug, Clone, PartialEq, Eq)]
pub enum PlannedActionResponse {
    /// Promote `id` to `to`.
    Promote {
        /// The case.
        id: String,
        /// The destination's name.
        to: String,
    },
    /// Retract `id` from `from`.
    Retract {
        /// The case.
        id: String,
        /// The source's name.
        from: String,
    },
    /// Flag `id` at `stage`.
    Flag {
        /// The case.
        id: String,
        /// The stage's name.
        stage: String,
        /// The reason.
        reason: String,
    },
}

/// An answered action stands for the review's.
pub open spec fn action_answers(r: PlannedActionResponse, a: PlannedAction) -> bool {
    match (a, r) {
        (PlannedAction::Promote { id, to }, PlannedActionResponse::Promote { id: i, to: t }) => i@ == id@ && t@ == stage_dir_name(to),
        (PlannedAction::Retract { id, from }, PlannedActionResponse::Retract { id: i, from: f }) => i@ == id@
            && f@ == stage_dir_name(from),
        (PlannedAction::Flag { id, stage, reason }, PlannedActionResponse::Flag { id: i, stage: s, reason: q }) => i@ == id@
            && s@ == stage_dir_name(stage) && q == reason,
        _ => false,
    }
}

impl PlannedActionResponse {
    /// A planned action as answered.
    pub fn from_action(a: PlannedAction) -> (r: PlannedActionResponse)
        ensures
            action_answers(r, a),
    {
        match a {
            PlannedAction::Promote { id, to } => PlannedActionResponse::Promote { id: own(id.as_str()), to: own(to.dir_name()) },
            PlannedAction::Retract { id, from } => PlannedActionResponse::Retract {
                id: own(id.as_str()),
                from: own(from.dir_name()),
            },
            PlannedAction::Flag { id, stage, reason } => PlannedActionResponse::Flag {
                id: own(id.as_str()),
                stage: own(stage.dir_name()),
                reason,
            },
        }
    }
}

/// An active claim, as answered (whole seconds remaining).
#[derive(Debug, Clone, PartialEq, Eq)]
pub struct ClaimResponse {
    /// The claimed case.
    pub id: String,
    /// Whole seconds left.
    pub remaining_secs: u64,
}

impl ClaimResponse {
    /// An active claim as answered.
    pub fn from_claim(c: &ActiveClaim) -> (r: ClaimResponse)
        ensures
            r.id@ == c.id@,
            r.remaining_secs == c.remaining_ms / 1000,
    {
        ClaimResponse { id: own(c.id.as_str()), remaining_secs: c.remaining_ms / 1000 }
    }
}

/// A plan, as answered.
#[derive(Debug, Clone, PartialEq, Eq)]
pub struct PlanResponse {
    /// The actions, in order.
    pub actions: Vec<PlannedActionResponse>,
    /// The active claims.
    pub claims: Vec<ClaimResponse>,
}

impl PlanResponse {
    /// A plan as answered, action for action and claim for claim.
    pub fn from_plan(plan: ExecutionPlan) -> (r: PlanResponse)
        ensures
            r.actions@.len() == plan.actions@.len(),
            forall|i: int| 0 <= i < r.actions@.len() ==> action_answers(#[trigger] r.actions@[i], plan.actions@[i]),
            r.claims@.len() == plan.claims@.len(),
            forall|i: int| 0 <= i < r.claims@.len() ==> (#[trigger] r.claims@[i]).id@ == plan.claims@[i].id@
                && r.claims@[i].remaining_secs == plan.claims@[i].remaining_ms / 1000,
    {
        let ExecutionPlan { actions, claims } = plan;
        let ghost src = actions@;
        let n = actions.len();
        let mut rest = actions;
        let mut reversed: Vec<PlannedAction> = Vec::new();
        while rest.len() > 0
            invariant
                rest@.len() + reversed@.len() == n,
                n == src.len(),
                rest@ == src.take(rest@.len() as int),
                forall|k: int| 0 <= k < reversed@.len() ==> reversed@[k] == src[n - 1 - k],
            decreases rest@.len(),
        {
            let a = rest.pop().unwrap();
            reversed.push(a);
        }
        let mut out: Vec<PlannedActionResponse> = Vec::new();
        while reversed.len() > 0
            invariant
                reversed@.len() + out@.len() == n,
                n == src.len(),
                forall|k: int| 0 <= k < reversed@.len() ==> reversed@[k] == src[n - 1 - k],
                forall|k: int| 0 <= k < out@.len() ==> action_answers(#[trigger] out@[k], src[k]),
            decreases reversed@.len(),
        {
            let a = reversed.pop().unwrap();
            out.push(PlannedActionResponse::from_action(a));
        }
        let mut cs: Vec<ClaimResponse> = Vec::new();
        let mut i: usize = 0;
        while i < claims.len()
            invariant
                i <= claims@.len(),
                cs@.len() == i,
                forall|k: int| 0 <= k < i ==> (#[trigger] cs@[k]).id@ == claims@[k].id@
                    && cs@[k].remaining_secs == claims@[k].remaining_ms / 1000,
            decreases claims@.len() - i,
        {
            cs.push(ClaimResponse::from_claim(&claims[i]));
            i = i + 1;
        }
        PlanResponse { actions: out, claims: cs }
    }
}

/// `POST .../execute`: the confirmation, and the `verified` passphrase if
/// any. It has no `Debug` here; the server's own copy renders the
/// passphrase redacted.
pub struct ExecuteRequest {
    /// Must be `PROMOTE` when a promotion is pending.
    pub confirm: String,
    /// The passphrase of the `verified` key, if any.
    pub passphrase: Option<String>,
}

/// One executed action, as answered.
#[derive(Debug, Clone, PartialEq, Eq)]
pub struct ExecutedResponse {
    /// The case.
    pub id: String,
    /// What happened.
    pub detail: String,
    /// A computer-key `verified` attestation.
    pub non_human: bool,
}

/// An execute report, as answered.
#[derive(Debug, Clone, PartialEq, Eq)]
pub struct ExecuteResponse {
    /// The executed actions.
    pub executed: Vec<ExecutedResponse>,
    /// The skipped cases.
    pub skipped: Vec<String>,
}

/// `POST .../flag/<stage>`: the reason.
#[derive(Debug, Clone, PartialEq, Eq)]
pub struct FlagRequest {
    /// The advisory reason.
    pub reason: String,
}

/// What a server announces to a session's listeners.
#[derive(Debug, Clone, PartialEq, Eq)]
pub enum ReviewEvent {
    /// A decision was made or cleared.
    DecisionMade {
        /// The case.
        id: String,
    },
    /// A case changed (claimed, flagged, retracted).
    ItemChanged {
        /// The case.
        id: String,
    },
    /// An execute batch ran.
    Executed {
        /// The executed cases.
        executed: Vec<String>,
        /// The skipped cases.
        skipped: Vec<String>,
    },
}

impl ReviewEvent {
    /// The event's name on the wire.
    pub fn name(&self) -> (r: &'static str)
        ensures
            self is DecisionMade ==> r@ == "decision-made"@,
            self is ItemChanged ==> r@ == "item-changed"@,
            self is Executed ==> r@ == "executed"@,
    {
        match self {
            ReviewEvent::DecisionMade { .. } => "decision-made",
            ReviewEvent::ItemChanged { .. } => "item-changed",
            ReviewEvent::Executed { .. } => "executed",
        }
    }
}

/// Whether an execute request may run against `plan`: any pending
/// promotion needs the literal confirmation `PROMOTE`.
///
/// # Errors
/// [`ApiError::BadRequest`] otherwise.
pub fn execute_confirmed(plan: &ExecutionPlan, confirm: &str) -> (r: Result<(), ApiError>)
    ensures
        r is Err <==> plan_promotes(*plan) && confirm@ != "PROMOTE"@,
        r matches Err(e) ==> e is BadRequest,
{
    match crate::review_cli::confirm_gate(plan, confirm) {
        Ok(()) => Ok(()),
        Err(_) => Err(ApiError::BadRequest(own("execute needs confirm: \"PROMOTE\" when any pending decision promotes"))),
    }
}

/// The keys an execute request signs with: the computer key (the empty
/// passphrase) into `checked`, and the request's passphrase, if any, into
/// `verified`.
pub fn execute_keys(passphrase: Option<String>) -> (r: SignerSet)
    requires
        passphrase matches Some(p) ==> vstd::utf8::encode_utf8(p@).len() <= 0xFFFF_FFFF,
    ensures
        r.to_checked.passphrase_spec() == Seq::<char>::empty(),
        r.to_verified is Some <==> passphrase is Some,
        r.to_verified matches Some(k) ==> k.passphrase_spec() == passphrase.unwrap()@,
{
    proof {
        reveal_strlit("");
        assert(vstd::utf8::encode_utf8(""@) =~= Seq::<u8>::empty());
    }
    let to_verified = match passphrase {
        Some(p) => Some(KeySource::from_passphrase(p.as_str())),
        None => None,
    };
    SignerSet { to_checked: KeySource::from_passphrase(""), to_verified }
}

impl ExecuteResponse {
    /// An execute report as answered, and the event announcing it.
    pub fn from_report(report: ExecutionReport) -> (r: (ExecuteResponse, ReviewEvent))
        ensures
            r.0.executed@.len() == report.executed@.len(),
            forall|i: int| 0 <= i < r.0.executed@.len() ==> (#[trigger] r.0.executed@[i]).id@ == report.executed@[i].id@
                && r.0.executed@[i].detail == report.executed@[i].detail
                && r.0.executed@[i].non_human == report.executed@[i].non_human,
            crate::codec::strings_view(r.0.skipped@) == crate::stage::id_views(report.skipped@),
            r.1 matches ReviewEvent::Executed { executed, skipped }
                && crate::codec::strings_view(executed@) == crate::review::executed_ids(report.executed@)
                && crate::codec::strings_view(skipped@) == crate::stage::id_views(report.skipped@),
    {
        let mut ex: Vec<ExecutedResponse> = Vec::new();
        let mut names: Vec<String> = Vec::new();
        let mut i: usize = 0;
        while i < report.executed.len()
            invariant
                i <= report.executed@.len(),
                ex@.len() == i,
                names@.len() == i,
                forall|k: int| 0 <= k < i ==> (#[trigger] ex@[k]).id@ == report.executed@[k].id@
                    && ex@[k].detail == report.executed@[k].detail && ex@[k].non_human == report.executed@[k].non_human,
                forall|k: int| 0 <= k < i ==> (#[trigger] names@[k])@ == report.executed@[k].id@,
            decreases report.executed@.len() - i,
        {
            let e = &report.executed[i];
            ex.push(ExecutedResponse { id: own(e.id.as_str()), detail: e.detail.clone(), non_human: e.non_human });
            names.push(own(e.id.as_str()));
            i = i + 1;
        }
        let mut sk: Vec<String> = Vec::new();
        let mut sk2: Vec<String> = Vec::new();
        let mut j: usize = 0;
        while j < report.skipped.len()
            invariant
                j <= report.skipped@.len(),
                sk@.len() == j,
                sk2@.len() == j,
                forall|k: int| 0 <= k < j ==> (#[trigger] sk@[k])@ == report.skipped@[k]@,
                forall|k: int| 0 <= k < j ==> (#[trigger] sk2@[k])@ == report.skipped@[k]@,
            decreases report.skipped@.len() - j,
        {
            sk.push(own(report.skipped[j].as_str()));
            sk2.push(own(report.skipped[j].as_str()));
            j = j + 1;
        }
        proof {
            assert(crate::codec::strings_view(sk@) =~= crate::stage::id_views(report.skipped@));
            assert(crate::codec::strings_view(sk2@) =~= crate::stage::id_views(report.skipped@));
            assert(crate::codec::strings_view(names@) =~= crate::review::executed_ids(report.executed@));
        }
        (ExecuteResponse { executed: ex, skipped: sk }, ReviewEvent::Executed { executed: names, skipped: sk2 })
    }
}

/// What the TCP listener does with a request before routing it.
#[derive(Debug, Clone, Copy, PartialEq, Eq, Structural)]
pub enum TcpAdmission {
    /// The bearer token is missing or wrong: 401.
    Unauthorized,
    /// Route the request unchanged.
    Pass,
    /// An `execute` whose body must be checked for a verified passphrase,
    /// refused over TCP unless the insecure opt-in was given.
    InspectExecuteBody,
}

/// `s` ends with `suffix`.
pub open spec fn ends_with_spec(s: Seq<char>, suffix: Seq<char>) -> bool {
    s.len() >= suffix.len() && s.subrange(s.len() - suffix.len(), s.len() as int) == suffix
}

/// Whether `s` ends with `suffix`.
fn ends_with(s: &[char], suffix: &[char]) -> (r: bool)
    ensures
        r == ends_with_spec(s@, suffix@),
{
    if suffix.len() > s.len() {
        return false;
    }
    let off = s.len() - suffix.len();
    let mut k: usize = 0;
    while k < suffix.len()
        invariant
            off + suffix@.len() == s@.len(),
            s@.len() == s.len(),
            k <= suffix@.len(),
            forall|j: int| 0 <= j < k ==> s@[off + j] == suffix@[j],
        decreases suffix@.len() - k,
    {
        if s[off + k] != suffix[k] {
            proof {
                assert(s@.subrange(off as int, s@.len() as int)[k as int] != suffix@[k as int]);
            }
            return false;
        }
        k = k + 1;
    }
    assert(s@.subrange(off as int, s@.len() as int) =~= suffix@);
    true
}

/// The admission of a TCP request carrying the `Authorization` header
/// `authorization` (if any), for a listener holding `token`: refused unless
/// the header is exactly `Bearer <token>`; otherwise routed unchanged,
/// except a `POST` to a path ending in `/execute` when the insecure opt-in
/// was not given, whose body is checked first.
pub fn tcp_admission(authorization: Option<&str>, token: &str, allow_insecure: bool, is_post: bool, path: &str) -> (r:
    TcpAdmission)
    ensures
        r == (if !(authorization matches Some(a) && a@ == "Bearer "@ + token@) {
            TcpAdmission::Unauthorized
        } else if allow_insecure || !(is_post && ends_with_spec(path@, "/execute"@)) {
            TcpAdmission::Pass
        } else {
            TcpAdmission::InspectExecuteBody
        }),
{
    let authorized = match authorization {
        Some(a) => {
            let expected = concat("Bearer ", token);
            str_eq(a, expected.as_str())
        },
        None => false,
    };
    if !authorized {
        return TcpAdmission::Unauthorized;
    }
    let p = chars_of(path);
    let suffix = chars_of("/execute");
    if allow_insecure || !(is_post && ends_with(p.as_slice(), suffix.as_slice())) {
        TcpAdmission::Pass
    } else {
        TcpAdmission::InspectExecuteBody
    }
}

/// The refusal an `execute` carrying a verified passphrase gets over TCP.
pub fn tcp_passphrase_refusal() -> (r: String)
    ensures
        r@ == "execute with a verified passphrase is refused over TCP by default (the passphrase travels plaintext in the request body, materially riskier over TCP than over a unix-domain socket) -- re-run the server with the insecure opt-in flag if you understand and accept that risk on this network path"@,
{
    own("execute with a verified passphrase is refused over TCP by default (the passphrase travels plaintext in the request body, materially riskier over TCP than over a unix-domain socket) -- re-run the server with the insecure opt-in flag if you understand and accept that risk on this network path")
}

} // verus!
