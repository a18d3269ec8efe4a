//! The review command line's own decisions, apart from its I/O: how a
//! decision is read from words, how decisions and planned actions are
//! shown, when `execute` may proceed, and which options `list` asks for.

use vstd::prelude::*;
use crate::error::EinmoError;
use crate::review::{action_id, plan_promotes_to_verified, Decision, ExecutionPlan, PlannedAction, ReviewMode, ReviewOpts};
use crate::stage::{parse_stage_spec, stage_dir_name, Stage};
use crate::text::{ascii_lower, chars_of, concat, lower, own, push_str, str_eq, string_of};
use crate::codec::strings_view;

verus! {

/// The stage a decision may name: `checked` or `verified`.
pub open spec fn decidable_stage(s: Seq<char>) -> Option<Stage> {
    match parse_stage_spec(s) {
        Some(Stage::Checked) => Some(Stage::Checked),
        Some(Stage::Verified) => Some(Stage::Verified),
        _ => None,
    }
}

/// Parse a stage a decision may name.
///
/// # Errors
/// [`EinmoError::Config`] if `s` is not `checked` or `verified`.
pub fn parse_decidable_stage(s: &str) -> (r: Result<Stage, EinmoError>)
    ensures
        r matches Ok(st) ==> decidable_stage(s@) == Some(st),
        r is Err ==> decidable_stage(s@) is None,
        r matches Err(e) ==> e is Config,
{
    match Stage::parse(s) {
        Err(e) => Err(e),
        Ok(Stage::Checked) => Ok(Stage::Checked),
        Ok(Stage::Verified) => Ok(Stage::Verified),
        Ok(Stage::Output) => {
            let m = concat("decision stage must be checked or verified, not \"", s);
            Err(EinmoError::Config(concat(m.as_str(), "\"")))
        },
    }
}

/// `ws` joined with single spaces.
pub open spec fn join_space(ws: Seq<Seq<char>>) -> Seq<char>
    decreases ws.len(),
{
    if ws.len() == 0 {
        Seq::empty()
    } else if ws.len() == 1 {
        ws[0]
    } else {
        join_space(ws.drop_last()) + seq![' '] + ws.last()
    }
}

/// The stage word of a `promote`/`retract` decision: `<kw> <stage>` or a
/// bare `<stage>`.
pub open spec fn stage_word(rest: Seq<Seq<char>>, kw: Seq<char>) -> Option<Seq<char>> {
    if rest.len() == 2 && ascii_lower(rest[0]) == kw {
        Some(rest[1])
    } else if rest.len() == 1 {
        Some(rest[0])
    } else {
        None
    }
}

/// The decision the words `t` name: `promote [to] <stage>`,
/// `retract [from] <stage>`, `flag <stage> <reason...>` or `skip` (the
/// kind and the keywords in any ASCII case).
pub open spec fn decision_words(t: Seq<Seq<char>>, d: Decision) -> bool {
    &&& t.len() > 0
    &&& {
        let kind = ascii_lower(t[0]);
        let rest = t.drop_first();
        if kind == seq!['p', 'r', 'o', 'm', 'o', 't', 'e'] {
            stage_word(rest, seq!['t', 'o']) matches Some(w) && d == Decision::Promote { to: decidable_stage(w).unwrap() }
                && decidable_stage(w) is Some
        } else if kind == seq!['r', 'e', 't', 'r', 'a', 'c', 't'] {
            stage_word(rest, seq!['f', 'r', 'o', 'm']) matches Some(w) && d == Decision::Retract { from: decidable_stage(w).unwrap() }
                && decidable_stage(w) is Some
        } else if kind == seq!['f', 'l', 'a', 'g'] {
            rest.len() >= 2 && decidable_stage(rest[0]) is Some && (d matches Decision::Flag { stage, reason }
                && stage == decidable_stage(rest[0]).unwrap() && reason@ == join_space(rest.drop_first()))
        } else if kind == seq!['s', 'k', 'i', 'p'] {
            rest.len() == 0 && d == Decision::Skip
        } else {
            false
        }
    }
}

/// Whether the words `t` name some decision.
pub open spec fn names_a_decision(t: Seq<Seq<char>>) -> bool {
    &&& t.len() > 0
    &&& {
        let kind = ascii_lower(t[0]);
        let rest = t.drop_first();
        if kind == seq!['p', 'r', 'o', 'm', 'o', 't', 'e'] {
            stage_word(rest, seq!['t', 'o']) matches Some(w) && decidable_stage(w) is Some
        } else if kind == seq!['r', 'e', 't', 'r', 'a', 'c', 't'] {
            stage_word(rest, seq!['f', 'r', 'o', 'm']) matches Some(w) && decidable_stage(w) is Some
        } else if kind == seq!['f', 'l', 'a', 'g'] {
            rest.len() >= 2 && decidable_stage(rest[0]) is Some
        } else if kind == seq!['s', 'k', 'i', 'p'] {
            rest.len() == 0
        } else {
            false
        }
    }
}

/// Whether `v` spells `lit`.
fn is_word(v: &Vec<char>, lit: &str) -> (r: bool)
    ensures
        r == (v@ == lit@),
{
    let l = chars_of(lit);
    crate::text::chars_eq(v.as_slice(), l.as_slice())
}

/// The words of `tokens[from..]` joined with single spaces.
fn join_words(tokens: &[String], from: usize) -> (r: String)
    requires
        from < tokens@.len(),
    ensures
        r@ == join_space(strings_view(tokens@).skip(from as int)),
{
    let mut out: Vec<char> = Vec::new();
    push_str(&mut out, tokens[from].as_str());
    let mut i: usize = from + 1;
    proof {
        assert(strings_view(tokens@).skip(from as int).take(1) =~= seq![tokens@[from as int]@]);
        assert(join_space(seq![tokens@[from as int]@]) == tokens@[from as int]@);
    }
    while i < tokens.len()
        invariant
            from < i <= tokens@.len(),
            out@ == join_space(strings_view(tokens@).skip(from as int).take(i - from)),
        decreases tokens@.len() - i,
    {
        let ghost prev = strings_view(tokens@).skip(from as int).take(i - from);
        out.push(' ');
        push_str(&mut out, tokens[i].as_str());
        proof {
            let now = strings_view(tokens@).skip(from as int).take(i + 1 - from);
            assert(now.drop_last() =~= prev);
            assert(now.last() == tokens@[i as int]@);
            assert(now.len() >= 2);
        }
        i = i + 1;
    }
    proof {
        assert(strings_view(tokens@).skip(from as int).take(tokens@.len() - from) =~= strings_view(tokens@).skip(from as int));
    }
    string_of(out.as_slice())
}

/// Read a decision from its words: `promote to <stage>` (or `promote
/// <stage>`), `retract from <stage>` (or `retract <stage>`), `flag <stage>
/// <reason...>` or `skip`. The stage must be `checked` or `verified`.
///
/// # Errors
/// [`EinmoError::Config`] for anything else.
pub fn parse_decision(tokens: &[String]) -> (r: Result<Decision, EinmoError>)
    ensures
        r is Ok <==> names_a_decision(strings_view(tokens@)),
        r matches Ok(d) ==> decision_words(strings_view(tokens@), d),
        r matches Err(e) ==> e is Config,
{
    let ghost t = strings_view(tokens@);
    if tokens.len() == 0 {
        return Err(EinmoError::Config(own("decision requires at least a kind (promote/retract/flag/skip)")));
    }
    let kind = lower(tokens[0].as_str());
    let n = tokens.len();
    proof {
        assert(t[0] == tokens@[0]@);
        assert(t.drop_first().len() == n - 1);
        assert forall|k: int| 0 <= k < n - 1 implies t.drop_first()[k] == tokens@[k + 1]@ by {}
        reveal_strlit("promote");
        reveal_strlit("retract");
        reveal_strlit("flag");
        reveal_strlit("skip");
        reveal_strlit("to");
        reveal_strlit("from");
        assert("promote"@ =~= seq!['p', 'r', 'o', 'm', 'o', 't', 'e']);
        assert("retract"@ =~= seq!['r', 'e', 't', 'r', 'a', 'c', 't']);
        assert("flag"@ =~= seq!['f', 'l', 'a', 'g']);
        assert("skip"@ =~= seq!['s', 'k', 'i', 'p']);
        assert("to"@ =~= seq!['t', 'o']);
        assert("from"@ =~= seq!['f', 'r', 'o', 'm']);
    }
    if is_word(&kind, "promote") || is_word(&kind, "retract") {
        let promote = is_word(&kind, "promote");
        let kw = if promote { "to" } else { "from" };
        proof {
            if n >= 2 {
                assert(t.drop_first()[0] == tokens@[1]@);
            }
            if n >= 3 {
                assert(t.drop_first()[1] == tokens@[2]@);
            }
        }
        let word = if n == 3 && is_word(&lower(tokens[1].as_str()), kw) {
            tokens[2].as_str()
        } else if n == 2 {
            tokens[1].as_str()
        } else {
            if promote {
                return Err(EinmoError::Config(own("promote needs `to <stage>` (or bare `<stage>`)")));
            } else {
                return Err(EinmoError::Config(own("retract needs `from <stage>` (or bare `<stage>`)")));
            }
        };
        let st = match parse_decidable_stage(word) {
            Ok(st) => st,
            Err(e) => return Err(e),
        };
        if promote {
            Ok(Decision::Promote { to: st })
        } else {
            Ok(Decision::Retract { from: st })
        }
    } else if is_word(&kind, "flag") {
        if n < 2 {
            return Err(EinmoError::Config(own("flag needs `<stage> <reason...>`")));
        }
        if n < 3 {
            return Err(EinmoError::Config(own("flag needs a non-empty reason")));
        }
        let st = match parse_decidable_stage(tokens[1].as_str()) {
            Ok(st) => st,
            Err(e) => return Err(e),
        };
        let reason = join_words(tokens, 2);
        proof {
            assert(strings_view(tokens@).skip(2) =~= t.drop_first().drop_first());
        }
        Ok(Decision::Flag { stage: st, reason })
    } else if is_word(&kind, "skip") {
        if n != 1 {
            return Err(EinmoError::Config(own("skip takes no further arguments")));
        }
        Ok(Decision::Skip)
    } else {
        let k = string_of(kind.as_slice());
        let m = concat("unknown decision kind \"", k.as_str());
        Err(EinmoError::Config(concat(m.as_str(), "\" (want promote/retract/flag/skip)")))
    }
}

/// The short tag a decision is shown by.
pub open spec fn decision_tag_spec(d: Decision) -> Seq<char> {
    match d {
        Decision::Promote { to } => "promote to "@ + stage_dir_name(to),
        Decision::Retract { from } => "retract from "@ + stage_dir_name(from),
        Decision::Flag { stage, reason } => "flag "@ + stage_dir_name(stage) + ": "@ + reason@,
        Decision::Skip => "skip"@,
    }
}

/// A short tag for a decision (`promote to checked`, `skip`, ...).
pub fn decision_tag(d: &Decision) -> (r: String)
    ensures
        r@ == decision_tag_spec(*d),
{
    match d {
        Decision::Promote { to } => concat("promote to ", to.dir_name()),
        Decision::Retract { from } => concat("retract from ", from.dir_name()),
        Decision::Flag { stage, reason } => {
            let a = concat("flag ", stage.dir_name());
            let b = concat(a.as_str(), ": ");
            concat(b.as_str(), reason.as_str())
        },
        Decision::Skip => own("skip"),
    }
}

/// The line a planned action is shown by.
pub open spec fn action_line_spec(a: PlannedAction) -> Seq<char> {
    match a {
        PlannedAction::Promote { id, to } => "promote "@ + id@ + " to "@ + stage_dir_name(to),
        PlannedAction::Retract { id, from } => "retract "@ + id@ + " from "@ + stage_dir_name(from),
        PlannedAction::Flag { id, stage, reason } => "flag "@ + id@ + " at "@ + stage_dir_name(stage) + ": "@ + reason@,
    }
}

/// A short line for a planned action (`promote a.foo to checked`, ...).
pub fn action_line(a: &PlannedAction) -> (r: String)
    ensures
        r@ == action_line_spec(*a),
{
    match a {
        PlannedAction::Promote { id, to } => {
            let x = concat("promote ", id.as_str());
            let y = concat(x.as_str(), " to ");
            concat(y.as_str(), to.dir_name())
        },
        PlannedAction::Retract { id, from } => {
            let x = concat("retract ", id.as_str());
            let y = concat(x.as_str(), " from ");
            concat(y.as_str(), from.dir_name())
        },
        PlannedAction::Flag { id, stage, reason } => {
            let x = concat("flag ", id.as_str());
            let y = concat(x.as_str(), " at ");
            let z = concat(y.as_str(), stage.dir_name());
            let w = concat(z.as_str(), ": ");
            concat(w.as_str(), reason.as_str())
        },
    }
}

/// The plan holds a promotion.
pub open spec fn plan_promotes(plan: ExecutionPlan) -> bool {
    exists|j: int| 0 <= j < plan.actions@.len() && (#[trigger] plan.actions@[j]) is Promote
}

/// Whether `execute` may proceed: a plan with any promotion needs the
/// literal confirmation `PROMOTE`.
///
/// # Errors
/// [`EinmoError::Config`] when a promotion is pending and `confirm` is
/// anything else.
pub fn confirm_gate(plan: &ExecutionPlan, confirm: &str) -> (r: Result<(), EinmoError>)
    ensures
        r is Err <==> plan_promotes(*plan) && confirm@ != "PROMOTE"@,
        r matches Err(e) ==> e is Config,
{
    let mut has: bool = false;
    let mut i: usize = 0;
    while i < plan.actions.len()
        invariant
            i <= plan.actions@.len(),
            has == exists|j: int| 0 <= j < i && (#[trigger] plan.actions@[j]) is Promote,
        decreases plan.actions@.len() - i,
    {
        if let PlannedAction::Promote { .. } = &plan.actions[i] {
            has = true;
        }
        i = i + 1;
    }
    if has && !str_eq(confirm, "PROMOTE") {
        return Err(EinmoError::Config(own("execute needs --confirm PROMOTE when any pending decision promotes")));
    }
    Ok(())
}

/// Whether the plan needs a `verified`-stage signer at all.
pub fn plan_needs_verified_key(plan: &ExecutionPlan) -> (r: bool)
    ensures
        r == plan_promotes_to_verified(*plan),
{
    let mut i: usize = 0;
    while i < plan.actions.len()
        invariant
            i <= plan.actions@.len(),
            forall|j: int| 0 <= j < i ==> !((#[trigger] plan.actions@[j]) matches PlannedAction::Promote { to, .. }
                && to == Stage::Verified),
        decreases plan.actions@.len() - i,
    {
        if let PlannedAction::Promote { to: Stage::Verified, .. } = &plan.actions[i] {
            return true;
        }
        i = i + 1;
    }
    false
}

/// The options `list` asks for: every case, or only those whose output and
/// checked stages disagree; optionally filtered.
pub fn list_opts(differing: bool, filter: Option<String>) -> (r: ReviewOpts)
    ensures
        r.mode == (if differing { ReviewMode::NewOrBroken } else { ReviewMode::Full }),
        r.filter == filter,
{
    ReviewOpts { mode: if differing { ReviewMode::NewOrBroken } else { ReviewMode::Full }, filter }
}

/// Where a server socket records the session it serves: the socket path
/// with `.session` appended.
pub fn session_file_path(socket_path: &str) -> (r: String)
    ensures
        r@ == socket_path@ + ".session"@,
{
    concat(socket_path, ".session")
}

} // verus!
