//! The duplicate-key policy changes severities only: a run that reports
//! repeated keys as errors is the run that reports them as warnings, with
//! those diagnostics raised to errors. With the exact strict verdict, this
//! shows that by default every repeated key of a JSON text is warned about.
use vstd::prelude::*;
use crate::diag::{DiagModel, Severity, Span, MAX_DIAGNOSTICS};
use crate::grammar::{fits_text, is_json_text};
use crate::lex_spec::{
    lemma_next_token, lemma_skip_trivia, lemma_string_step, skip_bad_byte, spec_lex_ident, spec_lex_number,
    spec_lex_token, spec_next_token, spec_skip_trivia, spec_smart_string, spec_string_body, spec_u_escape,
    starts_token, string_step, LexModel, Mode, StrStep, TokModel,
};
use crate::parse_spec::{
    cap, initial_parser, insert_by_start, lemma_bump, no_errors, object_separator, sort_by_start,
    spec_array_element, spec_array_loop, spec_check_duplicate, spec_diagnostics, spec_key, spec_member_key,
    spec_member_value, spec_object_loop, spec_object_member, spec_parse_state, spec_resync, spec_resync_member,
    spec_scalar, spec_validate, spec_value, ArrStep, DupKeys, ObjStep, PModel, ParseOptions,
};

verus! {

/// No diagnostic points at a related span.
pub open spec fn unrelated(d: Seq<DiagModel>) -> bool {
    forall|k: int| 0 <= k < d.len() ==> (#[trigger] d[k]).related is None
}

/// Only duplicate-key diagnostics point at a related span.
pub open spec fn related_are_duplicates(d: Seq<DiagModel>) -> bool {
    forall|k: int| 0 <= k < d.len() && (#[trigger] d[k]).related is Some ==> d[k].code == "W060"@
}

/// A diagnostic that points at an earlier key, made an error.
pub open spec fn raise(d: DiagModel) -> DiagModel {
    if d.related is Some {
        DiagModel {
            code: d.code,
            message: d.message,
            span: d.span,
            hint: d.hint,
            severity: Severity::Error,
            related: d.related,
        }
    } else {
        d
    }
}

pub open spec fn raise_all(s: Seq<DiagModel>) -> Seq<DiagModel> {
    Seq::new(s.len(), |i: int| raise(s[i]))
}

/// The parser state with its own duplicate-key diagnostics raised to errors.
pub open spec fn raised(p: PModel) -> PModel {
    PModel { lex: p.lex, tok: p.tok, depth: p.depth, extra: raise_all(p.extra), events: p.events }
}

/// The options with duplicate keys as errors.
pub open spec fn as_errors(o: ParseOptions) -> ParseOptions {
    ParseOptions { mode: o.mode, max_depth: o.max_depth, duplicate_keys: DupKeys::Error }
}

// ------------------------------------------------------------ the lexer

proof fn lemma_trivia_unrelated(m: LexModel)
    requires
        m.valid(),
        unrelated(m.diags),
    ensures
        unrelated(spec_skip_trivia(m).diags),
    decreases m.len() - m.pos,
{
    if 0 <= m.pos < m.len() {
        let b = m.src[m.pos];
        if crate::lex_spec::is_ws(b) {
            lemma_trivia_unrelated(m.at_pos(m.pos + 1));
        } else if b == 47u8 && m.pos + 1 < m.len() && m.src[m.pos + 1] == 47u8 {
            crate::lex_spec::lemma_line_end(m.src, m.pos + 2);
            let e = crate::lex_spec::line_end(m.src, m.pos + 2);
            lemma_trivia_unrelated(crate::lex_spec::comment_diag(m.at_pos(e), m.pos));
        } else if b == 47u8 && m.pos + 1 < m.len() && m.src[m.pos + 1] == 42u8 {
            crate::lex_spec::lemma_block_end(m.src, m.pos + 2);
            let (e, closed) = crate::lex_spec::block_end(m.src, m.pos + 2);
            let m1 = m.at_pos(e);
            let m2 = if closed {
                m1
            } else {
                m1.diag(crate::lex_spec::dm("E020"@, "unterminated block comment"@, crate::lex_spec::sp(m.pos, e), None,
                    Severity::Error))
            };
            lemma_trivia_unrelated(crate::lex_spec::comment_diag(m2, m.pos));
        }
    }
}

pub open spec fn step_model(s: StrStep) -> LexModel {
    match s {
        StrStep::Done(m, _) => m,
        StrStep::Next(m, _, _) => m,
    }
}

proof fn lemma_body_unrelated(m: LexModel, quote: u8, open: int, saw: bool, o: Seq<char>)
    requires
        m.valid(),
        unrelated(m.diags),
    ensures
        unrelated(spec_string_body(m, quote, open, saw, o).0.diags),
    decreases m.len() + 2 - m.pos,
{
    lemma_string_step(m, quote, open, saw, o);
    let st = string_step(m, quote, open, saw, o);
    assert(unrelated(step_model(st).diags)) by {
        if m.peek() is Some && m.peek()->0 == 92u8 && m.at(m.pos + 1) == Some(117u8) {
            let u = spec_u_escape(m.at_pos(m.pos + 2)).0;
            assert(unrelated(u.diags));
        }
    }
    match st {
        StrStep::Next(m1, s1, o1) => lemma_body_unrelated(m1, quote, open, s1, o1),
        _ => {},
    }
}

proof fn lemma_token_unrelated(m: LexModel)
    requires
        m.valid(),
        0 <= m.pos < m.len(),
        starts_token(m),
        unrelated(m.diags),
    ensures
        unrelated(spec_lex_token(m).0.diags),
{
    let start = m.pos;
    let b = m.src[start];
    if crate::lex_spec::is_token_end(b) {
    } else if b == 34u8 {
        lemma_body_unrelated(m.at_pos(start + 1), 34u8, start, false, Seq::empty());
    } else if b == 39u8 {
        let m1 = m.diag(crate::lex_spec::dm("E010"@, "strings must use double quotes"@, crate::lex_spec::sp(start, start + 1),
            Some("single-quoted strings are valid in JSON5 but not JSON/JSONC"@), Severity::Error));
        lemma_body_unrelated(m1.at_pos(start + 1), 39u8, start, false, Seq::empty());
    } else if b == 0xE2u8 {
        assert(unrelated(spec_smart_string(m).0.diags));
    } else if b == 45u8 || crate::lex_spec::is_digit(b) {
        lemma_number_unrelated(m);
    } else if b == 43u8 || b == 46u8 {
        let m2 = m.diag(crate::lex_spec::dm("E012"@, "numbers cannot start with '"@ + seq![crate::text::byte_char(b)] + "'"@,
            crate::lex_spec::sp(start, start + 1), Some("valid in JSON5, not JSON/JSONC"@), Severity::Error)).at_pos(start + 1);
        lemma_number_unrelated(m2);
    } else {
        assert(unrelated(spec_lex_ident(m).0.diags));
    }
}

proof fn lemma_number_unrelated(m: LexModel)
    requires
        unrelated(m.diags),
    ensures
        unrelated(spec_lex_number(m).0.diags),
{
    let start = m.pos;
    let m3 = crate::lex_spec::spec_number_int(m).0;
    assert(unrelated(m3.diags));
    let m4 = crate::lex_spec::spec_number_frac(m3, start).0;
    assert(unrelated(m4.diags));
    let m5 = crate::lex_spec::spec_number_exp(m4, start).0;
    assert(unrelated(m5.diags));
    assert(unrelated(crate::lex_spec::precision_check(m5, start).diags));
}

/// The lexer's diagnostics point at no related span.
pub proof fn lemma_next_unrelated(m: LexModel)
    requires
        unrelated(m.diags),
    ensures
        unrelated(spec_next_token(m).0.diags),
    decreases m.len() + 2 - m.pos,
{
    if m.valid() {
        lemma_skip_trivia(m);
        lemma_trivia_unrelated(m);
        let m1 = spec_skip_trivia(m);
        if 0 <= m1.pos < m1.len() {
            if starts_token(m1) {
                lemma_token_unrelated(m1);
            } else {
                let m2 = skip_bad_byte(m1);
                assert(unrelated(m2.diags));
                lemma_next_unrelated(m2);
            }
        }
    }
}

// ------------------------------------------------------------ the parser

/// The invariants both runs keep: the lexer relates no span, and the parser
/// relates spans only for duplicate keys.
pub open spec fn tidy(p: PModel) -> bool {
    unrelated(p.lex.diags) && related_are_duplicates(p.extra)
}

proof fn lemma_bump_raise(p: PModel)
    requires
        tidy(p),
    ensures
        raised(p).bump() == raised(p.bump()),
        tidy(p.bump()),
{
    lemma_next_unrelated(p.lex);
}

proof fn lemma_report_raise(p: PModel, d: DiagModel)
    requires
        tidy(p),
        d.related is None,
    ensures
        raised(p).report(d) == raised(p.report(d)),
        tidy(p.report(d)),
{
    if p.extra.len() < MAX_DIAGNOSTICS {
        assert(raise_all(p.extra).push(d) =~= raise_all(p.extra.push(d)));
    }
}

proof fn lemma_resync_raise(p: PModel, d: int)
    requires
        tidy(p),
    ensures
        spec_resync(raised(p), d) == raised(spec_resync(p, d)),
        tidy(spec_resync(p, d)),
    decreases p.measure(),
{
    if p.valid() && p.measure() >= 0 {
        lemma_bump(p);
        lemma_bump_raise(p);
        match p.tok.tok {
            TokModel::Eof => {},
            TokModel::LBrace => lemma_resync_raise(p.bump(), d + 1),
            TokModel::LBracket => lemma_resync_raise(p.bump(), d + 1),
            TokModel::RBrace => if d != 0 { lemma_resync_raise(p.bump(), d - 1) },
            TokModel::RBracket => if d != 0 { lemma_resync_raise(p.bump(), d - 1) },
            TokModel::Comma => if d != 0 { lemma_resync_raise(p.bump(), d) },
            _ => lemma_resync_raise(p.bump(), d),
        }
    }
}

proof fn lemma_resync_member_raise(p: PModel)
    requires
        tidy(p),
    ensures
        spec_resync_member(raised(p)) == raised(spec_resync_member(p)),
        tidy(spec_resync_member(p)),
    decreases p.measure(),
{
    if p.valid() && p.measure() >= 0 {
        lemma_bump(p);
        lemma_bump_raise(p);
        match p.tok.tok {
            TokModel::Eof => {},
            TokModel::RBrace => {},
            TokModel::Comma => {},
            _ => lemma_resync_member_raise(p.bump()),
        }
    }
}

proof fn lemma_scalar_raise(p: PModel)
    requires
        tidy(p),
    ensures
        spec_scalar(raised(p)) == raised(spec_scalar(p)),
        tidy(spec_scalar(p)),
{
    let q = crate::keep_parse::scalar_pre(p);
    if q.extra != p.extra {
        let d = q.extra.last();
        assert(q == p.report(d).emit(q.events.last()));
        lemma_report_raise(p, d);
    }
    assert(crate::keep_parse::scalar_pre(raised(p)) == raised(q));
    if !(p.tok.tok is Eof) {
        lemma_bump_raise(q);
    }
}

pub open spec fn raise_ostep(s: ObjStep) -> ObjStep {
    match s {
        ObjStep::Break(p) => ObjStep::Break(raised(p)),
        ObjStep::Continue(p, f, seen) => ObjStep::Continue(raised(p), f, seen),
    }
}

pub open spec fn raise_astep(s: ArrStep) -> ArrStep {
    match s {
        ArrStep::Break(p) => ArrStep::Break(raised(p)),
        ArrStep::Continue(p) => ArrStep::Continue(raised(p)),
    }
}

proof fn lemma_value_raise(o: ParseOptions, p: PModel)
    requires
        o.duplicate_keys == DupKeys::Warn,
        tidy(p),
    ensures
        spec_value(as_errors(o), raised(p)) == raised(spec_value(o, p)),
        tidy(spec_value(o, p)),
    decreases p.measure(), 1int, 0int,
{
    if p.valid() && p.measure() >= 0 {
        lemma_bump(p);
        if p.depth >= o.max_depth {
            let d = crate::lex_spec::dm("E040"@, "maximum nesting depth exceeded"@, p.tok.span, None, Severity::Error);
            lemma_report_raise(p, d);
            lemma_resync_raise(p.report(d), 0);
        } else if p.tok.tok is LBrace {
            let q0 = p.emit(crate::parse_spec::EventModel::BeginObject).with_depth(p.depth + 1);
            lemma_bump(q0);
            lemma_bump_raise(q0);
            let p1 = q0.bump();
            lemma_object_loop_raise(o, p1, true, Seq::empty());
        } else if p.tok.tok is LBracket {
            let q0 = p.emit(crate::parse_spec::EventModel::BeginArray).with_depth(p.depth + 1);
            lemma_bump(q0);
            lemma_bump_raise(q0);
            let p1 = q0.bump();
            lemma_array_loop_raise(o, p1, true);
        } else {
            lemma_scalar_raise(p);
        }
    }
}

proof fn lemma_object_loop_raise(o: ParseOptions, p: PModel, first: bool, seen: Seq<Span>)
    requires
        o.duplicate_keys == DupKeys::Warn,
        tidy(p),
    ensures
        spec_object_loop(as_errors(o), raised(p), first, seen) == raised(spec_object_loop(o, p, first, seen)),
        tidy(spec_object_loop(o, p, first, seen)),
    decreases p.measure(), 3int, 0int,
{
    if p.valid() && p.measure() >= 0 {
        lemma_object_member_raise(o, p, first, seen);
        match spec_object_member(o, p, first, seen) {
            ObjStep::Break(p1) => {},
            ObjStep::Continue(p1, f1, s1) => {
                if 0 <= p1.measure() < p.measure() {
                    lemma_object_loop_raise(o, p1, f1, s1);
                }
            },
        }
    }
}

pub open spec fn otidy(s: ObjStep) -> bool {
    match s {
        ObjStep::Break(p) => tidy(p),
        ObjStep::Continue(p, _, _) => tidy(p),
    }
}

proof fn lemma_object_member_raise(o: ParseOptions, p: PModel, first: bool, seen: Seq<Span>)
    requires
        o.duplicate_keys == DupKeys::Warn,
        tidy(p),
        p.valid(),
        p.measure() >= 0,
    ensures
        spec_object_member(as_errors(o), raised(p), first, seen) == raise_ostep(spec_object_member(o, p, first, seen)),
        otidy(spec_object_member(o, p, first, seen)),
    decreases p.measure(), 2int, 0int,
{
    lemma_bump(p);
    lemma_bump_raise(p);
    match p.tok.tok {
        TokModel::RBrace => {},
        TokModel::Eof => {
            let d = crate::lex_spec::dm("E006"@, "unclosed object, expected '}'"@, p.tok.span, None, Severity::Error);
            lemma_report_raise(p, d);
        },
        _ => {
            if first && p.tok.tok is Comma {
                let d = crate::lex_spec::dm("E007"@, "leading comma in object"@, p.tok.span, None, Severity::Error);
                lemma_report_raise(p, d);
                lemma_bump_raise(p.report(d));
            } else if first {
                lemma_member_key_raise(o, p, seen, p.measure());
            } else {
                match p.tok.tok {
                    TokModel::Comma => {
                        let p1 = p.bump();
                        lemma_bump_raise(p1);
                        if p1.tok.tok is RBrace {
                            if o.mode == Mode::Strict {
                                let d = crate::lex_spec::dm("E008"@, "trailing comma in object"@, p1.tok.span,
                                    Some(crate::parse_spec::trailing_comma_hint_object()), Severity::Error);
                                lemma_report_raise(p1, d);
                                lemma_bump_raise(p1.report(d));
                            }
                        } else {
                            assert(object_separator(as_errors(o), raised(p)) == Ok::<PModel, PModel>(raised(p1)));
                            lemma_member_key_raise(o, p1, seen, p.measure());
                        }
                    },
                    _ => {
                        let d = crate::lex_spec::dm("E009"@, "expected ',' or '}' between object members, found "@
                            + crate::parse_spec::tok_name(p.tok.tok), p.tok.span, Some(
                            crate::parse_spec::missing_comma_hint(),
                        ), Severity::Error);
                        lemma_report_raise(p, d);
                        assert(object_separator(as_errors(o), raised(p)) == Ok::<PModel, PModel>(raised(p.report(d))));
                        lemma_member_key_raise(o, p.report(d), seen, p.measure());
                    },
                }
            }
        },
    }
}

proof fn lemma_check_raise(o: ParseOptions, p: PModel, kspan: Span, seen: Seq<Span>)
    requires
        o.duplicate_keys == DupKeys::Warn,
        tidy(p),
    ensures
        spec_check_duplicate(as_errors(o), raised(p), kspan, seen) == (
            raised(spec_check_duplicate(o, p, kspan, seen).0),
            spec_check_duplicate(o, p, kspan, seen).1,
        ),
        tidy(spec_check_duplicate(o, p, kspan, seen).0),
{
    let key = crate::parse_spec::key_bytes(p.lex.src, kspan);
    match crate::parse_spec::find_key(p.lex.src, seen, key, 0) {
        Some(i) => {
            let dw = spec_check_duplicate(o, p, kspan, seen).0.extra.last();
            if p.extra.len() < MAX_DIAGNOSTICS {
                assert(raise_all(p.extra).push(raise(dw)) =~= raise_all(p.extra.push(dw)));
                assert(related_are_duplicates(p.extra.push(dw))) by {
                    reveal_strlit("W060");
                }
            }
        },
        None => {},
    }
}

proof fn lemma_member_key_raise(o: ParseOptions, p1: PModel, seen: Seq<Span>, bound: int)
    requires
        o.duplicate_keys == DupKeys::Warn,
        tidy(p1),
    ensures
        spec_member_key(as_errors(o), raised(p1), seen, bound) == raise_ostep(spec_member_key(o, p1, seen, bound)),
        otidy(spec_member_key(o, p1, seen, bound)),
    decreases bound, 1int, 2int,
{
    match p1.tok.tok {
        TokModel::Str(k) => {
            lemma_check_raise(o, p1, p1.tok.span, seen);
            let (p2, s2) = spec_check_duplicate(o, p1, p1.tok.span, seen);
            let pe = p2.emit(crate::parse_spec::EventModel::Key(k));
            lemma_bump_raise(pe);
            assert(spec_key(as_errors(o), raised(p1), seen) == Some((raised(pe.bump()), s2)));
            lemma_member_value_raise(o, pe.bump(), s2, bound);
        },
        TokModel::Ident(k) => {
            let d = crate::lex_spec::dm("E022"@, "object keys must be quoted: '"@ + k + "'"@, p1.tok.span,
                Some("write \""@ + k + "\" — unquoted keys are valid in JSON5 only"@), Severity::Error);
            lemma_report_raise(p1, d);
            let pe = p1.report(d).emit(crate::parse_spec::EventModel::Key(k));
            lemma_bump_raise(pe);
            assert(spec_key(as_errors(o), raised(p1), seen) == Some((raised(pe.bump()), seen)));
            lemma_member_value_raise(o, pe.bump(), seen, bound);
        },
        TokModel::Num(n) => {
            let d = crate::lex_spec::dm("E022"@, "object keys must be quoted strings"@, p1.tok.span,
                Some("numbers cannot be keys in JSON"@), Severity::Error);
            lemma_report_raise(p1, d);
            let pe = p1.report(d).emit(crate::parse_spec::EventModel::KeyNumber(n));
            lemma_bump_raise(pe);
            assert(spec_key(as_errors(o), raised(p1), seen) == Some((raised(pe.bump()), seen)));
            lemma_member_value_raise(o, pe.bump(), seen, bound);
        },
        _ => {
            let d = crate::lex_spec::dm("E023"@, "expected object key, found "@ + crate::parse_spec::tok_name(p1.tok.tok),
                p1.tok.span, None, Severity::Error);
            lemma_report_raise(p1, d);
            lemma_resync_member_raise(p1.report(d));
        },
    }
}

proof fn lemma_member_value_raise(o: ParseOptions, p3: PModel, seen: Seq<Span>, bound: int)
    requires
        o.duplicate_keys == DupKeys::Warn,
        tidy(p3),
    ensures
        spec_member_value(as_errors(o), raised(p3), seen, bound) == raise_ostep(spec_member_value(o, p3, seen, bound)),
        otidy(spec_member_value(o, p3, seen, bound)),
    decreases bound, 1int, 1int,
{
    if p3.measure() < bound && p3.valid() {
        lemma_bump(p3);
        let p4 = if p3.tok.tok is Colon {
            lemma_bump_raise(p3);
            p3.bump()
        } else {
            let d = crate::lex_spec::dm("E024"@, "expected ':' after object key, found "@ + crate::parse_spec::tok_name(
                p3.tok.tok), p3.tok.span, None, Severity::Error);
            lemma_report_raise(p3, d);
            p3.report(d)
        };
        lemma_value_raise(o, p4);
    }
}

proof fn lemma_array_loop_raise(o: ParseOptions, p: PModel, first: bool)
    requires
        o.duplicate_keys == DupKeys::Warn,
        tidy(p),
    ensures
        spec_array_loop(as_errors(o), raised(p), first) == raised(spec_array_loop(o, p, first)),
        tidy(spec_array_loop(o, p, first)),
    decreases p.measure(), 3int, if first { 1int } else { 0int },
{
    if p.valid() && p.measure() >= 0 {
        lemma_array_element_raise(o, p, first);
        match spec_array_element(o, p, first) {
            ArrStep::Break(p1) => {},
            ArrStep::Continue(p1) => {
                if 0 <= p1.measure() < p.measure() || (first && p1.measure() == p.measure()) {
                    lemma_array_loop_raise(o, p1, false);
                }
            },
        }
    }
}

pub open spec fn atidy(s: ArrStep) -> bool {
    match s {
        ArrStep::Break(p) => tidy(p),
        ArrStep::Continue(p) => tidy(p),
    }
}

proof fn lemma_array_element_raise(o: ParseOptions, p: PModel, first: bool)
    requires
        o.duplicate_keys == DupKeys::Warn,
        tidy(p),
        p.valid(),
        p.measure() >= 0,
    ensures
        spec_array_element(as_errors(o), raised(p), first) == raise_astep(spec_array_element(o, p, first)),
        atidy(spec_array_element(o, p, first)),
    decreases p.measure(), 2int, 0int,
{
    lemma_bump(p);
    lemma_bump_raise(p);
    match p.tok.tok {
        TokModel::RBracket => {},
        TokModel::Eof => {
            let d = crate::lex_spec::dm("E006"@, "unclosed array, expected ']'"@, p.tok.span, None, Severity::Error);
            lemma_report_raise(p, d);
        },
        _ => {
            if first {
                lemma_value_raise(o, p);
            } else {
                match p.tok.tok {
                    TokModel::Comma => {
                        let p1 = p.bump();
                        lemma_bump_raise(p1);
                        if p1.tok.tok is RBracket {
                            if o.mode == Mode::Strict {
                                let d = crate::lex_spec::dm("E008"@, "trailing comma in array"@, p1.tok.span,
                                    Some("trailing commas are valid in JSONC"@), Severity::Error);
                                lemma_report_raise(p1, d);
                                lemma_bump_raise(p1.report(d));
                            }
                        } else {
                            lemma_value_raise(o, p1);
                        }
                    },
                    _ => {
                        let d = crate::lex_spec::dm("E009"@, "expected ',' or ']' between array elements, found "@
                            + crate::parse_spec::tok_name(p.tok.tok), p.tok.span, Some(
                            crate::parse_spec::missing_comma_hint(),
                        ), Severity::Error);
                        lemma_report_raise(p, d);
                        lemma_value_raise(o, p.report(d));
                    },
                }
            }
        },
    }
}

// ------------------------------------------------------------ whole runs

proof fn lemma_run_raise(src: Seq<u8>, o: ParseOptions, keep: bool)
    requires
        o.duplicate_keys == DupKeys::Warn,
    ensures
        spec_parse_state(src, as_errors(o), keep) == raised(spec_parse_state(src, o, keep)),
        tidy(spec_parse_state(src, o, keep)),
{
    let p0 = initial_parser(src, o, keep);
    assert(initial_parser(src, as_errors(o), keep) == raised(p0)) by {
        assert(raise_all(Seq::<DiagModel>::empty()) =~= Seq::<DiagModel>::empty());
    }
    assert(tidy(p0));
    lemma_bump_raise(p0);
    lemma_value_raise(o, p0.bump());
    let q = spec_value(o, p0.bump());
    if !(q.tok.tok is Eof) {
        let d = crate::lex_spec::dm("E002"@, "unexpected content after top-level value"@, q.tok.span,
            if q.tok.tok is LBrace || q.tok.tok is LBracket {
                Some("looks like two JSON documents concatenated — did you mean an array, or NDJSON?"@)
            } else {
                None
            }, Severity::Error);
        assert(spec_parse_state(src, o, keep) == q.report(d));
        lemma_report_raise(q, d);
    }
}

proof fn lemma_insert_raise(s: Seq<DiagModel>, d: DiagModel)
    ensures
        insert_by_start(raise_all(s), raise(d)) == raise_all(insert_by_start(s, d)),
    decreases s.len(),
{
    if s.len() == 0 || s.last().span.start <= d.span.start {
        assert(raise_all(s).push(raise(d)) =~= raise_all(s.push(d)));
    } else {
        lemma_insert_raise(s.drop_last(), d);
        assert(raise_all(s).drop_last() =~= raise_all(s.drop_last()));
        assert(raise_all(insert_by_start(s.drop_last(), d)).push(raise(s.last())) =~= raise_all(
            insert_by_start(s.drop_last(), d).push(s.last()),
        ));
    }
}

proof fn lemma_sort_raise(s: Seq<DiagModel>)
    ensures
        sort_by_start(raise_all(s)) == raise_all(sort_by_start(s)),
    decreases s.len(),
{
    if s.len() > 0 {
        lemma_sort_raise(s.drop_last());
        assert(raise_all(s).drop_last() =~= raise_all(s.drop_last()));
        lemma_insert_raise(sort_by_start(s.drop_last()), s.last());
    }
}

/// The duplicate-key policy changes severities only: with duplicate keys as
/// errors, a run reports what it reports with them as warnings, each
/// duplicate-key diagnostic made an error.
pub proof fn law_policy_changes_only_severity(src: Seq<u8>, o: ParseOptions, keep: bool)
    requires
        o.duplicate_keys == DupKeys::Warn,
    ensures
        spec_diagnostics(src, as_errors(o), keep) == raise_all(spec_diagnostics(src, o, keep)),
        spec_parse_state(src, as_errors(o), keep).events == spec_parse_state(src, o, keep).events,
{
    lemma_run_raise(src, o, keep);
    let p = spec_parse_state(src, o, keep);
    let all = p.lex.diags + p.extra;
    assert(raise_all(p.lex.diags) =~= p.lex.diags);
    assert(p.lex.diags + raise_all(p.extra) =~= raise_all(all));
    lemma_sort_raise(all);
    let s = sort_by_start(all);
    if s.len() > MAX_DIAGNOSTICS {
        assert(raise_all(s).take(MAX_DIAGNOSTICS as int) =~= raise_all(s.take(MAX_DIAGNOSTICS as int)));
    }
}

/// A reported diagnostic of a run is one of those the run made.
proof fn lemma_reported_made(src: Seq<u8>, o: ParseOptions, keep: bool, i: int)
    requires
        spec_parse_state(src, o, keep).lex.diags.len() + spec_parse_state(src, o, keep).extra.len() <= MAX_DIAGNOSTICS,
        0 <= i < spec_diagnostics(src, o, keep).len(),
    ensures
        ({
            let p = spec_parse_state(src, o, keep);
            (p.lex.diags + p.extra).contains(spec_diagnostics(src, o, keep)[i])
        }),
{
    let p = spec_parse_state(src, o, keep);
    let all = p.lex.diags + p.extra;
    let d = spec_diagnostics(src, o, keep);
    crate::laws::law_diagnostics_sorted_and_complete(src, o, keep);
    broadcast use vstd::seq_lib::group_to_multiset_ensures;
    assert(d.contains(d[i]));
    assert(all.to_multiset().count(d[i]) > 0);
}

/// By default (repeated keys as warnings), a strict JSON text within the
/// depth limit gets a duplicate-key warning, pointing at the first
/// occurrence, exactly when one of its objects repeats a key.
pub proof fn law_repeated_keys_are_warned(src: Seq<u8>, o: ParseOptions)
    requires
        src.len() <= isize::MAX,
        o.mode == Mode::Strict,
        o.duplicate_keys == DupKeys::Warn,
        is_json_text(src),
        fits_text(src, o.max_depth as int, false),
        spec_parse_state(src, o, false).lex.diags.len() + spec_parse_state(src, o, false).extra.len()
            < MAX_DIAGNOSTICS,
    ensures
        ({
            let d = spec_validate(src, o);
            (exists|i: int|
                0 <= i < d.len() && d[i].code == "W060"@ && d[i].severity == Severity::Warning
                    && #[trigger] d[i].related is Some) <==> !fits_text(src, o.max_depth as int, true)
        }),
{
    let oe = as_errors(o);
    let d = spec_validate(src, o);
    let de = spec_validate(src, oe);
    law_policy_changes_only_severity(src, o, false);
    lemma_run_raise(src, o, false);
    let p = spec_parse_state(src, o, false);
    let all = p.lex.diags + p.extra;
    assert(raise_all(p.extra).len() == p.extra.len());
    crate::validity::law_json_text_is_accepted(src, o);
    crate::validity::law_strict_validation_is_exact(src, oe);
    assert(crate::validity::uniq(oe));
    if exists|i: int| 0 <= i < d.len() && d[i].code == "W060"@ && d[i].severity == Severity::Warning
        && #[trigger] d[i].related is Some {
        let i = choose|i: int|
            0 <= i < d.len() && d[i].code == "W060"@ && d[i].severity == Severity::Warning
                && #[trigger] d[i].related is Some;
        assert(de[i] == raise(d[i]));
        assert(de[i].severity == Severity::Error);
        assert(!no_errors(de));
    }
    if !fits_text(src, o.max_depth as int, true) {
        assert(!no_errors(de));
        let i = choose|i: int| 0 <= i < de.len() && de[i].severity != Severity::Warning;
        assert(de[i] == raise(d[i]));
        assert(d[i].severity != Severity::Error);
        assert(d[i].related is Some);
        lemma_reported_made(src, o, false, i);
        let k = choose|k: int| 0 <= k < all.len() && all[k] == d[i];
        if k < p.lex.diags.len() {
            assert(all[k] == p.lex.diags[k]);
        } else {
            assert(all[k] == p.extra[k - p.lex.diags.len()]);
        }
        assert(d[i].code == "W060"@);
    }
}

} // verus!
