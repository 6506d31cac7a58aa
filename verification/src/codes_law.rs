//! Every diagnostic of every run carries one of the library's stable codes,
//! and so the report of a run reads back as JSON that the validator accepts.
use vstd::prelude::*;
use vstd::utf8::encode_utf8;
use crate::diag::{DiagModel, Severity, Span, MAX_DIAGNOSTICS};
use crate::lex_spec::{
    lemma_skip_trivia, lemma_string_step, skip_bad_byte, spec_lex_ident, spec_lex_number, spec_lex_token,
    spec_next_token, spec_skip_trivia, spec_smart_string, spec_string_body, spec_u_escape, starts_token,
    string_step, LexModel, Mode, StrStep, TokModel,
};
use crate::parse_spec::{
    cap, initial_parser, insert_by_start, lemma_bump, object_separator, sort_by_start, spec_array_element,
    spec_array_loop, spec_check_duplicate, spec_diagnostics, spec_key, spec_member_value, spec_object_loop,
    spec_object_member, spec_member_key, spec_parse_state, spec_resync, spec_resync_member, spec_scalar, spec_value,
    ArrStep, ObjStep, PModel, ParseOptions,
};
use crate::policy_law::step_model;
use crate::grammar::is_json_text;
use crate::parse_spec::{no_errors, spec_validate};
use crate::report::report_spec;
use crate::report_accept::{law_report_is_accepted, report_height};
use crate::report_law::{law_report_is_json, plain};

verus! {

/// The stable diagnostic codes.
pub open spec fn stable_code(c: Seq<char>) -> bool {
    ||| c == "E001"@
    ||| c == "E002"@
    ||| c == "E003"@
    ||| c == "E004"@
    ||| c == "E005"@
    ||| c == "E006"@
    ||| c == "E007"@
    ||| c == "E008"@
    ||| c == "E009"@
    ||| c == "E010"@
    ||| c == "E011"@
    ||| c == "E012"@
    ||| c == "E013"@
    ||| c == "E014"@
    ||| c == "E015"@
    ||| c == "E016"@
    ||| c == "E018"@
    ||| c == "E019"@
    ||| c == "E020"@
    ||| c == "E021"@
    ||| c == "E022"@
    ||| c == "E023"@
    ||| c == "E024"@
    ||| c == "E025"@
    ||| c == "E026"@
    ||| c == "E027"@
    ||| c == "E030"@
    ||| c == "E031"@
    ||| c == "E040"@
    ||| c == "W001"@
    ||| c == "W017"@
    ||| c == "W050"@
    ||| c == "W051"@
    ||| c == "W060"@
}

/// Every diagnostic carries a stable code.
pub open spec fn stable_codes(d: Seq<DiagModel>) -> bool {
    forall|k: int| 0 <= k < d.len() ==> stable_code(#[trigger] d[k].code)
}

/// A stable code needs no escaping.
pub proof fn lemma_stable_plain(c: Seq<char>)
    requires
        stable_code(c),
    ensures
        plain(c),
{
    reveal_strlit("E001");
    reveal_strlit("E002");
    reveal_strlit("E003");
    reveal_strlit("E004");
    reveal_strlit("E005");
    reveal_strlit("E006");
    reveal_strlit("E007");
    reveal_strlit("E008");
    reveal_strlit("E009");
    reveal_strlit("E010");
    reveal_strlit("E011");
    reveal_strlit("E012");
    reveal_strlit("E013");
    reveal_strlit("E014");
    reveal_strlit("E015");
    reveal_strlit("E016");
    reveal_strlit("E018");
    reveal_strlit("E019");
    reveal_strlit("E020");
    reveal_strlit("E021");
    reveal_strlit("E022");
    reveal_strlit("E023");
    reveal_strlit("E024");
    reveal_strlit("E025");
    reveal_strlit("E026");
    reveal_strlit("E027");
    reveal_strlit("E030");
    reveal_strlit("E031");
    reveal_strlit("E040");
    reveal_strlit("W001");
    reveal_strlit("W017");
    reveal_strlit("W050");
    reveal_strlit("W051");
    reveal_strlit("W060");
}

// ------------------------------------------------------------ the lexer

proof fn lemma_trivia_codes(m: LexModel)
    requires
        m.valid(),
        stable_codes(m.diags),
    ensures
        stable_codes(spec_skip_trivia(m).diags),
    decreases m.len() - m.pos,
{
    if 0 <= m.pos < m.len() {
        let b = m.src[m.pos];
        if crate::lex_spec::is_ws(b) {
            lemma_trivia_codes(m.at_pos(m.pos + 1));
        } else if b == 47u8 && m.pos + 1 < m.len() && m.src[m.pos + 1] == 47u8 {
            crate::lex_spec::lemma_line_end(m.src, m.pos + 2);
            let e = crate::lex_spec::line_end(m.src, m.pos + 2);
            lemma_trivia_codes(crate::lex_spec::comment_diag(m.at_pos(e), m.pos));
        } else if b == 47u8 && m.pos + 1 < m.len() && m.src[m.pos + 1] == 42u8 {
            crate::lex_spec::lemma_block_end(m.src, m.pos + 2);
            let (e, closed) = crate::lex_spec::block_end(m.src, m.pos + 2);
            let m1 = m.at_pos(e);
            let m2 = if closed {
                m1
            } else {
                m1.diag(crate::lex_spec::dm("E020"@, "unterminated block comment"@, crate::lex_spec::sp(m.pos, e), None,
                    Severity::Error))
            };
            lemma_trivia_codes(crate::lex_spec::comment_diag(m2, m.pos));
        }
    }
}

proof fn lemma_body_codes(m: LexModel, quote: u8, open: int, saw: bool, o: Seq<char>)
    requires
        m.valid(),
        stable_codes(m.diags),
    ensures
        stable_codes(spec_string_body(m, quote, open, saw, o).0.diags),
    decreases m.len() + 2 - m.pos,
{
    lemma_string_step(m, quote, open, saw, o);
    let st = string_step(m, quote, open, saw, o);
    assert(stable_codes(step_model(st).diags)) by {
        if m.peek() is Some && m.peek()->0 == 92u8 && m.at(m.pos + 1) == Some(117u8) {
            let u = spec_u_escape(m.at_pos(m.pos + 2)).0;
            assert(stable_codes(u.diags));
        }
    }
    match st {
        StrStep::Next(m1, s1, o1) => lemma_body_codes(m1, quote, open, s1, o1),
        _ => {},
    }
}

proof fn lemma_number_codes(m: LexModel)
    requires
        stable_codes(m.diags),
    ensures
        stable_codes(spec_lex_number(m).0.diags),
{
    let start = m.pos;
    let m3 = crate::lex_spec::spec_number_int(m).0;
    assert(stable_codes(m3.diags));
    let m4 = crate::lex_spec::spec_number_frac(m3, start).0;
    assert(stable_codes(m4.diags));
    let m5 = crate::lex_spec::spec_number_exp(m4, start).0;
    assert(stable_codes(m5.diags));
    assert(stable_codes(crate::lex_spec::precision_check(m5, start).diags));
}

proof fn lemma_token_codes(m: LexModel)
    requires
        m.valid(),
        0 <= m.pos < m.len(),
        starts_token(m),
        stable_codes(m.diags),
    ensures
        stable_codes(spec_lex_token(m).0.diags),
{
    let start = m.pos;
    let b = m.src[start];
    if crate::lex_spec::is_token_end(b) {
    } else if b == 34u8 {
        lemma_body_codes(m.at_pos(start + 1), 34u8, start, false, Seq::empty());
    } else if b == 39u8 {
        let m1 = m.diag(crate::lex_spec::dm("E010"@, "strings must use double quotes"@, crate::lex_spec::sp(start, start + 1),
            Some("single-quoted strings are valid in JSON5 but not JSON/JSONC"@), Severity::Error));
        lemma_body_codes(m1.at_pos(start + 1), 39u8, start, false, Seq::empty());
    } else if b == 0xE2u8 {
        assert(stable_codes(spec_smart_string(m).0.diags));
    } else if b == 45u8 || crate::lex_spec::is_digit(b) {
        lemma_number_codes(m);
    } else if b == 43u8 || b == 46u8 {
        let m2 = m.diag(crate::lex_spec::dm("E012"@, "numbers cannot start with '"@ + seq![crate::text::byte_char(b)] + "'"@,
            crate::lex_spec::sp(start, start + 1), Some("valid in JSON5, not JSON/JSONC"@), Severity::Error)).at_pos(start + 1);
        lemma_number_codes(m2);
    } else {
        assert(stable_codes(spec_lex_ident(m).0.diags));
    }
}

proof fn lemma_next_codes(m: LexModel)
    requires
        stable_codes(m.diags),
    ensures
        stable_codes(spec_next_token(m).0.diags),
    decreases m.len() + 2 - m.pos,
{
    if m.valid() {
        lemma_skip_trivia(m);
        lemma_trivia_codes(m);
        let m1 = spec_skip_trivia(m);
        if 0 <= m1.pos < m1.len() {
            if starts_token(m1) {
                lemma_token_codes(m1);
            } else {
                let m2 = skip_bad_byte(m1);
                assert(stable_codes(m2.diags));
                lemma_next_codes(m2);
            }
        }
    }
}

// ------------------------------------------------------------ the parser

/// The lexer's and the parser's diagnostics all carry stable codes.
pub open spec fn codes_ok(p: PModel) -> bool {
    stable_codes(p.lex.diags) && stable_codes(p.extra)
}

proof fn lemma_bump_codes(p: PModel)
    requires
        codes_ok(p),
    ensures
        codes_ok(p.bump()),
{
    lemma_next_codes(p.lex);
}

proof fn lemma_report_codes(p: PModel, d: DiagModel)
    requires
        codes_ok(p),
        stable_code(d.code),
    ensures
        codes_ok(p.report(d)),
{
}

proof fn lemma_resync_codes(p: PModel, d: int)
    requires
        codes_ok(p),
    ensures
        codes_ok(spec_resync(p, d)),
    decreases p.measure(),
{
    if p.valid() && p.measure() >= 0 {
        lemma_bump(p);
        lemma_bump_codes(p);
        match p.tok.tok {
            TokModel::Eof => {},
            TokModel::LBrace => lemma_resync_codes(p.bump(), d + 1),
            TokModel::LBracket => lemma_resync_codes(p.bump(), d + 1),
            TokModel::RBrace => if d != 0 { lemma_resync_codes(p.bump(), d - 1) },
            TokModel::RBracket => if d != 0 { lemma_resync_codes(p.bump(), d - 1) },
            TokModel::Comma => if d != 0 { lemma_resync_codes(p.bump(), d) },
            _ => lemma_resync_codes(p.bump(), d),
        }
    }
}

proof fn lemma_resync_member_codes(p: PModel)
    requires
        codes_ok(p),
    ensures
        codes_ok(spec_resync_member(p)),
    decreases p.measure(),
{
    if p.valid() && p.measure() >= 0 {
        lemma_bump(p);
        lemma_bump_codes(p);
        match p.tok.tok {
            TokModel::Eof => {},
            TokModel::RBrace => {},
            TokModel::Comma => {},
            _ => lemma_resync_member_codes(p.bump()),
        }
    }
}

proof fn lemma_scalar_codes(p: PModel)
    requires
        codes_ok(p),
    ensures
        codes_ok(spec_scalar(p)),
{
    let q = crate::keep_parse::scalar_pre(p);
    assert(codes_ok(q));
    if !(p.tok.tok is Eof) {
        lemma_bump_codes(q);
    }
}

proof fn lemma_value_codes(o: ParseOptions, p: PModel)
    requires
        codes_ok(p),
    ensures
        codes_ok(spec_value(o, p)),
    decreases p.measure(), 1int, 0int,
{
    if p.valid() && p.measure() >= 0 {
        lemma_bump(p);
        if p.depth >= o.max_depth {
            let d = crate::lex_spec::dm("E040"@, "maximum nesting depth exceeded"@, p.tok.span, None, Severity::Error);
            lemma_report_codes(p, d);
            lemma_resync_codes(p.report(d), 0);
        } else if p.tok.tok is LBrace {
            let q0 = p.emit(crate::parse_spec::EventModel::BeginObject).with_depth(p.depth + 1);
            lemma_bump(q0);
            lemma_bump_codes(q0);
            let p1 = q0.bump();
            lemma_object_loop_codes(o, p1, true, Seq::empty());
        } else if p.tok.tok is LBracket {
            let q0 = p.emit(crate::parse_spec::EventModel::BeginArray).with_depth(p.depth + 1);
            lemma_bump(q0);
            lemma_bump_codes(q0);
            let p1 = q0.bump();
            lemma_array_loop_codes(o, p1, true);
        } else {
            lemma_scalar_codes(p);
        }
    }
}

proof fn lemma_object_loop_codes(o: ParseOptions, p: PModel, first: bool, seen: Seq<Span>)
    requires
        codes_ok(p),
    ensures
        codes_ok(spec_object_loop(o, p, first, seen)),
    decreases p.measure(), 3int, 0int,
{
    if p.valid() && p.measure() >= 0 {
        lemma_object_member_codes(o, p, first, seen);
        match spec_object_member(o, p, first, seen) {
            ObjStep::Break(p1) => {},
            ObjStep::Continue(p1, f1, s1) => {
                if 0 <= p1.measure() < p.measure() {
                    lemma_object_loop_codes(o, p1, f1, s1);
                }
            },
        }
    }
}

pub open spec fn ocodes(s: ObjStep) -> bool {
    match s {
        ObjStep::Break(p) => codes_ok(p),
        ObjStep::Continue(p, _, _) => codes_ok(p),
    }
}

proof fn lemma_object_member_codes(o: ParseOptions, p: PModel, first: bool, seen: Seq<Span>)
    requires
        codes_ok(p),
        p.valid(),
        p.measure() >= 0,
    ensures
        ocodes(spec_object_member(o, p, first, seen)),
    decreases p.measure(), 2int, 0int,
{
    lemma_bump(p);
    lemma_bump_codes(p);
    match p.tok.tok {
        TokModel::RBrace => {},
        TokModel::Eof => {
            let d = crate::lex_spec::dm("E006"@, "unclosed object, expected '}'"@, p.tok.span, None, Severity::Error);
            lemma_report_codes(p, d);
        },
        _ => {
            if first && p.tok.tok is Comma {
                let d = crate::lex_spec::dm("E007"@, "leading comma in object"@, p.tok.span, None, Severity::Error);
                lemma_report_codes(p, d);
                lemma_bump_codes(p.report(d));
            } else if first {
                lemma_member_key_codes(o, p, seen, p.measure());
            } else {
                match p.tok.tok {
                    TokModel::Comma => {
                        let p1 = p.bump();
                        lemma_bump_codes(p1);
                        if p1.tok.tok is RBrace {
                            if o.mode == Mode::Strict {
                                let d = crate::lex_spec::dm("E008"@, "trailing comma in object"@, p1.tok.span,
                                    Some(crate::parse_spec::trailing_comma_hint_object()), Severity::Error);
                                lemma_report_codes(p1, d);
                                lemma_bump_codes(p1.report(d));
                            }
                        } else {
                            assert(object_separator(o, p) == Ok::<PModel, PModel>(p1));
                            lemma_member_key_codes(o, p1, seen, p.measure());
                        }
                    },
                    _ => {
                        let d = crate::lex_spec::dm("E009"@, "expected ',' or '}' between object members, found "@
                            + crate::parse_spec::tok_name(p.tok.tok), p.tok.span, Some(
                            crate::parse_spec::missing_comma_hint(),
                        ), Severity::Error);
                        lemma_report_codes(p, d);
                        assert(object_separator(o, p) == Ok::<PModel, PModel>(p.report(d)));
                        lemma_member_key_codes(o, p.report(d), seen, p.measure());
                    },
                }
            }
        },
    }
}

proof fn lemma_check_codes(o: ParseOptions, p: PModel, kspan: Span, seen: Seq<Span>)
    requires
        codes_ok(p),
    ensures
        codes_ok(spec_check_duplicate(o, p, kspan, seen).0),
{
}

proof fn lemma_member_key_codes(o: ParseOptions, p1: PModel, seen: Seq<Span>, bound: int)
    requires
        codes_ok(p1),
    ensures
        ocodes(spec_member_key(o, p1, seen, bound)),
    decreases bound, 1int, 2int,
{
    match p1.tok.tok {
        TokModel::Str(k) => {
            lemma_check_codes(o, p1, p1.tok.span, seen);
            let (p2, s2) = spec_check_duplicate(o, p1, p1.tok.span, seen);
            let pe = p2.emit(crate::parse_spec::EventModel::Key(k));
            lemma_bump_codes(pe);
            assert(spec_key(o, p1, seen) == Some((pe.bump(), s2)));
            lemma_member_value_codes(o, pe.bump(), s2, bound);
        },
        TokModel::Ident(k) => {
            let d = crate::lex_spec::dm("E022"@, "object keys must be quoted: '"@ + k + "'"@, p1.tok.span,
                Some("write \""@ + k + "\" — unquoted keys are valid in JSON5 only"@), Severity::Error);
            lemma_report_codes(p1, d);
            let pe = p1.report(d).emit(crate::parse_spec::EventModel::Key(k));
            lemma_bump_codes(pe);
            assert(spec_key(o, p1, seen) == Some((pe.bump(), seen)));
            lemma_member_value_codes(o, pe.bump(), seen, bound);
        },
        TokModel::Num(n) => {
            let d = crate::lex_spec::dm("E022"@, "object keys must be quoted strings"@, p1.tok.span,
                Some("numbers cannot be keys in JSON"@), Severity::Error);
            lemma_report_codes(p1, d);
            let pe = p1.report(d).emit(crate::parse_spec::EventModel::KeyNumber(n));
            lemma_bump_codes(pe);
            assert(spec_key(o, p1, seen) == Some((pe.bump(), seen)));
            lemma_member_value_codes(o, pe.bump(), seen, bound);
        },
        _ => {
            let d = crate::lex_spec::dm("E023"@, "expected object key, found "@ + crate::parse_spec::tok_name(p1.tok.tok),
                p1.tok.span, None, Severity::Error);
            lemma_report_codes(p1, d);
            lemma_resync_member_codes(p1.report(d));
        },
    }
}

proof fn lemma_member_value_codes(o: ParseOptions, p3: PModel, seen: Seq<Span>, bound: int)
    requires
        codes_ok(p3),
    ensures
        ocodes(spec_member_value(o, p3, seen, bound)),
    decreases bound, 1int, 1int,
{
    if p3.measure() < bound && p3.valid() {
        lemma_bump(p3);
        let p4 = if p3.tok.tok is Colon {
            lemma_bump_codes(p3);
            p3.bump()
        } else {
            let d = crate::lex_spec::dm("E024"@, "expected ':' after object key, found "@ + crate::parse_spec::tok_name(
                p3.tok.tok), p3.tok.span, None, Severity::Error);
            lemma_report_codes(p3, d);
            p3.report(d)
        };
        lemma_value_codes(o, p4);
    }
}

proof fn lemma_array_loop_codes(o: ParseOptions, p: PModel, first: bool)
    requires
        codes_ok(p),
    ensures
        codes_ok(spec_array_loop(o, p, first)),
    decreases p.measure(), 3int, if first { 1int } else { 0int },
{
    if p.valid() && p.measure() >= 0 {
        lemma_array_element_codes(o, p, first);
        match spec_array_element(o, p, first) {
            ArrStep::Break(p1) => {},
            ArrStep::Continue(p1) => {
                if 0 <= p1.measure() < p.measure() || (first && p1.measure() == p.measure()) {
                    lemma_array_loop_codes(o, p1, false);
                }
            },
        }
    }
}

pub open spec fn acodes(s: ArrStep) -> bool {
    match s {
        ArrStep::Break(p) => codes_ok(p),
        ArrStep::Continue(p) => codes_ok(p),
    }
}

proof fn lemma_array_element_codes(o: ParseOptions, p: PModel, first: bool)
    requires
        codes_ok(p),
        p.valid(),
        p.measure() >= 0,
    ensures
        acodes(spec_array_element(o, p, first)),
    decreases p.measure(), 2int, 0int,
{
    lemma_bump(p);
    lemma_bump_codes(p);
    match p.tok.tok {
        TokModel::RBracket => {},
        TokModel::Eof => {
            let d = crate::lex_spec::dm("E006"@, "unclosed array, expected ']'"@, p.tok.span, None, Severity::Error);
            lemma_report_codes(p, d);
        },
        _ => {
            if first {
                lemma_value_codes(o, p);
            } else {
                match p.tok.tok {
                    TokModel::Comma => {
                        let p1 = p.bump();
                        lemma_bump_codes(p1);
                        if p1.tok.tok is RBracket {
                            if o.mode == Mode::Strict {
                                let d = crate::lex_spec::dm("E008"@, "trailing comma in array"@, p1.tok.span,
                                    Some("trailing commas are valid in JSONC"@), Severity::Error);
                                lemma_report_codes(p1, d);
                                lemma_bump_codes(p1.report(d));
                            }
                        } else {
                            lemma_value_codes(o, p1);
                        }
                    },
                    _ => {
                        let d = crate::lex_spec::dm("E009"@, "expected ',' or ']' between array elements, found "@
                            + crate::parse_spec::tok_name(p.tok.tok), p.tok.span, Some(
                            crate::parse_spec::missing_comma_hint(),
                        ), Severity::Error);
                        lemma_report_codes(p, d);
                        lemma_value_codes(o, p.report(d));
                    },
                }
            }
        },
    }
}

// ------------------------------------------------------------ whole runs

proof fn lemma_run_codes(src: Seq<u8>, o: ParseOptions, keep: bool)
    ensures
        codes_ok(spec_parse_state(src, o, keep)),
{
    let p0 = initial_parser(src, o, keep);
    assert(codes_ok(p0));
    lemma_bump_codes(p0);
    lemma_value_codes(o, p0.bump());
    let q = spec_value(o, p0.bump());
    if !(q.tok.tok is Eof) {
        let d = crate::lex_spec::dm("E002"@, "unexpected content after top-level value"@, q.tok.span,
            if q.tok.tok is LBrace || q.tok.tok is LBracket {
                Some("looks like two JSON documents concatenated — did you mean an array, or NDJSON?"@)
            } else {
                None
            }, Severity::Error);
        assert(spec_parse_state(src, o, keep) == q.report(d));
        lemma_report_codes(q, d);
    }
}

proof fn lemma_insert_codes(s: Seq<DiagModel>, d: DiagModel)
    requires
        stable_codes(s),
        stable_code(d.code),
    ensures
        stable_codes(insert_by_start(s, d)),
    decreases s.len(),
{
    if !(s.len() == 0 || s.last().span.start <= d.span.start) {
        lemma_insert_codes(s.drop_last(), d);
        let t = insert_by_start(s.drop_last(), d);
        assert forall|k: int| 0 <= k < t.push(s.last()).len() implies stable_code(#[trigger] t.push(s.last())[k].code) by {
            if k < t.len() {
                assert(t.push(s.last())[k] == t[k]);
            }
        }
    }
}

proof fn lemma_sort_codes(s: Seq<DiagModel>)
    requires
        stable_codes(s),
    ensures
        stable_codes(sort_by_start(s)),
    decreases s.len(),
{
    if s.len() > 0 {
        assert(stable_codes(s.drop_last()));
        lemma_sort_codes(s.drop_last());
        lemma_insert_codes(sort_by_start(s.drop_last()), s.last());
    }
}

/// Every diagnostic of every run carries one of the stable codes.
pub proof fn law_codes_are_stable(src: Seq<u8>, o: ParseOptions, keep: bool)
    ensures
        stable_codes(spec_diagnostics(src, o, keep)),
{
    lemma_run_codes(src, o, keep);
    let p = spec_parse_state(src, o, keep);
    let all = p.lex.diags + p.extra;
    assert forall|k: int| 0 <= k < all.len() implies stable_code(#[trigger] all[k].code) by {
        if k < p.lex.diags.len() {
            assert(all[k] == p.lex.diags[k]);
        } else {
            assert(all[k] == p.extra[k - p.lex.diags.len()]);
        }
    }
    lemma_sort_codes(all);
    let sorted = sort_by_start(all);
    if sorted.len() > MAX_DIAGNOSTICS {
        assert forall|k: int| 0 <= k < cap(sorted).len() implies stable_code(#[trigger] cap(sorted)[k].code) by {
            assert(cap(sorted)[k] == sorted[k]);
        }
    }
}

// ------------------------------------------------------------ the report of a run

/// The report of any run is JSON text, and strict validation accepts it,
/// whatever the input and options of the run, when the depth limit of the
/// second validation leaves room for how deep the report nests.
pub proof fn law_run_report_is_accepted(src: Seq<u8>, o: ParseOptions, keep: bool, o2: ParseOptions)
    requires
        o2.mode == Mode::Strict,
        report_height(spec_diagnostics(src, o, keep)) <= o2.max_depth,
        encode_utf8(
            report_spec(src, spec_diagnostics(src, o, keep), no_errors(spec_diagnostics(src, o, keep))),
        ).len() <= isize::MAX,
    ensures
        is_json_text(
            encode_utf8(report_spec(src, spec_diagnostics(src, o, keep), no_errors(spec_diagnostics(src, o, keep)))),
        ),
        no_errors(
            spec_validate(
                encode_utf8(
                    report_spec(src, spec_diagnostics(src, o, keep), no_errors(spec_diagnostics(src, o, keep))),
                ),
                o2,
            ),
        ),
{
    let ds = spec_diagnostics(src, o, keep);
    law_codes_are_stable(src, o, keep);
    assert forall|i: int| 0 <= i < ds.len() implies plain(#[trigger] ds[i].code) by {
        lemma_stable_plain(ds[i].code);
    }
    law_report_is_json(src, ds, no_errors(ds));
    law_report_is_accepted(src, ds, no_errors(ds), o2);
}

} // verus!
