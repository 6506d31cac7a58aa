//! A full parse and a validation report the same diagnostics, one for one,
//! on valid UTF-8 in which no backslash is followed by a byte beyond ASCII:
//! there the two lexers never part, and the parser reads token kinds and
//! spans only.
use vstd::prelude::*;
use vstd::utf8::valid_utf8;
use crate::diag::{Severity, Span};
use crate::keep_lex::with_keep;
use crate::keep_parse::psync;
use crate::lex_spec::{Mode, TokModel};
use crate::parse_spec::{
    initial_parser, lemma_bump, object_separator, spec_array_element, spec_array_loop, spec_check_duplicate,
    spec_diagnostics, spec_key, spec_member_key, spec_member_value, spec_object_loop, spec_object_member,
    spec_parse_state, spec_resync, spec_resync_member, spec_scalar, spec_validate, spec_value, ArrStep, EventModel,
    ObjStep, PModel, ParseOptions,
};
use crate::scan_law::{ascii_after_backslash, lemma_next_sync};

verus! {

/// The full parse `p` and the validation `q` in step, over an input where
/// their lexers cannot part.
pub open spec fn sync(p: PModel, q: PModel) -> bool {
    &&& psync(p, q)
    &&& p.lex.keep
    &&& !q.lex.keep
    &&& valid_utf8(p.lex.src)
    &&& ascii_after_backslash(p.lex.src)
}

proof fn lemma_bump_sync(p: PModel, q: PModel)
    requires
        sync(p, q),
    ensures
        sync(p.bump(), q.bump()),
{
    lemma_next_sync(p.lex);
    assert(q.lex == with_keep(p.lex, false));
    if p.lex.valid() {
        crate::lex_spec::lemma_next_token(p.lex);
    }
}

proof fn lemma_resync_sync(p: PModel, q: PModel, d: int)
    requires
        sync(p, q),
    ensures
        sync(spec_resync(p, d), spec_resync(q, d)),
    decreases p.measure(),
{
    if p.valid() && p.measure() >= 0 {
        lemma_bump(p);
        lemma_bump_sync(p, q);
        match p.tok.tok {
            TokModel::Eof => {},
            TokModel::LBrace => lemma_resync_sync(p.bump(), q.bump(), d + 1),
            TokModel::LBracket => lemma_resync_sync(p.bump(), q.bump(), d + 1),
            TokModel::RBrace => if d != 0 { lemma_resync_sync(p.bump(), q.bump(), d - 1) },
            TokModel::RBracket => if d != 0 { lemma_resync_sync(p.bump(), q.bump(), d - 1) },
            TokModel::Comma => if d != 0 { lemma_resync_sync(p.bump(), q.bump(), d) },
            _ => lemma_resync_sync(p.bump(), q.bump(), d),
        }
    }
}

proof fn lemma_resync_member_sync(p: PModel, q: PModel)
    requires
        sync(p, q),
    ensures
        sync(spec_resync_member(p), spec_resync_member(q)),
    decreases p.measure(),
{
    if p.valid() && p.measure() >= 0 {
        lemma_bump(p);
        lemma_bump_sync(p, q);
        match p.tok.tok {
            TokModel::Eof => {},
            TokModel::RBrace => {},
            TokModel::Comma => {},
            _ => lemma_resync_member_sync(p.bump(), q.bump()),
        }
    }
}

proof fn lemma_scalar_sync(p: PModel, q: PModel)
    requires
        sync(p, q),
    ensures
        sync(spec_scalar(p), spec_scalar(q)),
{
    let p1 = crate::keep_parse::scalar_pre(p);
    let q1 = crate::keep_parse::scalar_pre(q);
    assert(sync(p1, q1));
    if !(p.tok.tok is Eof) {
        lemma_bump_sync(p1, q1);
    }
}

proof fn lemma_value_sync(o: ParseOptions, p: PModel, q: PModel)
    requires
        sync(p, q),
    ensures
        sync(spec_value(o, p), spec_value(o, q)),
    decreases p.measure(), 1int, 0int,
{
    if p.valid() && p.measure() >= 0 {
        lemma_bump(p);
        if p.depth >= o.max_depth {
            let d = crate::lex_spec::dm("E040"@, "maximum nesting depth exceeded"@, p.tok.span, None, Severity::Error);
            lemma_resync_sync(p.report(d), q.report(d), 0);
        } else if p.tok.tok is LBrace {
            let p0 = p.emit(EventModel::BeginObject).with_depth(p.depth + 1);
            let q0 = q.emit(EventModel::BeginObject).with_depth(q.depth + 1);
            lemma_bump(p0);
            lemma_bump_sync(p0, q0);
            lemma_object_loop_sync(o, p0.bump(), q0.bump(), true, Seq::empty());
        } else if p.tok.tok is LBracket {
            let p0 = p.emit(EventModel::BeginArray).with_depth(p.depth + 1);
            let q0 = q.emit(EventModel::BeginArray).with_depth(q.depth + 1);
            lemma_bump(p0);
            lemma_bump_sync(p0, q0);
            lemma_array_loop_sync(o, p0.bump(), q0.bump(), true);
        } else {
            lemma_scalar_sync(p, q);
        }
    }
}

/// Two object steps alike: both end the object, or both go on alike.
pub open spec fn osync(s1: ObjStep, s2: ObjStep) -> bool {
    match (s1, s2) {
        (ObjStep::Break(a), ObjStep::Break(b)) => sync(a, b),
        (ObjStep::Continue(a, f, x), ObjStep::Continue(b, g, y)) => sync(a, b) && f == g && x == y,
        _ => false,
    }
}

pub open spec fn async_(s1: ArrStep, s2: ArrStep) -> bool {
    match (s1, s2) {
        (ArrStep::Break(a), ArrStep::Break(b)) => sync(a, b),
        (ArrStep::Continue(a), ArrStep::Continue(b)) => sync(a, b),
        _ => false,
    }
}

proof fn lemma_object_loop_sync(o: ParseOptions, p: PModel, q: PModel, first: bool, seen: Seq<Span>)
    requires
        sync(p, q),
    ensures
        sync(spec_object_loop(o, p, first, seen), spec_object_loop(o, q, first, seen)),
    decreases p.measure(), 3int, 0int,
{
    if p.valid() && p.measure() >= 0 {
        lemma_object_member_sync(o, p, q, first, seen);
        match (spec_object_member(o, p, first, seen), spec_object_member(o, q, first, seen)) {
            (ObjStep::Continue(p1, f1, s1), ObjStep::Continue(q1, _, _)) => {
                if 0 <= p1.measure() < p.measure() {
                    lemma_object_loop_sync(o, p1, q1, f1, s1);
                }
            },
            _ => {},
        }
    }
}

proof fn lemma_object_member_sync(o: ParseOptions, p: PModel, q: PModel, first: bool, seen: Seq<Span>)
    requires
        sync(p, q),
        p.valid(),
        p.measure() >= 0,
    ensures
        osync(spec_object_member(o, p, first, seen), spec_object_member(o, q, first, seen)),
    decreases p.measure(), 2int, 0int,
{
    lemma_bump(p);
    lemma_bump_sync(p, q);
    match p.tok.tok {
        TokModel::RBrace => {},
        TokModel::Eof => {},
        _ => {
            if first && p.tok.tok is Comma {
                let d = crate::lex_spec::dm("E007"@, "leading comma in object"@, p.tok.span, None, Severity::Error);
                lemma_bump_sync(p.report(d), q.report(d));
            } else if first {
                lemma_member_key_sync(o, p, q, seen, p.measure());
            } else {
                match p.tok.tok {
                    TokModel::Comma => {
                        let p1 = p.bump();
                        let q1 = q.bump();
                        if p1.tok.tok is RBrace {
                            if o.mode == Mode::Strict {
                                let d = crate::lex_spec::dm("E008"@, "trailing comma in object"@, p1.tok.span,
                                    Some(crate::parse_spec::trailing_comma_hint_object()), Severity::Error);
                                lemma_bump_sync(p1.report(d), q1.report(d));
                            } else {
                                lemma_bump_sync(p1, q1);
                            }
                        } else {
                            assert(object_separator(o, p) == Ok::<PModel, PModel>(p1));
                            assert(object_separator(o, q) == Ok::<PModel, PModel>(q1));
                            lemma_member_key_sync(o, p1, q1, seen, p.measure());
                        }
                    },
                    _ => {
                        let d = crate::lex_spec::dm("E009"@, "expected ',' or '}' between object members, found "@
                            + crate::parse_spec::tok_name(p.tok.tok), p.tok.span, Some(
                            crate::parse_spec::missing_comma_hint(),
                        ), Severity::Error);
                        assert(crate::parse_spec::tok_name(p.tok.tok) == crate::parse_spec::tok_name(q.tok.tok));
                        assert(object_separator(o, p) == Ok::<PModel, PModel>(p.report(d)));
                        assert(object_separator(o, q) == Ok::<PModel, PModel>(q.report(d)));
                        lemma_member_key_sync(o, p.report(d), q.report(d), seen, p.measure());
                    },
                }
            }
        },
    }
}

proof fn lemma_member_key_sync(o: ParseOptions, p1: PModel, q1: PModel, seen: Seq<Span>, bound: int)
    requires
        sync(p1, q1),
    ensures
        osync(spec_member_key(o, p1, seen, bound), spec_member_key(o, q1, seen, bound)),
    decreases bound, 1int, 2int,
{
    match p1.tok.tok {
        TokModel::Str(k) => {
            let (p2, s2) = spec_check_duplicate(o, p1, p1.tok.span, seen);
            let (q2, t2) = spec_check_duplicate(o, q1, q1.tok.span, seen);
            assert(sync(p2, q2) && s2 == t2);
            let pe = p2.emit(EventModel::Key(k));
            let qk = q1.tok.tok->Str_0;
            let qe = q2.emit(EventModel::Key(qk));
            lemma_bump_sync(pe, qe);
            assert(spec_key(o, p1, seen) == Some((pe.bump(), s2)));
            assert(spec_key(o, q1, seen) == Some((qe.bump(), s2)));
            lemma_member_value_sync(o, pe.bump(), qe.bump(), s2, bound);
        },
        TokModel::Ident(k) => {
            let d = crate::lex_spec::dm("E022"@, "object keys must be quoted: '"@ + k + "'"@, p1.tok.span,
                Some("write \""@ + k + "\" — unquoted keys are valid in JSON5 only"@), Severity::Error);
            let pe = p1.report(d).emit(EventModel::Key(k));
            let qe = q1.report(d).emit(EventModel::Key(k));
            lemma_bump_sync(pe, qe);
            assert(spec_key(o, p1, seen) == Some((pe.bump(), seen)));
            assert(spec_key(o, q1, seen) == Some((qe.bump(), seen)));
            lemma_member_value_sync(o, pe.bump(), qe.bump(), seen, bound);
        },
        TokModel::Num(n) => {
            let d = crate::lex_spec::dm("E022"@, "object keys must be quoted strings"@, p1.tok.span,
                Some("numbers cannot be keys in JSON"@), Severity::Error);
            let pe = p1.report(d).emit(EventModel::KeyNumber(n));
            let qe = q1.report(d).emit(EventModel::KeyNumber(n));
            lemma_bump_sync(pe, qe);
            assert(spec_key(o, p1, seen) == Some((pe.bump(), seen)));
            assert(spec_key(o, q1, seen) == Some((qe.bump(), seen)));
            lemma_member_value_sync(o, pe.bump(), qe.bump(), seen, bound);
        },
        _ => {
            let d = crate::lex_spec::dm("E023"@, "expected object key, found "@ + crate::parse_spec::tok_name(p1.tok.tok),
                p1.tok.span, None, Severity::Error);
            assert(crate::parse_spec::tok_name(p1.tok.tok) == crate::parse_spec::tok_name(q1.tok.tok));
            lemma_resync_member_sync(p1.report(d), q1.report(d));
        },
    }
}

proof fn lemma_member_value_sync(o: ParseOptions, p3: PModel, q3: PModel, seen: Seq<Span>, bound: int)
    requires
        sync(p3, q3),
    ensures
        osync(spec_member_value(o, p3, seen, bound), spec_member_value(o, q3, seen, bound)),
    decreases bound, 1int, 1int,
{
    if p3.measure() < bound && p3.valid() {
        lemma_bump(p3);
        if p3.tok.tok is Colon {
            lemma_bump_sync(p3, q3);
            lemma_value_sync(o, p3.bump(), q3.bump());
        } else {
            let d = crate::lex_spec::dm("E024"@, "expected ':' after object key, found "@ + crate::parse_spec::tok_name(
                p3.tok.tok), p3.tok.span, None, Severity::Error);
            assert(crate::parse_spec::tok_name(p3.tok.tok) == crate::parse_spec::tok_name(q3.tok.tok));
            lemma_value_sync(o, p3.report(d), q3.report(d));
        }
    }
}

proof fn lemma_array_loop_sync(o: ParseOptions, p: PModel, q: PModel, first: bool)
    requires
        sync(p, q),
    ensures
        sync(spec_array_loop(o, p, first), spec_array_loop(o, q, first)),
    decreases p.measure(), 3int, if first { 1int } else { 0int },
{
    if p.valid() && p.measure() >= 0 {
        lemma_array_element_sync(o, p, q, first);
        match (spec_array_element(o, p, first), spec_array_element(o, q, first)) {
            (ArrStep::Continue(p1), ArrStep::Continue(q1)) => {
                if 0 <= p1.measure() < p.measure() || (first && p1.measure() == p.measure()) {
                    lemma_array_loop_sync(o, p1, q1, false);
                }
            },
            _ => {},
        }
    }
}

proof fn lemma_array_element_sync(o: ParseOptions, p: PModel, q: PModel, first: bool)
    requires
        sync(p, q),
        p.valid(),
        p.measure() >= 0,
    ensures
        async_(spec_array_element(o, p, first), spec_array_element(o, q, first)),
    decreases p.measure(), 2int, 0int,
{
    lemma_bump(p);
    lemma_bump_sync(p, q);
    match p.tok.tok {
        TokModel::RBracket => {},
        TokModel::Eof => {},
        _ => {
            if first {
                lemma_value_sync(o, p, q);
            } else {
                match p.tok.tok {
                    TokModel::Comma => {
                        let p1 = p.bump();
                        let q1 = q.bump();
                        if p1.tok.tok is RBracket {
                            if o.mode == Mode::Strict {
                                let d = crate::lex_spec::dm("E008"@, "trailing comma in array"@, p1.tok.span,
                                    Some("trailing commas are valid in JSONC"@), Severity::Error);
                                lemma_bump_sync(p1.report(d), q1.report(d));
                            } else {
                                lemma_bump_sync(p1, q1);
                            }
                        } else {
                            lemma_value_sync(o, p1, q1);
                        }
                    },
                    _ => {
                        let d = crate::lex_spec::dm("E009"@, "expected ',' or ']' between array elements, found "@
                            + crate::parse_spec::tok_name(p.tok.tok), p.tok.span, Some(
                            crate::parse_spec::missing_comma_hint(),
                        ), Severity::Error);
                        assert(crate::parse_spec::tok_name(p.tok.tok) == crate::parse_spec::tok_name(q.tok.tok));
                        lemma_value_sync(o, p.report(d), q.report(d));
                    },
                }
            }
        },
    }
}

/// A full parse and a validation of a document that is valid UTF-8, with no
/// backslash followed by a byte beyond ASCII, report the same diagnostics,
/// one for one (code, message, span, severity, related), and so the same
/// verdict, whatever their number.
pub proof fn law_parse_matches_validate(src: Seq<u8>, o: ParseOptions)
    requires
        valid_utf8(src),
        ascii_after_backslash(src),
    ensures
        spec_diagnostics(src, o, true) == spec_validate(src, o),
{
    let p0 = initial_parser(src, o, true);
    let q0 = initial_parser(src, o, false);
    assert(sync(p0, q0));
    lemma_bump_sync(p0, q0);
    lemma_value_sync(o, p0.bump(), q0.bump());
    let p = spec_value(o, p0.bump());
    let q = spec_value(o, q0.bump());
    if !(p.tok.tok is Eof) {
        let d = crate::lex_spec::dm("E002"@, "unexpected content after top-level value"@, p.tok.span,
            if p.tok.tok is LBrace || p.tok.tok is LBracket {
                Some("looks like two JSON documents concatenated — did you mean an array, or NDJSON?"@)
            } else {
                None
            }, Severity::Error);
        assert(spec_parse_state(src, o, true) == p.report(d));
        assert(spec_parse_state(src, o, false) == q.report(d));
    }
    let ps = spec_parse_state(src, o, true);
    let qs = spec_parse_state(src, o, false);
    assert(ps.lex.diags == qs.lex.diags && ps.extra == qs.extra);
}

} // verus!
