//! The parser with and without decoded string contents. Its decisions read
//! token kinds and spans, never string text, so the two runs stay in step
//! until the lexers part, after which both have an error or a full lexer
//! log; the verdicts of a full parse and of a validation therefore agree.
use vstd::prelude::*;
use crate::conformance::prefix_of;
use crate::diag::{DiagModel, Span, MAX_DIAGNOSTICS};
use crate::keep_lex::{lemma_next_keep, lemma_prefix_refl, lemma_prefix_trans, spoiled, tsim, with_keep};
use crate::lex_spec::TokModel;
use crate::parse_spec::{
    initial_parser, lemma_bump, no_errors, object_separator, spec_array_element, spec_array_loop,
    spec_check_duplicate, spec_diagnostics, spec_key, spec_member_key, spec_member_value, spec_object_loop,
    spec_object_member, spec_parse_state, spec_resync, spec_resync_member, spec_scalar, spec_validate, spec_value,
    ArrStep, EventModel, ObjStep, PModel, ParseOptions,
};

verus! {

/// Two parser states alike but for string decoding, string text and events.
pub open spec fn psync(p: PModel, q: PModel) -> bool {
    &&& q.lex == with_keep(p.lex, q.lex.keep)
    &&& tsim(p.tok, q.tok)
    &&& p.depth == q.depth
    &&& p.extra == q.extra
}

/// The run has recorded an error, or its lexer log is full.
pub open spec fn pspoiled(p: PModel) -> bool {
    spoiled(p.lex.diags) || !no_errors(p.extra)
}

pub open spec fn prel(p: PModel, q: PModel) -> bool {
    psync(p, q) || (pspoiled(p) && pspoiled(q))
}

/// `q` keeps every diagnostic of `p`.
pub open spec fn grows(p: PModel, q: PModel) -> bool {
    prefix_of(p.lex.diags, q.lex.diags) && prefix_of(p.extra, q.extra)
}

pub open spec fn cm(p: PModel) -> int {
    if p.measure() < 0 { 0 } else { p.measure() }
}

pub open spec fn mx(p: PModel, q: PModel) -> int {
    if cm(p) < cm(q) { cm(q) } else { cm(p) }
}

pub open spec fn ostate(s: ObjStep) -> PModel {
    match s {
        ObjStep::Break(p) => p,
        ObjStep::Continue(p, _, _) => p,
    }
}

pub open spec fn orel(s1: ObjStep, s2: ObjStep) -> bool {
    ||| pspoiled(ostate(s1)) && pspoiled(ostate(s2))
    ||| match (s1, s2) {
        (ObjStep::Break(a), ObjStep::Break(b)) => psync(a, b),
        (ObjStep::Continue(a, f, x), ObjStep::Continue(b, g, y)) => psync(a, b) && f == g && x == y,
        _ => false,
    }
}

pub open spec fn astate(s: ArrStep) -> PModel {
    match s {
        ArrStep::Break(p) => p,
        ArrStep::Continue(p) => p,
    }
}

pub open spec fn arel(s1: ArrStep, s2: ArrStep) -> bool {
    ||| pspoiled(astate(s1)) && pspoiled(astate(s2))
    ||| (s1 is Break <==> s2 is Break) && psync(astate(s1), astate(s2))
}

proof fn lemma_grows_refl(p: PModel)
    ensures
        grows(p, p),
{
    lemma_prefix_refl(p.lex.diags);
    lemma_prefix_refl(p.extra);
}

proof fn lemma_grows_trans(p: PModel, q: PModel, r: PModel)
    requires
        grows(p, q),
        grows(q, r),
    ensures
        grows(p, r),
{
    lemma_prefix_trans(p.lex.diags, q.lex.diags, r.lex.diags);
    lemma_prefix_trans(p.extra, q.extra, r.extra);
}

proof fn lemma_errors_grow(a: Seq<DiagModel>, b: Seq<DiagModel>)
    requires
        prefix_of(a, b),
        !no_errors(a),
    ensures
        !no_errors(b),
{
    let i = choose|i: int| 0 <= i < a.len() && a[i].severity != crate::diag::Severity::Warning;
    assert(b.take(a.len() as int)[i] == b[i]);
}

proof fn lemma_pspoiled_grows(p: PModel, q: PModel)
    requires
        grows(p, q),
        pspoiled(p),
    ensures
        pspoiled(q),
{
    if spoiled(p.lex.diags) {
        crate::keep_lex::lemma_spoiled_grows(p.lex.diags, q.lex.diags);
    } else {
        lemma_errors_grow(p.extra, q.extra);
    }
}

proof fn lemma_report_grows(p: PModel, d: DiagModel)
    ensures
        grows(p, p.report(d)),
{
    lemma_prefix_refl(p.lex.diags);
    lemma_prefix_refl(p.extra);
    assert(p.extra.push(d).take(p.extra.len() as int) =~= p.extra);
}

proof fn lemma_bump_rel(p: PModel, q: PModel)
    requires
        prel(p, q),
    ensures
        prel(p.bump(), q.bump()),
        grows(p, p.bump()),
        grows(q, q.bump()),
{
    lemma_prefix_refl(p.extra);
    lemma_prefix_refl(q.extra);
    assert(with_keep(p.lex, p.lex.keep) == p.lex);
    assert(with_keep(q.lex, q.lex.keep) == q.lex);
    if psync(p, q) {
        lemma_next_keep(p.lex, q.lex.keep);
    } else {
        lemma_next_keep(p.lex, p.lex.keep);
        lemma_next_keep(q.lex, q.lex.keep);
        lemma_pspoiled_grows(p, p.bump());
        lemma_pspoiled_grows(q, q.bump());
    }
}

proof fn lemma_resync_rel(p: PModel, q: PModel, d: int)
    requires
        prel(p, q),
    ensures
        prel(spec_resync(p, d), spec_resync(q, d)),
        grows(p, spec_resync(p, d)),
        grows(q, spec_resync(q, d)),
    decreases mx(p, q), if psync(p, q) { 0int } else { 1int },
{
    lemma_grows_refl(p);
    lemma_grows_refl(q);
    if !psync(p, q) {
        lemma_resync_rel(p, p, d);
        lemma_resync_rel(q, q, d);
        lemma_pspoiled_grows(p, spec_resync(p, d));
        lemma_pspoiled_grows(q, spec_resync(q, d));
    } else if p.valid() && p.measure() >= 0 {
        lemma_bump(p);
        lemma_bump(q);
        lemma_bump_rel(p, q);
        let (p1, q1) = (p.bump(), q.bump());
        let d1 = match p.tok.tok {
            TokModel::LBrace => d + 1,
            TokModel::LBracket => d + 1,
            TokModel::RBrace => d - 1,
            TokModel::RBracket => d - 1,
            _ => d,
        };
        let stops = match p.tok.tok {
            TokModel::Eof => true,
            TokModel::RBrace => d == 0,
            TokModel::RBracket => d == 0,
            TokModel::Comma => d == 0,
            _ => false,
        };
        if !stops {
            assert(spec_resync(p, d) == spec_resync(p1, d1));
            assert(spec_resync(q, d) == spec_resync(q1, d1));
            lemma_resync_rel(p1, q1, d1);
            lemma_grows_trans(p, p1, spec_resync(p1, d1));
            lemma_grows_trans(q, q1, spec_resync(q1, d1));
        }
    }
}

proof fn lemma_resync_member_rel(p: PModel, q: PModel)
    requires
        prel(p, q),
    ensures
        prel(spec_resync_member(p), spec_resync_member(q)),
        grows(p, spec_resync_member(p)),
        grows(q, spec_resync_member(q)),
    decreases mx(p, q), if psync(p, q) { 0int } else { 1int },
{
    lemma_grows_refl(p);
    lemma_grows_refl(q);
    if !psync(p, q) {
        lemma_resync_member_rel(p, p);
        lemma_resync_member_rel(q, q);
        lemma_pspoiled_grows(p, spec_resync_member(p));
        lemma_pspoiled_grows(q, spec_resync_member(q));
    } else if p.valid() && p.measure() >= 0 {
        lemma_bump(p);
        lemma_bump(q);
        lemma_bump_rel(p, q);
        let (p1, q1) = (p.bump(), q.bump());
        match p.tok.tok {
            TokModel::Eof => {},
            TokModel::RBrace => {},
            TokModel::Comma => {},
            _ => {
                lemma_resync_member_rel(p1, q1);
                lemma_grows_trans(p, p1, spec_resync_member(p1));
                lemma_grows_trans(q, q1, spec_resync_member(q1));
            },
        }
    }
}

/// The state a scalar reads before it moves to the next token.
pub open spec fn scalar_pre(p: PModel) -> PModel {
    match p.tok.tok {
        TokModel::Str(s) => p.emit(EventModel::Str(s)),
        TokModel::Num(n) => p.emit(EventModel::Number(n)),
        TokModel::True => p.emit(EventModel::Bool(true)),
        TokModel::False => p.emit(EventModel::Bool(false)),
        TokModel::Null => p.emit(EventModel::Null),
        TokModel::Ident(w) => p.error("E003"@, "unexpected identifier '"@ + w + "'"@, p.tok.span,
            Some("bare words are not values — did you mean a quoted string?"@)).emit(EventModel::Str(w)),
        TokModel::Eof => p.error("E004"@, "unexpected end of input, expected a value"@, p.tok.span, None).emit(
            EventModel::Null),
        _ => p.error("E005"@, "expected a value, found "@ + crate::parse_spec::tok_name(p.tok.tok), p.tok.span, None).emit(
            EventModel::Null),
    }
}

proof fn lemma_scalar_rel(p: PModel, q: PModel)
    requires
        psync(p, q),
    ensures
        prel(spec_scalar(p), spec_scalar(q)),
        grows(p, spec_scalar(p)),
        grows(q, spec_scalar(q)),
{
    let (p1, q1) = (scalar_pre(p), scalar_pre(q));
    lemma_grows_refl(p);
    if p1.extra != p.extra {
        lemma_report_grows(p, p1.extra.last());
        assert(p1.extra == p.report(p1.extra.last()).extra);
    }
    lemma_grows_refl(q);
    if q1.extra != q.extra {
        lemma_report_grows(q, q1.extra.last());
        assert(q1.extra == q.report(q1.extra.last()).extra);
    }
    assert(psync(p1, q1));
    if p.tok.tok is Eof {
        assert(spec_scalar(p) == p1);
        assert(spec_scalar(q) == q1);
    } else {
        assert(spec_scalar(p) == p1.bump());
        assert(spec_scalar(q) == q1.bump());
        lemma_bump_rel(p1, q1);
        lemma_grows_trans(p, p1, p1.bump());
        lemma_grows_trans(q, q1, q1.bump());
    }
}

proof fn lemma_value_rel(o: ParseOptions, p: PModel, q: PModel)
    requires
        prel(p, q),
    ensures
        prel(spec_value(o, p), spec_value(o, q)),
        grows(p, spec_value(o, p)),
        grows(q, spec_value(o, q)),
    decreases mx(p, q), 1int, 0int, if psync(p, q) { 0int } else { 1int },
{
    lemma_grows_refl(p);
    lemma_grows_refl(q);
    if !psync(p, q) {
        lemma_value_rel(o, p, p);
        lemma_value_rel(o, q, q);
        lemma_pspoiled_grows(p, spec_value(o, p));
        lemma_pspoiled_grows(q, spec_value(o, q));
    } else if p.valid() && p.measure() >= 0 {
        if p.depth >= o.max_depth {
            let d = crate::lex_spec::dm("E040"@, "maximum nesting depth exceeded"@, p.tok.span, None,
                crate::diag::Severity::Error);
            let p1 = p.report(d);
            let q1 = q.report(d);
            lemma_report_grows(p, d);
            lemma_report_grows(q, d);
            lemma_resync_rel(p1, q1, 0);
            lemma_grows_trans(p, p1, spec_resync(p1, 0));
            lemma_grows_trans(q, q1, spec_resync(q1, 0));
        } else {
            lemma_bump(p);
            lemma_bump(q);
            if p.tok.tok is LBrace {
                let p0 = p.emit(EventModel::BeginObject).with_depth(p.depth + 1);
                let q0 = q.emit(EventModel::BeginObject).with_depth(q.depth + 1);
                lemma_bump(p0);
                lemma_bump(q0);
                lemma_bump_rel(p0, q0);
                let (p1, q1) = (p0.bump(), q0.bump());
                lemma_object_loop_rel(o, p1, q1, true, Seq::empty());
                let (p2, q2) = (spec_object_loop(o, p1, true, Seq::empty()), spec_object_loop(o, q1, true, Seq::empty()));
                lemma_grows_trans(p, p1, p2);
                lemma_grows_trans(q, q1, q2);
            } else if p.tok.tok is LBracket {
                let p0 = p.emit(EventModel::BeginArray).with_depth(p.depth + 1);
                let q0 = q.emit(EventModel::BeginArray).with_depth(q.depth + 1);
                lemma_bump(p0);
                lemma_bump(q0);
                lemma_bump_rel(p0, q0);
                let (p1, q1) = (p0.bump(), q0.bump());
                lemma_array_loop_rel(o, p1, q1, true);
                let (p2, q2) = (spec_array_loop(o, p1, true), spec_array_loop(o, q1, true));
                lemma_grows_trans(p, p1, p2);
                lemma_grows_trans(q, q1, q2);
            } else {
                lemma_scalar_rel(p, q);
            }
        }
    }
}

proof fn lemma_object_loop_rel(o: ParseOptions, p: PModel, q: PModel, first: bool, seen: Seq<Span>)
    requires
        prel(p, q),
    ensures
        prel(spec_object_loop(o, p, first, seen), spec_object_loop(o, q, first, seen)),
        grows(p, spec_object_loop(o, p, first, seen)),
        grows(q, spec_object_loop(o, q, first, seen)),
    decreases mx(p, q), 3int, 0int, if psync(p, q) { 0int } else { 1int },
{
    lemma_grows_refl(p);
    lemma_grows_refl(q);
    if !psync(p, q) {
        lemma_object_loop_rel(o, p, p, first, seen);
        lemma_object_loop_rel(o, q, q, first, seen);
        lemma_pspoiled_grows(p, spec_object_loop(o, p, first, seen));
        lemma_pspoiled_grows(q, spec_object_loop(o, q, first, seen));
    } else if p.valid() && p.measure() >= 0 {
        lemma_object_member_rel(o, p, q, first, seen);
        let sp = spec_object_member(o, p, first, seen);
        let sq = spec_object_member(o, q, first, seen);
        let (p1, q1) = (ostate(sp), ostate(sq));
        let fp = spec_object_loop(o, p, first, seen);
        let fq = spec_object_loop(o, q, first, seen);
        match (sp, sq) {
            (ObjStep::Continue(a, f1, s1), ObjStep::Continue(b, g1, t1)) => {
                if psync(a, b) && f1 == g1 && s1 == t1 {
                    if 0 <= a.measure() < p.measure() {
                        lemma_object_loop_rel(o, a, b, f1, s1);
                    }
                } else {
                    if 0 <= a.measure() < p.measure() {
                        lemma_object_loop_rel(o, a, a, f1, s1);
                    }
                    if 0 <= b.measure() < q.measure() {
                        lemma_object_loop_rel(o, b, b, g1, t1);
                    }
                }
            },
            (ObjStep::Continue(a, f1, s1), _) => {
                if 0 <= a.measure() < p.measure() {
                    lemma_object_loop_rel(o, a, a, f1, s1);
                }
            },
            (_, ObjStep::Continue(b, g1, t1)) => {
                if 0 <= b.measure() < q.measure() {
                    lemma_object_loop_rel(o, b, b, g1, t1);
                }
            },
            _ => {},
        }
        lemma_grows_refl(p1);
        lemma_grows_refl(q1);
        lemma_grows_trans(p, p1, fp);
        lemma_grows_trans(q, q1, fq);
        if pspoiled(p1) && pspoiled(q1) {
            lemma_pspoiled_grows(p1, fp);
            lemma_pspoiled_grows(q1, fq);
        }
    }
}

/// The member step of two runs in step.
proof fn lemma_object_member_rel(o: ParseOptions, p: PModel, q: PModel, first: bool, seen: Seq<Span>)
    requires
        psync(p, q),
        p.valid(),
        p.measure() >= 0,
    ensures
        orel(spec_object_member(o, p, first, seen), spec_object_member(o, q, first, seen)),
        grows(p, ostate(spec_object_member(o, p, first, seen))),
        grows(q, ostate(spec_object_member(o, q, first, seen))),
    decreases mx(p, q), 2int, 0int, 0int,
{
    lemma_grows_refl(p);
    lemma_grows_refl(q);
    lemma_bump(p);
    lemma_bump(q);
    let sp = spec_object_member(o, p, first, seen);
    let sq = spec_object_member(o, q, first, seen);
    match p.tok.tok {
        TokModel::RBrace => {
            lemma_bump_rel(p, q);
        },
        TokModel::Eof => {
            let d = crate::lex_spec::dm("E006"@, "unclosed object, expected '}'"@, p.tok.span, None,
                crate::diag::Severity::Error);
            lemma_report_grows(p, d);
            lemma_report_grows(q, d);
        },
        _ => {
            if first && p.tok.tok is Comma {
                let d = crate::lex_spec::dm("E007"@, "leading comma in object"@, p.tok.span, None,
                    crate::diag::Severity::Error);
                lemma_report_grows(p, d);
                lemma_report_grows(q, d);
                lemma_bump_rel(p.report(d), q.report(d));
                lemma_grows_trans(p, p.report(d), p.report(d).bump());
                lemma_grows_trans(q, q.report(d), q.report(d).bump());
            } else {
                let sepp = if first { Ok(p) } else { object_separator(o, p) };
                let sepq = if first { Ok(q) } else { object_separator(o, q) };
                if !first {
                    lemma_separator_rel(o, p, q);
                }
                match (sepp, sepq) {
                    (Ok(p1), Ok(q1)) => {
                        lemma_member_key_rel(o, p1, q1, seen, p.measure());
                        lemma_grows_trans(p, p1, ostate(sp));
                        lemma_grows_trans(q, q1, ostate(sq));
                    },
                    (Ok(p1), Err(q1)) => {
                        lemma_member_key_rel(o, p1, p1, seen, p.measure());
                        lemma_grows_trans(p, p1, ostate(sp));
                        lemma_pspoiled_grows(p1, ostate(sp));
                    },
                    (Err(p1), Ok(q1)) => {
                        lemma_member_key_rel(o, q1, q1, seen, p.measure());
                        lemma_grows_trans(q, q1, ostate(sq));
                        lemma_pspoiled_grows(q1, ostate(sq));
                    },
                    (Err(p1), Err(q1)) => {},
                }
            }
        },
    }
}

pub open spec fn rstate(r: Result<PModel, PModel>) -> PModel {
    match r {
        Ok(p) => p,
        Err(p) => p,
    }
}

proof fn lemma_separator_rel(o: ParseOptions, p: PModel, q: PModel)
    requires
        psync(p, q),
        p.valid(),
    ensures
        ({
            let (a, b) = (object_separator(o, p), object_separator(o, q));
            &&& (pspoiled(rstate(a)) && pspoiled(rstate(b))) || ((a is Ok <==> b is Ok) && psync(rstate(a), rstate(b)))
            &&& grows(p, rstate(a))
            &&& grows(q, rstate(b))
            &&& a is Ok ==> rstate(a).valid() && rstate(a).measure() <= p.measure()
            &&& b is Ok ==> rstate(b).valid() && rstate(b).measure() <= q.measure()
        }),
{
    lemma_grows_refl(p);
    lemma_grows_refl(q);
    lemma_bump(p);
    lemma_bump(q);
    match p.tok.tok {
        TokModel::Comma => {
            lemma_bump_rel(p, q);
            let (p1, q1) = (p.bump(), q.bump());
            if psync(p1, q1) {
                if p1.tok.tok is RBrace {
                    let p2 = object_separator(o, p)->Err_0;
                    let q2 = object_separator(o, q)->Err_0;
                    let (pp, qq) = if o.mode == crate::lex_spec::Mode::Strict {
                        let d = crate::lex_spec::dm("E008"@, "trailing comma in object"@, p1.tok.span,
                            Some(crate::parse_spec::trailing_comma_hint_object()), crate::diag::Severity::Error);
                        lemma_report_grows(p1, d);
                        lemma_report_grows(q1, d);
                        (p1.report(d), q1.report(d))
                    } else {
                        lemma_grows_refl(p1);
                        lemma_grows_refl(q1);
                        (p1, q1)
                    };
                    lemma_bump_rel(pp, qq);
                    lemma_grows_trans(p, p1, pp);
                    lemma_grows_trans(q, q1, qq);
                    lemma_grows_trans(p, pp, pp.bump());
                    lemma_grows_trans(q, qq, qq.bump());
                }
            } else {
                lemma_spoiled_sep(o, p);
                lemma_spoiled_sep(o, q);
            }
        },
        TokModel::RBrace => {
            lemma_bump_rel(p, q);
        },
        _ => {
            let d = crate::lex_spec::dm("E009"@, "expected ',' or '}' between object members, found "@
                + crate::parse_spec::tok_name(p.tok.tok), p.tok.span, Some(crate::parse_spec::missing_comma_hint()),
                crate::diag::Severity::Error);
            lemma_report_grows(p, d);
            lemma_report_grows(q, d);
        },
    }
}

/// After a comma, a single run's separator keeps every diagnostic.
proof fn lemma_spoiled_sep(o: ParseOptions, p: PModel)
    requires
        p.valid(),
        p.tok.tok is Comma,
        pspoiled(p.bump()),
    ensures
        grows(p, rstate(object_separator(o, p))),
        pspoiled(rstate(object_separator(o, p))),
        object_separator(o, p) is Ok ==> rstate(object_separator(o, p)).valid()
            && rstate(object_separator(o, p)).measure() <= p.measure(),
{
    lemma_bump(p);
    lemma_bump_rel(p, p);
    let p1 = p.bump();
    lemma_bump(p1);
    lemma_grows_refl(p1);
    if p1.tok.tok is RBrace {
        let d = crate::lex_spec::dm("E008"@, "trailing comma in object"@, p1.tok.span,
            Some(crate::parse_spec::trailing_comma_hint_object()), crate::diag::Severity::Error);
        lemma_report_grows(p1, d);
        let pp = if o.mode == crate::lex_spec::Mode::Strict { p1.report(d) } else { p1 };
        lemma_bump_rel(pp, pp);
        lemma_grows_trans(p1, pp, pp.bump());
        lemma_grows_trans(p, p1, pp.bump());
        lemma_pspoiled_grows(p1, pp.bump());
    }
}

proof fn lemma_key_rel(o: ParseOptions, p1: PModel, q1: PModel, seen: Seq<Span>)
    requires
        psync(p1, q1),
    ensures
        (spec_key(o, p1, seen) is Some <==> spec_key(o, q1, seen) is Some),
        spec_key(o, p1, seen) is Some ==> {
            let (a, sa) = spec_key(o, p1, seen)->0;
            let (b, sb) = spec_key(o, q1, seen)->0;
            &&& psync(a, b) && sa == sb || pspoiled(a) && pspoiled(b)
            &&& grows(p1, a)
            &&& grows(q1, b)
        },
{
    match p1.tok.tok {
        TokModel::Str(k) => {
            let (p2, s2) = spec_check_duplicate(o, p1, p1.tok.span, seen);
            let (q2, t2) = spec_check_duplicate(o, q1, q1.tok.span, seen);
            lemma_grows_refl(p1);
            lemma_grows_refl(q1);
            if p2 != p1 {
                lemma_report_grows(p1, p2.extra.last());
                assert(p2 == p1.report(p2.extra.last()));
            }
            if q2 != q1 {
                lemma_report_grows(q1, q2.extra.last());
                assert(q2 == q1.report(q2.extra.last()));
            }
            assert(psync(p2, q2) && s2 == t2);
            let pe = p2.emit(EventModel::Key(k));
            let qe = q2.emit(EventModel::Key(q1.tok.tok->Str_0));
            lemma_bump_rel(pe, qe);
            lemma_grows_trans(p1, pe, pe.bump());
            lemma_grows_trans(q1, qe, qe.bump());
        },
        TokModel::Ident(k) => {
            let d = crate::lex_spec::dm("E022"@, "object keys must be quoted: '"@ + k + "'"@, p1.tok.span,
                Some("write \""@ + k + "\" — unquoted keys are valid in JSON5 only"@), crate::diag::Severity::Error);
            lemma_report_grows(p1, d);
            lemma_report_grows(q1, d);
            let pe = p1.report(d).emit(EventModel::Key(k));
            let qe = q1.report(d).emit(EventModel::Key(k));
            lemma_bump_rel(pe, qe);
            lemma_grows_trans(p1, pe, pe.bump());
            lemma_grows_trans(q1, qe, qe.bump());
        },
        TokModel::Num(n) => {
            let d = crate::lex_spec::dm("E022"@, "object keys must be quoted strings"@, p1.tok.span,
                Some("numbers cannot be keys in JSON"@), crate::diag::Severity::Error);
            lemma_report_grows(p1, d);
            lemma_report_grows(q1, d);
            let pe = p1.report(d).emit(EventModel::KeyNumber(n));
            let qe = q1.report(d).emit(EventModel::KeyNumber(n));
            lemma_bump_rel(pe, qe);
            lemma_grows_trans(p1, pe, pe.bump());
            lemma_grows_trans(q1, qe, qe.bump());
        },
        _ => {},
    }
}

proof fn lemma_member_key_rel(o: ParseOptions, p1: PModel, q1: PModel, seen: Seq<Span>, bound: int)
    requires
        prel(p1, q1),
    ensures
        orel(spec_member_key(o, p1, seen, bound), spec_member_key(o, q1, seen, bound)),
        grows(p1, ostate(spec_member_key(o, p1, seen, bound))),
        grows(q1, ostate(spec_member_key(o, q1, seen, bound))),
    decreases bound, 1int, 2int, if psync(p1, q1) { 0int } else { 1int },
{
    let sp = spec_member_key(o, p1, seen, bound);
    let sq = spec_member_key(o, q1, seen, bound);
    if !psync(p1, q1) {
        lemma_member_key_rel(o, p1, p1, seen, bound);
        lemma_member_key_rel(o, q1, q1, seen, bound);
        lemma_pspoiled_grows(p1, ostate(sp));
        lemma_pspoiled_grows(q1, ostate(sq));
    } else {
        lemma_key_rel(o, p1, q1, seen);
        match (spec_key(o, p1, seen), spec_key(o, q1, seen)) {
            (Some((p3, s3)), Some((q3, t3))) => {
                if psync(p3, q3) && s3 == t3 {
                    lemma_member_value_rel(o, p3, q3, s3, bound);
                } else {
                    lemma_member_value_rel(o, p3, p3, s3, bound);
                    lemma_member_value_rel(o, q3, q3, t3, bound);
                    lemma_pspoiled_grows(p3, ostate(sp));
                    lemma_pspoiled_grows(q3, ostate(sq));
                }
                lemma_grows_trans(p1, p3, ostate(sp));
                lemma_grows_trans(q1, q3, ostate(sq));
            },
            _ => {
                let d = crate::lex_spec::dm("E023"@, "expected object key, found "@ + crate::parse_spec::tok_name(
                    p1.tok.tok), p1.tok.span, None, crate::diag::Severity::Error);
                lemma_report_grows(p1, d);
                lemma_report_grows(q1, d);
                lemma_resync_member_rel(p1.report(d), q1.report(d));
                lemma_grows_trans(p1, p1.report(d), ostate(sp));
                lemma_grows_trans(q1, q1.report(d), ostate(sq));
            },
        }
    }
}

proof fn lemma_member_value_rel(o: ParseOptions, p3: PModel, q3: PModel, seen: Seq<Span>, bound: int)
    requires
        prel(p3, q3),
    ensures
        orel(spec_member_value(o, p3, seen, bound), spec_member_value(o, q3, seen, bound)),
        grows(p3, ostate(spec_member_value(o, p3, seen, bound))),
        grows(q3, ostate(spec_member_value(o, q3, seen, bound))),
    decreases bound, 1int, 1int, if psync(p3, q3) { 0int } else { 1int },
{
    let sp = spec_member_value(o, p3, seen, bound);
    let sq = spec_member_value(o, q3, seen, bound);
    lemma_grows_refl(p3);
    lemma_grows_refl(q3);
    if !psync(p3, q3) {
        lemma_member_value_rel(o, p3, p3, seen, bound);
        lemma_member_value_rel(o, q3, q3, seen, bound);
        lemma_pspoiled_grows(p3, ostate(sp));
        lemma_pspoiled_grows(q3, ostate(sq));
    } else if p3.measure() < bound && p3.valid() {
        lemma_bump(p3);
        lemma_bump(q3);
        let (p4, q4) = if p3.tok.tok is Colon {
            lemma_bump_rel(p3, q3);
            (p3.bump(), q3.bump())
        } else {
            let d = crate::lex_spec::dm("E024"@, "expected ':' after object key, found "@ + crate::parse_spec::tok_name(
                p3.tok.tok), p3.tok.span, None, crate::diag::Severity::Error);
            lemma_report_grows(p3, d);
            lemma_report_grows(q3, d);
            (p3.report(d), q3.report(d))
        };
        assert(sp == ObjStep::Continue(spec_value(o, p4), false, seen));
        assert(sq == ObjStep::Continue(spec_value(o, q4), false, seen));
        lemma_value_rel(o, p4, q4);
        lemma_grows_trans(p3, p4, spec_value(o, p4));
        lemma_grows_trans(q3, q4, spec_value(o, q4));
    }
}

proof fn lemma_array_loop_rel(o: ParseOptions, p: PModel, q: PModel, first: bool)
    requires
        prel(p, q),
    ensures
        prel(spec_array_loop(o, p, first), spec_array_loop(o, q, first)),
        grows(p, spec_array_loop(o, p, first)),
        grows(q, spec_array_loop(o, q, first)),
    decreases mx(p, q), 3int, if first { 1int } else { 0int }, if psync(p, q) { 0int } else { 1int },
{
    lemma_grows_refl(p);
    lemma_grows_refl(q);
    if !psync(p, q) {
        lemma_array_loop_rel(o, p, p, first);
        lemma_array_loop_rel(o, q, q, first);
        lemma_pspoiled_grows(p, spec_array_loop(o, p, first));
        lemma_pspoiled_grows(q, spec_array_loop(o, q, first));
    } else if p.valid() && p.measure() >= 0 {
        lemma_array_element_rel(o, p, q, first);
        let sp = spec_array_element(o, p, first);
        let sq = spec_array_element(o, q, first);
        let (p1, q1) = (astate(sp), astate(sq));
        let fp = spec_array_loop(o, p, first);
        let fq = spec_array_loop(o, q, first);
        let gop = 0 <= p1.measure() < p.measure() || (first && p1.measure() == p.measure());
        let goq = 0 <= q1.measure() < q.measure() || (first && q1.measure() == q.measure());
        if sp is Continue && sq is Continue && psync(p1, q1) {
            if gop {
                lemma_array_loop_rel(o, p1, q1, false);
            }
        } else {
            if sp is Continue && gop {
                lemma_array_loop_rel(o, p1, p1, false);
            }
            if sq is Continue && goq {
                lemma_array_loop_rel(o, q1, q1, false);
            }
        }
        lemma_grows_refl(p1);
        lemma_grows_refl(q1);
        lemma_grows_trans(p, p1, fp);
        lemma_grows_trans(q, q1, fq);
        if pspoiled(p1) && pspoiled(q1) {
            lemma_pspoiled_grows(p1, fp);
            lemma_pspoiled_grows(q1, fq);
        }
    }
}

/// The separator of an array element after the first: `Err` ends the array.
pub open spec fn array_separator(o: ParseOptions, p: PModel) -> Result<PModel, PModel> {
    match p.tok.tok {
        TokModel::Comma => {
            let p1 = p.bump();
            if p1.tok.tok is RBracket {
                let p2 = if o.mode == crate::lex_spec::Mode::Strict {
                    p1.error("E008"@, "trailing comma in array"@, p1.tok.span, Some("trailing commas are valid in JSONC"@))
                } else {
                    p1
                };
                Err(p2.bump())
            } else {
                Ok(p1)
            }
        },
        TokModel::RBracket => Err(p.bump()),
        _ => Ok(p.error("E009"@, "expected ',' or ']' between array elements, found "@ + crate::parse_spec::tok_name(p.tok.tok),
            p.tok.span, Some(crate::parse_spec::missing_comma_hint()))),
    }
}

proof fn lemma_array_separator_one(o: ParseOptions, p: PModel)
    requires
        p.valid(),
    ensures
        grows(p, rstate(array_separator(o, p))),
        array_separator(o, p) is Ok ==> rstate(array_separator(o, p)).valid()
            && rstate(array_separator(o, p)).measure() <= p.measure(),
{
    lemma_grows_refl(p);
    lemma_bump(p);
    lemma_bump_rel(p, p);
    match p.tok.tok {
        TokModel::Comma => {
            let p1 = p.bump();
            lemma_bump(p1);
            lemma_grows_refl(p1);
            if p1.tok.tok is RBracket {
                let d = crate::lex_spec::dm("E008"@, "trailing comma in array"@, p1.tok.span,
                    Some("trailing commas are valid in JSONC"@), crate::diag::Severity::Error);
                lemma_report_grows(p1, d);
                let pp = if o.mode == crate::lex_spec::Mode::Strict { p1.report(d) } else { p1 };
                lemma_bump_rel(pp, pp);
                lemma_grows_trans(p1, pp, pp.bump());
                lemma_grows_trans(p, p1, pp.bump());
            }
        },
        TokModel::RBracket => {},
        _ => {
            let d = crate::lex_spec::dm("E009"@, "expected ',' or ']' between array elements, found "@
                + crate::parse_spec::tok_name(p.tok.tok), p.tok.span, Some(crate::parse_spec::missing_comma_hint()),
                crate::diag::Severity::Error);
            lemma_report_grows(p, d);
        },
    }
}

proof fn lemma_array_separator_rel(o: ParseOptions, p: PModel, q: PModel)
    requires
        psync(p, q),
        p.valid(),
    ensures
        ({
            let (a, b) = (array_separator(o, p), array_separator(o, q));
            (pspoiled(rstate(a)) && pspoiled(rstate(b))) || ((a is Ok <==> b is Ok) && psync(rstate(a), rstate(b)))
        }),
{
    lemma_bump(p);
    lemma_bump(q);
    lemma_array_separator_one(o, p);
    lemma_array_separator_one(o, q);
    match p.tok.tok {
        TokModel::Comma => {
            lemma_bump_rel(p, q);
            let (p1, q1) = (p.bump(), q.bump());
            if psync(p1, q1) {
                if p1.tok.tok is RBracket {
                    let d = crate::lex_spec::dm("E008"@, "trailing comma in array"@, p1.tok.span,
                        Some("trailing commas are valid in JSONC"@), crate::diag::Severity::Error);
                    let (pp, qq) = if o.mode == crate::lex_spec::Mode::Strict {
                        (p1.report(d), q1.report(d))
                    } else {
                        (p1, q1)
                    };
                    lemma_bump_rel(pp, qq);
                }
            } else {
                let (a, b) = (array_separator(o, p), array_separator(o, q));
                lemma_array_separator_after_comma(o, p);
                lemma_array_separator_after_comma(o, q);
                lemma_pspoiled_grows(p1, rstate(a));
                lemma_pspoiled_grows(q1, rstate(b));
            }
        },
        TokModel::RBracket => {
            lemma_bump_rel(p, q);
        },
        _ => {},
    }
}

/// After a comma, the separator starts from the state past it.
proof fn lemma_array_separator_after_comma(o: ParseOptions, p: PModel)
    requires
        p.valid(),
        p.tok.tok is Comma,
    ensures
        grows(p.bump(), rstate(array_separator(o, p))),
{
    let p1 = p.bump();
    lemma_bump(p);
    lemma_bump(p1);
    lemma_grows_refl(p1);
    if p1.tok.tok is RBracket {
        let d = crate::lex_spec::dm("E008"@, "trailing comma in array"@, p1.tok.span,
            Some("trailing commas are valid in JSONC"@), crate::diag::Severity::Error);
        lemma_report_grows(p1, d);
        let pp = if o.mode == crate::lex_spec::Mode::Strict { p1.report(d) } else { p1 };
        lemma_bump_rel(pp, pp);
        lemma_grows_trans(p1, pp, pp.bump());
    }
}

proof fn lemma_array_element_rel(o: ParseOptions, p: PModel, q: PModel, first: bool)
    requires
        psync(p, q),
        p.valid(),
        p.measure() >= 0,
    ensures
        arel(spec_array_element(o, p, first), spec_array_element(o, q, first)),
        grows(p, astate(spec_array_element(o, p, first))),
        grows(q, astate(spec_array_element(o, q, first))),
    decreases mx(p, q), 2int, 0int, 0int,
{
    lemma_grows_refl(p);
    lemma_grows_refl(q);
    lemma_bump(p);
    lemma_bump(q);
    let sp = spec_array_element(o, p, first);
    let sq = spec_array_element(o, q, first);
    match p.tok.tok {
        TokModel::RBracket => {
            lemma_bump_rel(p, q);
        },
        TokModel::Eof => {
            let d = crate::lex_spec::dm("E006"@, "unclosed array, expected ']'"@, p.tok.span, None,
                crate::diag::Severity::Error);
            lemma_report_grows(p, d);
            lemma_report_grows(q, d);
        },
        _ => {
            let sepp = if first { Ok(p) } else { array_separator(o, p) };
            let sepq = if first { Ok(q) } else { array_separator(o, q) };
            assert(sp == match sepp {
                Err(p1) => ArrStep::Break(p1),
                Ok(p1) => ArrStep::Continue(spec_value(o, p1)),
            });
            assert(sq == match sepq {
                Err(q1) => ArrStep::Break(q1),
                Ok(q1) => ArrStep::Continue(spec_value(o, q1)),
            });
            if !first {
                lemma_array_separator_rel(o, p, q);
                lemma_array_separator_one(o, p);
                lemma_array_separator_one(o, q);
            }
            match (sepp, sepq) {
                (Ok(p1), Ok(q1)) => {
                    lemma_value_rel(o, p1, q1);
                    lemma_grows_trans(p, p1, spec_value(o, p1));
                    lemma_grows_trans(q, q1, spec_value(o, q1));
                },
                (Ok(p1), Err(q1)) => {
                    lemma_value_rel(o, p1, p1);
                    lemma_grows_trans(p, p1, spec_value(o, p1));
                    lemma_pspoiled_grows(p1, spec_value(o, p1));
                },
                (Err(p1), Ok(q1)) => {
                    lemma_value_rel(o, q1, q1);
                    lemma_grows_trans(q, q1, spec_value(o, q1));
                    lemma_pspoiled_grows(q1, spec_value(o, q1));
                },
                (Err(p1), Err(q1)) => {},
            }
        },
    }
}

/// The whole run with and without decoded strings: in step, or both spoiled.
proof fn lemma_run_rel(src: Seq<u8>, o: ParseOptions)
    requires
        src.len() <= isize::MAX,
    ensures
        prel(spec_parse_state(src, o, true), spec_parse_state(src, o, false)),
{
    let p0 = initial_parser(src, o, true);
    let q0 = initial_parser(src, o, false);
    assert(psync(p0, q0));
    lemma_bump_rel(p0, q0);
    lemma_value_rel(o, p0.bump(), q0.bump());
    let p = spec_value(o, p0.bump());
    let q = spec_value(o, q0.bump());
    if !(p.tok.tok is Eof) || !(q.tok.tok is Eof) {
        let dp = spec_parse_state(src, o, true).extra.last();
        let dq = spec_parse_state(src, o, false).extra.last();
        lemma_report_grows(p, dp);
        lemma_report_grows(q, dq);
        if pspoiled(p) && pspoiled(q) {
            if !(p.tok.tok is Eof) {
                assert(spec_parse_state(src, o, true) == p.report(dp));
                lemma_pspoiled_grows(p, p.report(dp));
            }
            if !(q.tok.tok is Eof) {
                assert(spec_parse_state(src, o, false) == q.report(dq));
                lemma_pspoiled_grows(q, q.report(dq));
            }
        }
    }
}

/// A run's reported diagnostics hold an error when it recorded one and
/// none was dropped for the cap.
proof fn lemma_reported_error(src: Seq<u8>, o: ParseOptions, keep: bool)
    requires
        pspoiled(spec_parse_state(src, o, keep)),
        spec_parse_state(src, o, keep).lex.diags.len() + spec_parse_state(src, o, keep).extra.len() < MAX_DIAGNOSTICS,
    ensures
        !no_errors(spec_diagnostics(src, o, keep)),
{
    let p = spec_parse_state(src, o, keep);
    let all = p.lex.diags + p.extra;
    let d = spec_diagnostics(src, o, keep);
    crate::laws::law_diagnostics_sorted_and_complete(src, o, keep);
    let k = if !no_errors(p.lex.diags) {
        let i = choose|i: int| 0 <= i < p.lex.diags.len() && p.lex.diags[i].severity != crate::diag::Severity::Warning;
        assert(all[i] == p.lex.diags[i]);
        i
    } else {
        let i = choose|i: int| 0 <= i < p.extra.len() && p.extra[i].severity != crate::diag::Severity::Warning;
        assert(all[p.lex.diags.len() + i] == p.extra[i]);
        p.lex.diags.len() + i
    };
    broadcast use vstd::seq_lib::group_to_multiset_ensures;
    assert(all.contains(all[k]));
    assert(d.to_multiset().count(all[k]) > 0);
    assert(d.contains(all[k]));
}

/// A full parse and a validation (which decodes no string contents) agree on
/// whether a document has an error, whenever each run records fewer
/// diagnostics than the cap.
pub proof fn law_validate_agrees_with_parse(src: Seq<u8>, o: ParseOptions)
    requires
        src.len() <= isize::MAX,
        spec_parse_state(src, o, true).lex.diags.len() + spec_parse_state(src, o, true).extra.len()
            < MAX_DIAGNOSTICS,
        spec_parse_state(src, o, false).lex.diags.len() + spec_parse_state(src, o, false).extra.len()
            < MAX_DIAGNOSTICS,
    ensures
        no_errors(spec_diagnostics(src, o, true)) == no_errors(spec_validate(src, o)),
{
    lemma_run_rel(src, o);
    let p = spec_parse_state(src, o, true);
    let q = spec_parse_state(src, o, false);
    if !psync(p, q) {
        lemma_reported_error(src, o, true);
        lemma_reported_error(src, o, false);
    }
}

} // verus!
