//! Strict validation accepts only JSON text: a run that reports no error,
//! and drops no diagnostic for the cap, has read a document of the grammar.
use vstd::prelude::*;
use crate::conformance::{clean_since, lemma_clean_back, lemma_next_sound, lext, prefix_of, token_kind_sound};
use crate::diag::{DiagModel, Severity, Span, MAX_DIAGNOSTICS};
use crate::grammar::{
    fits_arr_member, fits_arr_open, fits_elements, fits_members, fits_obj_member, fits_obj_open, fits_text,
    fits_value,
    arr_after_member, arr_after_open, elements_at, is_json_text, lemma_ws_end, members_at, obj_after_member,
    obj_after_open, string_end, value_at, ws_end, number_end, literal_at, true_bytes, false_bytes, null_bytes,
};
use crate::lex_spec::{is_digit, lemma_next_token, punct, spec_next_token, LexModel, Mode, TokModel};
use crate::parse_spec::{
    no_errors, spec_parse_state, spec_validate, spec_diagnostics, cap, sort_by_start,
    initial_parser, lemma_bump, object_separator, spec_array_element, spec_array_loop, spec_check_duplicate,
    spec_key, spec_member_key, spec_member_value, spec_object_loop, spec_object_member, spec_resync,
    spec_resync_member, spec_scalar, spec_value, ArrStep, ObjStep, PModel, ParseOptions,
};

use crate::parse_spec::{find_key, key_bytes, DupKeys};
use crate::validity::{seen_keys, uniq};

verus! {

/// `q` continues `p`: the lexer continues, and the parser's diagnostics extend.
pub open spec fn pext(p: PModel, q: PModel) -> bool {
    lext(p.lex, q.lex) && prefix_of(p.extra, q.extra)
}

/// Nothing from `p` on to `q` is an error or was dropped for the cap.
pub open spec fn pclean(p: PModel, q: PModel) -> bool {
    clean_since(q.lex.diags, p.lex.diags.len() as int) && clean_since(q.extra, p.extra.len() as int)
}

/// Strict validation, and the current token is what the grammar reads where it starts.
pub open spec fn tok_ok(p: PModel) -> bool {
    &&& p.valid()
    &&& p.lex.mode == Mode::Strict
    &&& !p.lex.keep
    &&& p.lex.pos <= p.lex.len()
    &&& token_kind_sound(p.lex.src, p.tok)
    &&& p.tok.tok is Eof ==> p.tok.span.start == p.lex.len() && p.lex.pos == p.lex.len()
}

/// Where an object's members continue within the limits: after its `{`
/// when `first`, else after a member, the keys before being `keys`.
pub open spec fn obj_fits(src: Seq<u8>, s: int, first: bool, d: int, mx: int, u: bool, keys: Seq<Seq<u8>>) -> bool {
    if first {
        fits_obj_open(src, s, d, mx, u)
    } else {
        fits_obj_member(src, s, d, mx, u, keys)
    }
}

pub open spec fn arr_fits(src: Seq<u8>, s: int, first: bool, d: int, mx: int, u: bool) -> bool {
    if first {
        fits_arr_open(src, s, d, mx, u)
    } else {
        fits_arr_member(src, s, d, mx, u)
    }
}

/// A member step with no error keeps the limits: a member step that ends the
/// object ends it within them, and one that reads a member leaves it to what
/// follows.
pub open spec fn member_fits(o: ParseOptions, p: PModel, first: bool, seen: Seq<Span>, st: ObjStep) -> bool {
    let src = p.lex.src;
    let s = p.tok.span.start as int;
    let m = o.max_depth as int;
    match st {
        ObjStep::Break(p1) => p1.depth == p.depth && (tok_ok(p) && pclean(p, p1) ==> obj_fits(
            src,
            s,
            first,
            p.depth,
            m,
            uniq(o),
            seen_keys(src, seen),
        )),
        ObjStep::Continue(p1, f1, s1) => p1.depth == p.depth && (f1 ==> first && s1 == seen) && (tok_ok(p) && pclean(
            p,
            p1,
        ) ==> (fits_obj_member(src, p1.tok.span.start as int, p.depth, m, uniq(o), seen_keys(src, s1)) ==> obj_fits(
            src,
            s,
            first,
            p.depth,
            m,
            uniq(o),
            seen_keys(src, seen),
        ))),
    }
}

/// The same for an array element step.
pub open spec fn element_fits(o: ParseOptions, p: PModel, first: bool, st: ArrStep) -> bool {
    let src = p.lex.src;
    let s = p.tok.span.start as int;
    let m = o.max_depth as int;
    match st {
        ArrStep::Break(p1) => p1.depth == p.depth && (tok_ok(p) && pclean(p, p1) ==> arr_fits(
            src,
            s,
            first,
            p.depth,
            m,
            uniq(o),
        )),
        ArrStep::Continue(p1) => p1.depth == p.depth && (tok_ok(p) && pclean(p, p1) ==> (fits_arr_member(
            src,
            p1.tok.span.start as int,
            p.depth,
            m,
            uniq(o),
        ) ==> arr_fits(src, s, first, p.depth, m, uniq(o)))),
    }
}

/// Without the uniqueness rule, the keys seen before make no difference.
proof fn lemma_members_keys(src: Seq<u8>, j: int, d: int, mx: int, k1: Seq<Seq<u8>>, k2: Seq<Seq<u8>>)
    ensures
        fits_members(src, j, d, mx, false, k1) == fits_members(src, j, d, mx, false, k2),
    decreases src.len() - j, 1int,
{
    match string_end(src, j) {
        Some(k) => {
            let c = ws_end(src, k);
            if j < k && k <= c && 0 <= c < src.len() && src[c] == 58u8 {
                let key = src.subrange(j, k);
                let v = ws_end(src, c + 1);
                lemma_ws_end(src, c + 1);
                match value_at(src, v) {
                    Some(e) => {
                        lemma_ws_end(src, e);
                        if v < e <= src.len() {
                            lemma_obj_member_keys(src, ws_end(src, e), d, mx, k1.push(key), k2.push(key));
                        }
                    },
                    None => {},
                }
            }
        },
        None => {},
    }
}

proof fn lemma_obj_member_keys(src: Seq<u8>, f: int, d: int, mx: int, k1: Seq<Seq<u8>>, k2: Seq<Seq<u8>>)
    ensures
        fits_obj_member(src, f, d, mx, false, k1) == fits_obj_member(src, f, d, mx, false, k2),
    decreases src.len() - f, 2int,
{
    if 0 <= f < src.len() && src[f] == 44u8 {
        lemma_ws_end(src, f + 1);
        lemma_members_keys(src, ws_end(src, f + 1), d, mx, k1, k2);
    }
}

/// A key not found among those seen is none of their keys.
proof fn lemma_find_key_none(src: Seq<u8>, seen: Seq<Span>, key: Seq<u8>, i: int)
    requires
        0 <= i <= seen.len(),
        find_key(src, seen, key, i) is None,
    ensures
        forall|x: int| i <= x < seen.len() ==> key_bytes(src, #[trigger] seen[x]) != key,
    decreases seen.len() - i,
{
    if i < seen.len() {
        lemma_find_key_none(src, seen, key, i + 1);
    }
}

pub(crate) proof fn lemma_prefix_refl(a: Seq<DiagModel>)
    ensures
        prefix_of(a, a),
{
    assert(a.take(a.len() as int) =~= a);
}

pub(crate) proof fn lemma_prefix_trans(a: Seq<DiagModel>, b: Seq<DiagModel>, c: Seq<DiagModel>)
    requires
        prefix_of(a, b),
        prefix_of(b, c),
    ensures
        prefix_of(a, c),
{
    assert(c.take(a.len() as int) =~= c.take(b.len() as int).take(a.len() as int));
}

pub(crate) proof fn lemma_pext_refl(p: PModel)
    ensures
        pext(p, p),
{
    lemma_prefix_refl(p.lex.diags);
    lemma_prefix_refl(p.extra);
}

pub(crate) proof fn lemma_pext_trans(p: PModel, q: PModel, r: PModel)
    requires
        pext(p, q),
        pext(q, r),
    ensures
        pext(p, r),
{
    lemma_prefix_trans(p.lex.diags, q.lex.diags, r.lex.diags);
    lemma_prefix_trans(p.extra, q.extra, r.extra);
}

/// A clean stretch is clean over any part of it that starts later.
proof fn lemma_pclean_mid(p: PModel, q: PModel, r: PModel)
    requires
        pext(p, q),
        pext(q, r),
        pclean(p, r),
    ensures
        pclean(p, q),
        pclean(q, r),
{
    lemma_clean_back(q.lex.diags, r.lex.diags, p.lex.diags.len() as int);
    lemma_clean_back(q.extra, r.extra, p.extra.len() as int);
}

/// An error the parser recorded on the way (its diagnostics then were `ex`)
/// is not there in a clean stretch.
proof fn lemma_extra_error(p: PModel, ex: Seq<DiagModel>, r: PModel)
    requires
        prefix_of(ex, r.extra),
        ex == p.report(ex.last()).extra,
        p.extra.len() < MAX_DIAGNOSTICS ==> ex.last().severity == Severity::Error,
    ensures
        !clean_since(r.extra, p.extra.len() as int),
{
    if clean_since(r.extra, p.extra.len() as int) {
        let n = p.extra.len() as int;
        assert(ex.len() <= r.extra.len());
        assert(ex.len() == n + 1);
        assert(ex[n].severity == Severity::Error);
        assert(r.extra.take(ex.len() as int)[n] == r.extra[n]);
    }
}

/// Moving to the next token keeps the parser's diagnostics, and with no
/// error the new token is what the grammar reads after whitespace.
proof fn lemma_bump_sound(p: PModel)
    requires
        p.valid(),
        p.lex.mode == Mode::Strict,
        !p.lex.keep,
    ensures
        pext(p, p.bump()),
        p.bump().valid(),
        p.lex.pos <= p.lex.len() && pclean(p, p.bump()) ==> tok_ok(p.bump())
            && p.bump().tok.span.start as int == ws_end(p.lex.src, p.lex.pos),
{
    lemma_bump(p);
    lemma_next_sound(p.lex);
    lemma_next_token(p.lex);
    lemma_prefix_refl(p.extra);
}

/// A parser state of strict validation.
pub open spec fn pok(p: PModel) -> bool {
    p.valid() && p.lex.mode == Mode::Strict && !p.lex.keep
}

pub(crate) proof fn lemma_report_ext(p: PModel, d: DiagModel)
    ensures
        pext(p, p.report(d)),
{
    lemma_prefix_refl(p.lex.diags);
    lemma_prefix_refl(p.extra);
    assert(p.extra.push(d).take(p.extra.len() as int) =~= p.extra);
}

proof fn lemma_resync_ext(p: PModel, d: int)
    requires
        pok(p),
    ensures
        pext(p, spec_resync(p, d)),
        pok(spec_resync(p, d)),
    decreases p.measure(),
{
    lemma_pext_refl(p);
    if p.measure() >= 0 {
        lemma_bump_sound(p);
        lemma_bump(p);
        let q = p.bump();
        match p.tok.tok {
            TokModel::Eof => {},
            TokModel::LBrace => { lemma_resync_ext(q, d + 1); lemma_pext_trans(p, q, spec_resync(q, d + 1)); },
            TokModel::LBracket => { lemma_resync_ext(q, d + 1); lemma_pext_trans(p, q, spec_resync(q, d + 1)); },
            TokModel::RBrace => if d != 0 { lemma_resync_ext(q, d - 1); lemma_pext_trans(p, q, spec_resync(q, d - 1)); },
            TokModel::RBracket => if d != 0 { lemma_resync_ext(q, d - 1); lemma_pext_trans(p, q, spec_resync(q, d - 1)); },
            TokModel::Comma => if d != 0 { lemma_resync_ext(q, d); lemma_pext_trans(p, q, spec_resync(q, d)); },
            _ => { lemma_resync_ext(q, d); lemma_pext_trans(p, q, spec_resync(q, d)); },
        }
    }
}

proof fn lemma_resync_member_ext(p: PModel)
    requires
        pok(p),
    ensures
        pext(p, spec_resync_member(p)),
        pok(spec_resync_member(p)),
    decreases p.measure(),
{
    lemma_pext_refl(p);
    if p.measure() >= 0 {
        lemma_bump_sound(p);
        lemma_bump(p);
        let q = p.bump();
        match p.tok.tok {
            TokModel::Eof => {},
            TokModel::RBrace => {},
            TokModel::Comma => {},
            _ => { lemma_resync_member_ext(q); lemma_pext_trans(p, q, spec_resync_member(q)); },
        }
    }
}

/// The byte at the start of a sound token that is not a brace or bracket.
pub(crate) proof fn lemma_sound_start(p: PModel)
    requires
        tok_ok(p),
    ensures
        p.tok.tok is RBrace ==> p.lex.src[p.tok.span.start as int] == 125u8,
        p.tok.tok is RBracket ==> p.lex.src[p.tok.span.start as int] == 93u8,
        p.tok.tok is Comma ==> p.lex.src[p.tok.span.start as int] == 44u8,
        p.tok.tok is Colon ==> p.lex.src[p.tok.span.start as int] == 58u8,
        p.tok.tok is LBrace ==> p.lex.src[p.tok.span.start as int] == 123u8,
        p.tok.tok is LBracket ==> p.lex.src[p.tok.span.start as int] == 91u8,
        !(p.tok.tok is Eof) ==> p.tok.span.end == p.lex.pos && p.tok.span.start < p.tok.span.end,
{
}

/// A token that reads as a literal value does not start with a brace or bracket.
proof fn lemma_scalar_start(p: PModel)
    requires
        tok_ok(p),
        p.tok.tok is Str || p.tok.tok is Num || p.tok.tok is True || p.tok.tok is False || p.tok.tok is Null,
    ensures
        p.lex.src[p.tok.span.start as int] != 123u8,
        p.lex.src[p.tok.span.start as int] != 91u8,
{
    let src = p.lex.src;
    let s = p.tok.span.start as int;
    if p.tok.tok is True {
        assert(src.subrange(s, s + 4)[0] == src[s]);
    } else if p.tok.tok is False {
        assert(src.subrange(s, s + 5)[0] == src[s]);
    } else if p.tok.tok is Null {
        assert(src.subrange(s, s + 4)[0] == src[s]);
    }
}

/// A literal value with no error is a value of the grammar.
proof fn lemma_scalar_sound(p: PModel) -> (e: int)
    requires
        pok(p),
        !(p.tok.tok is LBrace),
        !(p.tok.tok is LBracket),
    ensures
        pext(p, spec_scalar(p)),
        pok(spec_scalar(p)),
        tok_ok(p) && pclean(p, spec_scalar(p)) ==> tok_ok(spec_scalar(p)) && value_at(
            p.lex.src,
            p.tok.span.start as int,
        ) == Some(e) && ws_end(p.lex.src, e) == spec_scalar(p).tok.span.start as int && spec_scalar(p).measure()
            < p.measure() && p.tok.span.start < e,
        tok_ok(p) && pclean(p, spec_scalar(p)) ==> (p.tok.tok is Str || p.tok.tok is Num || p.tok.tok is True
            || p.tok.tok is False || p.tok.tok is Null),
{
    let q = spec_scalar(p);
    let src = p.lex.src;
    let s = p.tok.span.start as int;
    lemma_bump_sound(p);
    lemma_bump(p);
    lemma_report_ext(p, q.extra.last());
    lemma_prefix_refl(p.lex.diags);
    let e = p.tok.span.end as int;
    match p.tok.tok {
        TokModel::Str(_) | TokModel::Num(_) | TokModel::True | TokModel::False | TokModel::Null => {
            assert(q.lex == p.bump().lex && q.tok == p.bump().tok && q.extra == p.extra);
            if tok_ok(p) && pclean(p, q) {
                lemma_sound_start(p);
                if p.tok.tok is Num {
                    assert(src[s] == 45u8 || is_digit(src[s]));
                }
            }
        },
        TokModel::Eof => {
            assert(q.lex == p.lex && q.tok == p.tok);
            lemma_prefix_refl(q.extra);
            lemma_extra_error(p, q.extra, q);
        },
        _ => {
            assert(q.lex == p.bump().lex && q.tok == p.bump().tok);
            lemma_prefix_refl(q.extra);
            lemma_extra_error(p, q.extra, q);
        },
    }
    e
}

/// A value with no error is a value of the grammar; the parser then stands at
/// the first token after it.
proof fn lemma_value_sound(o: ParseOptions, p: PModel) -> (e: int)
    requires
        pok(p),
        o.mode == Mode::Strict,
    ensures
        pext(p, spec_value(o, p)),
        pok(spec_value(o, p)),
        tok_ok(p) && pclean(p, spec_value(o, p)) ==> tok_ok(spec_value(o, p)) && value_at(
            p.lex.src,
            p.tok.span.start as int,
        ) == Some(e) && ws_end(p.lex.src, e) == spec_value(o, p).tok.span.start as int && spec_value(o, p).measure()
            < p.measure() && p.tok.span.start < e,
        tok_ok(p) && pclean(p, spec_value(o, p)) ==> fits_value(p.lex.src, p.tok.span.start as int, p.depth, o.max_depth as int, uniq(o)),
        spec_value(o, p).depth == p.depth,
    decreases p.measure(), 5int,
{
    let q = spec_value(o, p);
    lemma_bump(p);
    if p.depth >= o.max_depth {
        let pe = p.error("E040"@, "maximum nesting depth exceeded"@, p.tok.span, None);
        lemma_report_ext(p, pe.extra.last());
        assert(pe == p.report(pe.extra.last()));
        lemma_resync_ext(pe, 0);
        crate::depth_law::lemma_resync_keeps(pe, 0);
        let r = spec_resync(pe, 0);
        assert(q.lex == r.lex && q.extra == r.extra && q.tok == r.tok);
        lemma_pext_trans(p, pe, r);
        lemma_extra_error(p, pe.extra, q);
        0
    } else if p.tok.tok is LBrace {
        lemma_object_value(o, p)
    } else if p.tok.tok is LBracket {
        lemma_array_value(o, p)
    } else {
        assert(q == spec_scalar(p));
        let e = lemma_scalar_sound(p);
        if tok_ok(p) && pclean(p, q) {
            let src = p.lex.src;
            let s = p.tok.span.start as int;
            lemma_scalar_start(p);
            assert(src[s] != 123u8 && src[s] != 91u8);
        }
        e
    }
}

proof fn lemma_object_value(o: ParseOptions, p: PModel) -> (e: int)
    requires
        pok(p),
        o.mode == Mode::Strict,
        p.tok.tok is LBrace,
        p.depth < o.max_depth,
    ensures
        pext(p, spec_value(o, p)),
        pok(spec_value(o, p)),
        tok_ok(p) && pclean(p, spec_value(o, p)) ==> tok_ok(spec_value(o, p)) && value_at(
            p.lex.src,
            p.tok.span.start as int,
        ) == Some(e) && ws_end(p.lex.src, e) == spec_value(o, p).tok.span.start as int && spec_value(o, p).measure()
            < p.measure() && p.tok.span.start < e,
        tok_ok(p) && pclean(p, spec_value(o, p)) ==> fits_value(p.lex.src, p.tok.span.start as int, p.depth, o.max_depth as int, uniq(o)),
        spec_value(o, p).depth == p.depth,
    decreases p.measure(), 4int,
{
    let q = spec_value(o, p);
    let src = p.lex.src;
    let s = p.tok.span.start as int;
    lemma_bump(p);
    let q0 = p.emit(crate::parse_spec::EventModel::BeginObject).with_depth(p.depth + 1);
    lemma_bump(q0);
    lemma_bump_sound(q0);
    let p1 = q0.bump();
    assert(p1.lex == p.bump().lex && p1.extra == p.extra);
    lemma_bump_sound(p);
    let e1 = lemma_object_loop_sound(o, p1, true, Seq::empty());
    let f = spec_object_loop(o, p1, true, Seq::empty());
    assert(q.lex == f.lex && q.extra == f.extra && q.tok == f.tok);
    lemma_pext_trans(p, p1, f);
    if tok_ok(p) && pclean(p, q) {
        lemma_pclean_mid(p, p1, f);
        lemma_sound_start(p);
        lemma_ws_end(src, s + 1);
    }
    e1
}

proof fn lemma_array_value(o: ParseOptions, p: PModel) -> (e: int)
    requires
        pok(p),
        o.mode == Mode::Strict,
        p.tok.tok is LBracket,
        p.depth < o.max_depth,
    ensures
        pext(p, spec_value(o, p)),
        pok(spec_value(o, p)),
        tok_ok(p) && pclean(p, spec_value(o, p)) ==> tok_ok(spec_value(o, p)) && value_at(
            p.lex.src,
            p.tok.span.start as int,
        ) == Some(e) && ws_end(p.lex.src, e) == spec_value(o, p).tok.span.start as int && spec_value(o, p).measure()
            < p.measure() && p.tok.span.start < e,
        tok_ok(p) && pclean(p, spec_value(o, p)) ==> fits_value(p.lex.src, p.tok.span.start as int, p.depth, o.max_depth as int, uniq(o)),
        spec_value(o, p).depth == p.depth,
    decreases p.measure(), 4int,
{
    let q = spec_value(o, p);
    let src = p.lex.src;
    let s = p.tok.span.start as int;
    lemma_bump(p);
    let q0 = p.emit(crate::parse_spec::EventModel::BeginArray).with_depth(p.depth + 1);
    lemma_bump(q0);
    lemma_bump_sound(q0);
    let p1 = q0.bump();
    assert(p1.lex == p.bump().lex && p1.extra == p.extra);
    lemma_bump_sound(p);
    let e1 = lemma_array_loop_sound(o, p1, true);
    let f = spec_array_loop(o, p1, true);
    assert(q.lex == f.lex && q.extra == f.extra && q.tok == f.tok);
    lemma_pext_trans(p, p1, f);
    if tok_ok(p) && pclean(p, q) {
        lemma_pclean_mid(p, p1, f);
        lemma_sound_start(p);
        lemma_ws_end(src, s + 1);
    }
    e1
}

/// The members of an object, from a first member or after one, with no
/// error: what the grammar reads there.
proof fn lemma_object_loop_sound(o: ParseOptions, p: PModel, first: bool, seen: Seq<Span>) -> (e: int)
    requires
        first ==> seen == Seq::<Span>::empty(),
        pok(p),
        o.mode == Mode::Strict,
    ensures
        pext(p, spec_object_loop(o, p, first, seen)),
        pok(spec_object_loop(o, p, first, seen)),
        tok_ok(p) && pclean(p, spec_object_loop(o, p, first, seen)) ==> tok_ok(spec_object_loop(o, p, first, seen))
            && (if first { obj_after_open(p.lex.src, p.tok.span.start as int) } else { obj_after_member(
            p.lex.src,
            p.tok.span.start as int,
        ) }) == Some(e) && ws_end(p.lex.src, e) == spec_object_loop(o, p, first, seen).tok.span.start as int
            && spec_object_loop(o, p, first, seen).measure() <= p.measure() && p.tok.span.start < e,
        spec_object_loop(o, p, first, seen).depth == p.depth,
        tok_ok(p) && pclean(p, spec_object_loop(o, p, first, seen)) ==> obj_fits(p.lex.src, p.tok.span.start as int, first, p.depth, o.max_depth as int, uniq(o), seen_keys(p.lex.src, seen)),
    decreases p.measure(), 7int,
{
    let f = spec_object_loop(o, p, first, seen);
    lemma_bump(p);
    let r = lemma_object_member_sound(o, p, first, seen);
    match spec_object_member(o, p, first, seen) {
        ObjStep::Break(p1) => r,
        ObjStep::Continue(p1, f1, s1) => {
            if 0 <= p1.measure() < p.measure() {
                let e = lemma_object_loop_sound(o, p1, f1, s1);
                lemma_pext_trans(p, p1, f);
                if tok_ok(p) && pclean(p, f) {
                    lemma_pclean_mid(p, p1, f);
                }
                e
            } else {
                r
            }
        },
    }
}

/// One member step with no error: the grammar reads, from where the step
/// started, either the end of the object or the same as from where it stopped.
proof fn lemma_object_member_sound(o: ParseOptions, p: PModel, first: bool, seen: Seq<Span>) -> (e: int)
    requires
        first ==> seen == Seq::<Span>::empty(),
        pok(p),
        o.mode == Mode::Strict,
    ensures
        match spec_object_member(o, p, first, seen) {
            ObjStep::Break(p1) => pext(p, p1) && pok(p1) && (tok_ok(p) && pclean(p, p1) ==> tok_ok(p1) && (if first {
                obj_after_open(p.lex.src, p.tok.span.start as int)
            } else {
                obj_after_member(p.lex.src, p.tok.span.start as int)
            }) == Some(e) && ws_end(p.lex.src, e) == p1.tok.span.start as int && p1.measure() <= p.measure()
                && p.tok.span.start < e),
            ObjStep::Continue(p1, f1, _) => pext(p, p1) && pok(p1) && (tok_ok(p) && pclean(p, p1) ==> tok_ok(p1) && !f1
                && p1.measure() < p.measure() && (if first {
                obj_after_open(p.lex.src, p.tok.span.start as int)
            } else {
                obj_after_member(p.lex.src, p.tok.span.start as int)
            }) == obj_after_member(p.lex.src, p1.tok.span.start as int) && p.tok.span.start < p1.tok.span.start),
        },
        member_fits(o, p, first, seen, spec_object_member(o, p, first, seen)),
    decreases p.measure(), 6int,
{
    let src = p.lex.src;
    let s = p.tok.span.start as int;
    lemma_bump(p);
    lemma_bump_sound(p);
    lemma_prefix_refl(p.lex.diags);
    lemma_prefix_refl(p.extra);
    if tok_ok(p) {
        lemma_sound_start(p);
    }
    if p.tok.tok is RBrace || p.tok.tok is Eof || (first && p.tok.tok is Comma) {
        lemma_om_end(o, p, first, seen)
    } else if first {
        lemma_om_first(o, p, first, seen)
    } else if p.tok.tok is Comma {
        lemma_om_comma(o, p, first, seen)
    } else {
        lemma_om_missing(o, p, first, seen)
    }
}

proof fn lemma_om_end(o: ParseOptions, p: PModel, first: bool, seen: Seq<Span>) -> (e: int)
    requires
        first ==> seen == Seq::<Span>::empty(),
        pok(p),
        o.mode == Mode::Strict,
        p.tok.tok is RBrace || p.tok.tok is Eof || (first && p.tok.tok is Comma),
    ensures
        match spec_object_member(o, p, first, seen) {
            ObjStep::Break(p1) => pext(p, p1) && pok(p1) && (tok_ok(p) && pclean(p, p1) ==> tok_ok(p1) && (if first {
                obj_after_open(p.lex.src, p.tok.span.start as int)
            } else {
                obj_after_member(p.lex.src, p.tok.span.start as int)
            }) == Some(e) && ws_end(p.lex.src, e) == p1.tok.span.start as int && p1.measure() <= p.measure()
                && p.tok.span.start < e),
            ObjStep::Continue(p1, f1, _) => pext(p, p1) && pok(p1) && (tok_ok(p) && pclean(p, p1) ==> tok_ok(p1) && !f1
                && p1.measure() < p.measure() && (if first {
                obj_after_open(p.lex.src, p.tok.span.start as int)
            } else {
                obj_after_member(p.lex.src, p.tok.span.start as int)
            }) == obj_after_member(p.lex.src, p1.tok.span.start as int) && p.tok.span.start < p1.tok.span.start),
        },
        member_fits(o, p, first, seen, spec_object_member(o, p, first, seen)),
    decreases p.measure(), 5int,
{
    let src = p.lex.src;
    let s = p.tok.span.start as int;
    lemma_bump(p);
    lemma_bump_sound(p);
    lemma_prefix_refl(p.lex.diags);
    lemma_prefix_refl(p.extra);
    if tok_ok(p) {
        lemma_sound_start(p);
    }
    if p.tok.tok is RBrace {
        s + 1
    } else if p.tok.tok is Eof {
        let p1 = p.error("E006"@, "unclosed object, expected '}'"@, p.tok.span, None);
        lemma_report_ext(p, p1.extra.last());
        assert(p1 == p.report(p1.extra.last()));
        lemma_prefix_refl(p1.extra);
        lemma_extra_error(p, p1.extra, p1);
        0
    } else {
        let pe = p.error("E007"@, "leading comma in object"@, p.tok.span, None);
        lemma_report_ext(p, pe.extra.last());
        assert(pe == p.report(pe.extra.last()));
        let p1 = pe.bump();
        assert(p1.lex == p.bump().lex && p1.extra == pe.extra);
        lemma_prefix_refl(p1.extra);
        lemma_extra_error(p, pe.extra, p1);
        0
    }
}

proof fn lemma_om_first(o: ParseOptions, p: PModel, first: bool, seen: Seq<Span>) -> (e: int)
    requires
        first ==> seen == Seq::<Span>::empty(),
        pok(p),
        o.mode == Mode::Strict,
        first,
        !(p.tok.tok is RBrace || p.tok.tok is Eof || p.tok.tok is Comma),
    ensures
        match spec_object_member(o, p, first, seen) {
            ObjStep::Break(p1) => pext(p, p1) && pok(p1) && (tok_ok(p) && pclean(p, p1) ==> tok_ok(p1) && (if first {
                obj_after_open(p.lex.src, p.tok.span.start as int)
            } else {
                obj_after_member(p.lex.src, p.tok.span.start as int)
            }) == Some(e) && ws_end(p.lex.src, e) == p1.tok.span.start as int && p1.measure() <= p.measure()
                && p.tok.span.start < e),
            ObjStep::Continue(p1, f1, _) => pext(p, p1) && pok(p1) && (tok_ok(p) && pclean(p, p1) ==> tok_ok(p1) && !f1
                && p1.measure() < p.measure() && (if first {
                obj_after_open(p.lex.src, p.tok.span.start as int)
            } else {
                obj_after_member(p.lex.src, p.tok.span.start as int)
            }) == obj_after_member(p.lex.src, p1.tok.span.start as int) && p.tok.span.start < p1.tok.span.start),
        },
        member_fits(o, p, first, seen, spec_object_member(o, p, first, seen)),
    decreases p.measure(), 5int,
{
    let src = p.lex.src;
    let s = p.tok.span.start as int;
    lemma_bump(p);
    lemma_bump_sound(p);
    lemma_prefix_refl(p.lex.diags);
    lemma_prefix_refl(p.extra);
    if tok_ok(p) {
        lemma_sound_start(p);
    }
    assert(spec_object_member(o, p, first, seen) == spec_member_key(o, p, seen, p.measure()));
    lemma_member_key_sound(o, p, seen, p.measure());
    assert(seen_keys(src, seen) =~= Seq::<Seq<u8>>::empty());
    if tok_ok(p) && p.tok.tok is Str {
        assert(src[s] == 34u8);
    }
    0
}

proof fn lemma_om_comma(o: ParseOptions, p: PModel, first: bool, seen: Seq<Span>) -> (e: int)
    requires
        first ==> seen == Seq::<Span>::empty(),
        pok(p),
        o.mode == Mode::Strict,
        !first,
        p.tok.tok is Comma,
    ensures
        match spec_object_member(o, p, first, seen) {
            ObjStep::Break(p1) => pext(p, p1) && pok(p1) && (tok_ok(p) && pclean(p, p1) ==> tok_ok(p1) && (if first {
                obj_after_open(p.lex.src, p.tok.span.start as int)
            } else {
                obj_after_member(p.lex.src, p.tok.span.start as int)
            }) == Some(e) && ws_end(p.lex.src, e) == p1.tok.span.start as int && p1.measure() <= p.measure()
                && p.tok.span.start < e),
            ObjStep::Continue(p1, f1, _) => pext(p, p1) && pok(p1) && (tok_ok(p) && pclean(p, p1) ==> tok_ok(p1) && !f1
                && p1.measure() < p.measure() && (if first {
                obj_after_open(p.lex.src, p.tok.span.start as int)
            } else {
                obj_after_member(p.lex.src, p.tok.span.start as int)
            }) == obj_after_member(p.lex.src, p1.tok.span.start as int) && p.tok.span.start < p1.tok.span.start),
        },
        member_fits(o, p, first, seen, spec_object_member(o, p, first, seen)),
    decreases p.measure(), 5int,
{
    let src = p.lex.src;
    let s = p.tok.span.start as int;
    lemma_bump(p);
    lemma_bump_sound(p);
    lemma_prefix_refl(p.lex.diags);
    lemma_prefix_refl(p.extra);
    if tok_ok(p) {
        lemma_sound_start(p);
    }
    let pb = p.bump();
    lemma_bump(pb);
    lemma_bump_sound(pb);
    if pb.tok.tok is RBrace {
        let p2 = pb.error("E008"@, "trailing comma in object"@, pb.tok.span,
            Some(crate::parse_spec::trailing_comma_hint_object()));
        lemma_report_ext(pb, p2.extra.last());
        assert(p2 == pb.report(p2.extra.last()));
        let p3 = p2.bump();
        assert(p3.lex == pb.bump().lex && p3.extra == p2.extra);
        lemma_prefix_refl(p2.extra);
        lemma_pext_trans(pb, p2, p3);
        lemma_pext_trans(p, pb, p3);
        lemma_prefix_refl(p3.extra);
        lemma_extra_error(pb, p2.extra, p3);
        assert(spec_object_member(o, p, first, seen) == ObjStep::Break(p3));
        0
    } else {
        assert(spec_object_member(o, p, first, seen) == spec_member_key(o, pb, seen, p.measure()));
        lemma_member_key_sound(o, pb, seen, p.measure());
        match spec_member_key(o, pb, seen, p.measure()) {
            ObjStep::Continue(p5, _, _) => {
                lemma_pext_trans(p, pb, p5);
                if tok_ok(p) && pclean(p, p5) {
                    lemma_pclean_mid(p, pb, p5);
                    lemma_ws_end(src, s + 1);
                }
            },
            ObjStep::Break(p5) => {
                lemma_pext_trans(p, pb, p5);
                if tok_ok(p) && pclean(p, p5) {
                    lemma_pclean_mid(p, pb, p5);
                }
            },
        }
        0
    }
}

proof fn lemma_om_missing(o: ParseOptions, p: PModel, first: bool, seen: Seq<Span>) -> (e: int)
    requires
        first ==> seen == Seq::<Span>::empty(),
        pok(p),
        o.mode == Mode::Strict,
        !first,
        !(p.tok.tok is RBrace || p.tok.tok is Eof || p.tok.tok is Comma),
    ensures
        match spec_object_member(o, p, first, seen) {
            ObjStep::Break(p1) => pext(p, p1) && pok(p1) && (tok_ok(p) && pclean(p, p1) ==> tok_ok(p1) && (if first {
                obj_after_open(p.lex.src, p.tok.span.start as int)
            } else {
                obj_after_member(p.lex.src, p.tok.span.start as int)
            }) == Some(e) && ws_end(p.lex.src, e) == p1.tok.span.start as int && p1.measure() <= p.measure()
                && p.tok.span.start < e),
            ObjStep::Continue(p1, f1, _) => pext(p, p1) && pok(p1) && (tok_ok(p) && pclean(p, p1) ==> tok_ok(p1) && !f1
                && p1.measure() < p.measure() && (if first {
                obj_after_open(p.lex.src, p.tok.span.start as int)
            } else {
                obj_after_member(p.lex.src, p.tok.span.start as int)
            }) == obj_after_member(p.lex.src, p1.tok.span.start as int) && p.tok.span.start < p1.tok.span.start),
        },
        member_fits(o, p, first, seen, spec_object_member(o, p, first, seen)),
    decreases p.measure(), 5int,
{
    let src = p.lex.src;
    let s = p.tok.span.start as int;
    lemma_bump(p);
    lemma_bump_sound(p);
    lemma_prefix_refl(p.lex.diags);
    lemma_prefix_refl(p.extra);
    if tok_ok(p) {
        lemma_sound_start(p);
    }
    let pe = p.error("E009"@, "expected ',' or '}' between object members, found "@
        + crate::parse_spec::tok_name(p.tok.tok), p.tok.span, Some(crate::parse_spec::missing_comma_hint()));
    lemma_report_ext(p, pe.extra.last());
    assert(pe == p.report(pe.extra.last()));
    assert(spec_object_member(o, p, first, seen) == spec_member_key(o, pe, seen, p.measure()));
    lemma_member_key_sound(o, pe, seen, p.measure());
    match spec_member_key(o, pe, seen, p.measure()) {
        ObjStep::Continue(p5, _, _) => {
            lemma_pext_trans(p, pe, p5);
            lemma_extra_error(p, pe.extra, p5);
        },
        ObjStep::Break(p5) => {
            lemma_pext_trans(p, pe, p5);
            lemma_extra_error(p, pe.extra, p5);
        },
    }
    0
}

/// The key, colon and value of a member with no error: a member of the grammar.
proof fn lemma_member_key_sound(o: ParseOptions, p1: PModel, seen: Seq<Span>, bound: int)
    requires
        pok(p1),
        o.mode == Mode::Strict,
        p1.measure() <= bound,
    ensures
        match spec_member_key(o, p1, seen, bound) {
            ObjStep::Continue(p5, f5, _) => pext(p1, p5) && pok(p5) && !f5 && (tok_ok(p1) && pclean(p1, p5) ==> tok_ok(p5)
                && p1.tok.tok is Str && p5.measure() < p1.measure() && members_at(p1.lex.src, p1.tok.span.start as int)
                == obj_after_member(p1.lex.src, p5.tok.span.start as int) && p1.tok.span.start < p5.tok.span.start),
            ObjStep::Break(p5) => pext(p1, p5) && pok(p5) && !(tok_ok(p1) && pclean(p1, p5)),
        },
        match spec_member_key(o, p1, seen, bound) {
            ObjStep::Continue(p5, _, s5) => p5.depth == p1.depth && (tok_ok(p1) && pclean(p1, p5) ==> (fits_obj_member(
                p1.lex.src,
                p5.tok.span.start as int,
                p1.depth,
                o.max_depth as int,
                uniq(o),
                seen_keys(p1.lex.src, s5),
            ) ==> fits_members(p1.lex.src, p1.tok.span.start as int, p1.depth, o.max_depth as int, uniq(o), seen_keys(
                p1.lex.src,
                seen,
            )))),
            ObjStep::Break(p5) => p5.depth == p1.depth,
        },
    decreases bound, 4int,
{
    lemma_bump(p1);
    match spec_key(o, p1, seen) {
        Some((p3, seen2)) => lemma_member_keyed(o, p1, seen, bound),
        None => {
            lemma_prefix_refl(p1.extra);
            lemma_prefix_refl(p1.lex.diags);
            let pe = p1.error("E023"@, "expected object key, found "@ + crate::parse_spec::tok_name(p1.tok.tok),
                p1.tok.span, None);
            lemma_report_ext(p1, pe.extra.last());
            assert(pe == p1.report(pe.extra.last()));
            lemma_resync_member_ext(pe);
            crate::depth_law::lemma_resync_member_keeps(pe);
            let r = spec_resync_member(pe);
            lemma_pext_trans(p1, pe, r);
            lemma_extra_error(p1, pe.extra, r);
        },
    }
}

/// A member whose key token was consumed.
#[verifier::rlimit(60)]
proof fn lemma_member_keyed(o: ParseOptions, p1: PModel, seen: Seq<Span>, bound: int)
    requires
        pok(p1),
        o.mode == Mode::Strict,
        p1.measure() <= bound,
        spec_key(o, p1, seen) is Some,
    ensures
        match spec_member_key(o, p1, seen, bound) {
            ObjStep::Continue(p5, f5, _) => pext(p1, p5) && pok(p5) && !f5 && (tok_ok(p1) && pclean(p1, p5) ==> tok_ok(p5)
                && p1.tok.tok is Str && p5.measure() < p1.measure() && members_at(p1.lex.src, p1.tok.span.start as int)
                == obj_after_member(p1.lex.src, p5.tok.span.start as int) && p1.tok.span.start < p5.tok.span.start),
            ObjStep::Break(p5) => pext(p1, p5) && pok(p5) && !(tok_ok(p1) && pclean(p1, p5)),
        },
        match spec_member_key(o, p1, seen, bound) {
            ObjStep::Continue(p5, _, s5) => p5.depth == p1.depth && (tok_ok(p1) && pclean(p1, p5) ==> (fits_obj_member(
                p1.lex.src,
                p5.tok.span.start as int,
                p1.depth,
                o.max_depth as int,
                uniq(o),
                seen_keys(p1.lex.src, s5),
            ) ==> fits_members(p1.lex.src, p1.tok.span.start as int, p1.depth, o.max_depth as int, uniq(o), seen_keys(
                p1.lex.src,
                seen,
            )))),
            ObjStep::Break(p5) => p5.depth == p1.depth,
        },
    decreases bound, 3int,
{
    let src = p1.lex.src;
    let j = p1.tok.span.start as int;
    lemma_bump(p1);
    lemma_bump_sound(p1);
    lemma_prefix_refl(p1.extra);
    lemma_prefix_refl(p1.lex.diags);
    if tok_ok(p1) {
        lemma_sound_start(p1);
    }
    let (p3, seen2) = spec_key(o, p1, seen)->0;
    assert(p3.lex == p1.bump().lex && p3.tok == p1.bump().tok);
    if p1.tok.tok is Str {
        let p2 = spec_check_duplicate(o, p1, p1.tok.span, seen).0;
        assert(p2 == p1 || p2 == p1.report(p2.extra.last()));
        lemma_report_ext(p1, p2.extra.last());
        assert(p3.extra == p2.extra);
    } else {
        lemma_report_ext(p1, p3.extra.last());
        assert(p3.extra == p1.report(p3.extra.last()).extra);
    }
    assert(pext(p1, p3));
    lemma_bump(p3);
    lemma_bump_sound(p3);
    let p4 = if p3.tok.tok is Colon {
        p3.bump()
    } else {
        p3.error("E024"@, "expected ':' after object key, found "@ + crate::parse_spec::tok_name(p3.tok.tok),
            p3.tok.span, None)
    };
    lemma_report_ext(p3, p4.extra.last());
    lemma_prefix_refl(p3.extra);
    assert(pext(p3, p4));
    assert(spec_member_key(o, p1, seen, bound) == spec_member_value(o, p3, seen2, bound));
    assert(spec_member_value(o, p3, seen2, bound) == ObjStep::Continue(spec_value(o, p4), false, seen2));
    let ev = lemma_value_sound(o, p4);
    let q = spec_value(o, p4);
    lemma_pext_trans(p3, p4, q);
    lemma_pext_trans(p1, p3, q);
    if tok_ok(p1) && pclean(p1, q) {
        if !(p1.tok.tok is Str) {
            lemma_prefix_trans(p3.extra, p4.extra, q.extra);
            lemma_extra_error(p1, p3.extra, q);
        }
        lemma_pclean_mid(p1, p3, q);
        lemma_pclean_mid(p3, p4, q);
        if !(p3.tok.tok is Colon) {
            lemma_prefix_refl(p4.extra);
            lemma_extra_error(p3, p4.extra, q);
        }
        lemma_keyed_grammar(src, j, p1.tok.span.end as int, p3.tok.span.start as int, p4.tok.span.start as int, ev,
            q.tok.span.start as int);
        let k = p1.tok.span.end as int;
        let key = src.subrange(j, k);
        if uniq(o) {
            let p2 = spec_check_duplicate(o, p1, p1.tok.span, seen).0;
            assert(key_bytes(src, p1.tok.span) == key);
            if find_key(src, seen, key, 0) is Some {
                assert(p2 == p1.report(p2.extra.last()));
                assert(p2.extra.last().severity == Severity::Error);
                lemma_prefix_trans(p3.extra, p4.extra, q.extra);
                lemma_extra_error(p1, p2.extra, q);
            }
        }
        lemma_keyed_fits(o, src, seen, seen2, j, k, p3.tok.span.start as int, p4.tok.span.start as int, ev,
            q.tok.span.start as int, p1.depth, p1.tok.span);
    }
}

/// A member with no error keeps the limits: its key is new when keys must
/// be unique, and its value fits.
proof fn lemma_keyed_fits(
    o: ParseOptions,
    src: Seq<u8>,
    seen: Seq<Span>,
    seen2: Seq<Span>,
    j: int,
    k: int,
    c: int,
    v: int,
    ev: int,
    f: int,
    d: int,
    kspan: Span,
)
    requires
        kspan.start as int == j,
        kspan.end as int == k,
        string_end(src, j) == Some(k),
        j < k <= src.len(),
        c == ws_end(src, k),
        0 <= c < src.len(),
        src[c] == 58u8,
        v == ws_end(src, c + 1),
        value_at(src, v) == Some(ev),
        f == ws_end(src, ev),
        fits_value(src, v, d, o.max_depth as int, uniq(o)),
        uniq(o) ==> find_key(src, seen, src.subrange(j, k), 0) is None && seen2 == seen.push(kspan),
    ensures
        fits_obj_member(src, f, d, o.max_depth as int, uniq(o), seen_keys(src, seen2)) ==> fits_members(
            src,
            j,
            d,
            o.max_depth as int,
            uniq(o),
            seen_keys(src, seen),
        ),
{
    let key = src.subrange(j, k);
    let keys = seen_keys(src, seen);
    lemma_ws_end(src, k);
    lemma_ws_end(src, c + 1);
    crate::grammar::lemma_value_at_bound(src, v);
    lemma_ws_end(src, ev);
    if uniq(o) {
        lemma_find_key_none(src, seen, key, 0);
        assert(key_bytes(src, kspan) == key);
        assert(seen_keys(src, seen2) =~= keys.push(key));
        if keys.contains(key) {
            let x = choose|x: int| 0 <= x < keys.len() && keys[x] == key;
            assert(key_bytes(src, seen[x]) == key);
        }
    } else {
        lemma_obj_member_keys(src, f, d, o.max_depth as int, seen_keys(src, seen2), keys.push(key));
    }
}

/// The grammar's member: a string from `j` to `k`, a colon at `c`, a value
/// from `v` to `ev`, then what follows it at `f`.
proof fn lemma_keyed_grammar(src: Seq<u8>, j: int, k: int, c: int, v: int, ev: int, f: int)
    requires
        string_end(src, j) == Some(k),
        j < k,
        c == ws_end(src, k),
        0 <= c < src.len(),
        src[c] == 58u8,
        v == ws_end(src, c + 1),
        value_at(src, v) == Some(ev),
        f == ws_end(src, ev),
    ensures
        members_at(src, j) == obj_after_member(src, f),
        j < f,
{
    lemma_ws_end(src, k);
    lemma_ws_end(src, c + 1);
    crate::grammar::lemma_value_at_bound(src, v);
    lemma_ws_end(src, ev);
}

proof fn lemma_array_loop_sound(o: ParseOptions, p: PModel, first: bool) -> (e: int)
    requires
        pok(p),
        o.mode == Mode::Strict,
    ensures
        pext(p, spec_array_loop(o, p, first)),
        pok(spec_array_loop(o, p, first)),
        tok_ok(p) && pclean(p, spec_array_loop(o, p, first)) ==> tok_ok(spec_array_loop(o, p, first)) && (if first {
            arr_after_open(p.lex.src, p.tok.span.start as int)
        } else {
            arr_after_member(p.lex.src, p.tok.span.start as int)
        }) == Some(e) && ws_end(p.lex.src, e) == spec_array_loop(o, p, first).tok.span.start as int
            && spec_array_loop(o, p, first).measure() <= p.measure() && p.tok.span.start < e,
        spec_array_loop(o, p, first).depth == p.depth,
        tok_ok(p) && pclean(p, spec_array_loop(o, p, first)) ==> arr_fits(p.lex.src, p.tok.span.start as int, first, p.depth, o.max_depth as int, uniq(o)),
    decreases p.measure(), if first { 9int } else { 8int },
{
    let f = spec_array_loop(o, p, first);
    lemma_bump(p);
    let r = lemma_array_element_sound(o, p, first);
    match spec_array_element(o, p, first) {
        ArrStep::Break(p1) => r,
        ArrStep::Continue(p1) => {
            if 0 <= p1.measure() < p.measure() || (first && p1.measure() == p.measure()) {
                let e = lemma_array_loop_sound(o, p1, false);
                lemma_pext_trans(p, p1, f);
                if tok_ok(p) && pclean(p, f) {
                    lemma_pclean_mid(p, p1, f);
                }
                e
            } else {
                r
            }
        },
    }
}

/// One element step with no error, as for object members.
proof fn lemma_array_element_sound(o: ParseOptions, p: PModel, first: bool) -> (e: int)
    requires
        pok(p),
        o.mode == Mode::Strict,
    ensures
        match spec_array_element(o, p, first) {
            ArrStep::Break(p1) => pext(p, p1) && pok(p1) && (tok_ok(p) && pclean(p, p1) ==> tok_ok(p1) && (if first {
                arr_after_open(p.lex.src, p.tok.span.start as int)
            } else {
                arr_after_member(p.lex.src, p.tok.span.start as int)
            }) == Some(e) && ws_end(p.lex.src, e) == p1.tok.span.start as int && p1.measure() <= p.measure()
                && p.tok.span.start < e),
            ArrStep::Continue(p1) => pext(p, p1) && pok(p1) && (tok_ok(p) && pclean(p, p1) ==> tok_ok(p1)
                && p1.measure() < p.measure() && (if first {
                arr_after_open(p.lex.src, p.tok.span.start as int)
            } else {
                arr_after_member(p.lex.src, p.tok.span.start as int)
            }) == arr_after_member(p.lex.src, p1.tok.span.start as int) && p.tok.span.start < p1.tok.span.start),
        },
        element_fits(o, p, first, spec_array_element(o, p, first)),
    decreases p.measure(), 7int,
{
    let src = p.lex.src;
    let s = p.tok.span.start as int;
    lemma_bump(p);
    lemma_bump_sound(p);
    lemma_prefix_refl(p.lex.diags);
    lemma_prefix_refl(p.extra);
    if tok_ok(p) {
        lemma_sound_start(p);
    }
    if p.tok.tok is RBracket || p.tok.tok is Eof {
        lemma_ae_end(o, p, first)
    } else if first {
        lemma_ae_first(o, p, first)
    } else if p.tok.tok is Comma {
        lemma_ae_comma(o, p, first)
    } else {
        lemma_ae_missing(o, p, first)
    }
}

proof fn lemma_ae_end(o: ParseOptions, p: PModel, first: bool) -> (e: int)
    requires
        pok(p),
        o.mode == Mode::Strict,
        p.tok.tok is RBracket || p.tok.tok is Eof,
    ensures
        match spec_array_element(o, p, first) {
            ArrStep::Break(p1) => pext(p, p1) && pok(p1) && (tok_ok(p) && pclean(p, p1) ==> tok_ok(p1) && (if first {
                arr_after_open(p.lex.src, p.tok.span.start as int)
            } else {
                arr_after_member(p.lex.src, p.tok.span.start as int)
            }) == Some(e) && ws_end(p.lex.src, e) == p1.tok.span.start as int && p1.measure() <= p.measure()
                && p.tok.span.start < e),
            ArrStep::Continue(p1) => pext(p, p1) && pok(p1) && (tok_ok(p) && pclean(p, p1) ==> tok_ok(p1)
                && p1.measure() < p.measure() && (if first {
                arr_after_open(p.lex.src, p.tok.span.start as int)
            } else {
                arr_after_member(p.lex.src, p.tok.span.start as int)
            }) == arr_after_member(p.lex.src, p1.tok.span.start as int) && p.tok.span.start < p1.tok.span.start),
        },
        element_fits(o, p, first, spec_array_element(o, p, first)),
    decreases p.measure(), 6int,
{
    let src = p.lex.src;
    let s = p.tok.span.start as int;
    lemma_bump(p);
    lemma_bump_sound(p);
    lemma_prefix_refl(p.lex.diags);
    lemma_prefix_refl(p.extra);
    if tok_ok(p) {
        lemma_sound_start(p);
    }
    if p.tok.tok is RBracket {
        s + 1
    } else {
        let p1 = p.error("E006"@, "unclosed array, expected ']'"@, p.tok.span, None);
        lemma_report_ext(p, p1.extra.last());
        assert(p1 == p.report(p1.extra.last()));
        lemma_prefix_refl(p1.extra);
        lemma_extra_error(p, p1.extra, p1);
        0
    }
}

proof fn lemma_ae_first(o: ParseOptions, p: PModel, first: bool) -> (e: int)
    requires
        pok(p),
        o.mode == Mode::Strict,
        first,
        !(p.tok.tok is RBracket || p.tok.tok is Eof),
    ensures
        match spec_array_element(o, p, first) {
            ArrStep::Break(p1) => pext(p, p1) && pok(p1) && (tok_ok(p) && pclean(p, p1) ==> tok_ok(p1) && (if first {
                arr_after_open(p.lex.src, p.tok.span.start as int)
            } else {
                arr_after_member(p.lex.src, p.tok.span.start as int)
            }) == Some(e) && ws_end(p.lex.src, e) == p1.tok.span.start as int && p1.measure() <= p.measure()
                && p.tok.span.start < e),
            ArrStep::Continue(p1) => pext(p, p1) && pok(p1) && (tok_ok(p) && pclean(p, p1) ==> tok_ok(p1)
                && p1.measure() < p.measure() && (if first {
                arr_after_open(p.lex.src, p.tok.span.start as int)
            } else {
                arr_after_member(p.lex.src, p.tok.span.start as int)
            }) == arr_after_member(p.lex.src, p1.tok.span.start as int) && p.tok.span.start < p1.tok.span.start),
        },
        element_fits(o, p, first, spec_array_element(o, p, first)),
    decreases p.measure(), 6int,
{
    let src = p.lex.src;
    let s = p.tok.span.start as int;
    lemma_bump(p);
    lemma_bump_sound(p);
    lemma_prefix_refl(p.lex.diags);
    lemma_prefix_refl(p.extra);
    if tok_ok(p) {
        lemma_sound_start(p);
    }
    assert(spec_array_element(o, p, first) == ArrStep::Continue(spec_value(o, p)));
    let ev = lemma_value_sound(o, p);
    let q = spec_value(o, p);
    if tok_ok(p) && pclean(p, q) {
        crate::grammar::lemma_value_at_bound(src, s);
        lemma_ws_end(src, ev);
        assert(arr_after_open(src, s) == crate::grammar::elements_at(src, s));
    }
    0
}

proof fn lemma_ae_comma(o: ParseOptions, p: PModel, first: bool) -> (e: int)
    requires
        pok(p),
        o.mode == Mode::Strict,
        !first,
        p.tok.tok is Comma,
    ensures
        match spec_array_element(o, p, first) {
            ArrStep::Break(p1) => pext(p, p1) && pok(p1) && (tok_ok(p) && pclean(p, p1) ==> tok_ok(p1) && (if first {
                arr_after_open(p.lex.src, p.tok.span.start as int)
            } else {
                arr_after_member(p.lex.src, p.tok.span.start as int)
            }) == Some(e) && ws_end(p.lex.src, e) == p1.tok.span.start as int && p1.measure() <= p.measure()
                && p.tok.span.start < e),
            ArrStep::Continue(p1) => pext(p, p1) && pok(p1) && (tok_ok(p) && pclean(p, p1) ==> tok_ok(p1)
                && p1.measure() < p.measure() && (if first {
                arr_after_open(p.lex.src, p.tok.span.start as int)
            } else {
                arr_after_member(p.lex.src, p.tok.span.start as int)
            }) == arr_after_member(p.lex.src, p1.tok.span.start as int) && p.tok.span.start < p1.tok.span.start),
        },
        element_fits(o, p, first, spec_array_element(o, p, first)),
    decreases p.measure(), 6int,
{
    let src = p.lex.src;
    let s = p.tok.span.start as int;
    lemma_bump(p);
    lemma_bump_sound(p);
    lemma_prefix_refl(p.lex.diags);
    lemma_prefix_refl(p.extra);
    if tok_ok(p) {
        lemma_sound_start(p);
    }
    let pb = p.bump();
    lemma_bump(pb);
    lemma_bump_sound(pb);
    if pb.tok.tok is RBracket {
        let p2 = pb.error("E008"@, "trailing comma in array"@, pb.tok.span, Some("trailing commas are valid in JSONC"@));
        lemma_report_ext(pb, p2.extra.last());
        assert(p2 == pb.report(p2.extra.last()));
        let p3 = p2.bump();
        assert(p3.lex == pb.bump().lex && p3.extra == p2.extra);
        lemma_prefix_refl(p2.extra);
        lemma_pext_trans(pb, p2, p3);
        lemma_pext_trans(p, pb, p3);
        lemma_prefix_refl(p3.extra);
        lemma_extra_error(pb, p2.extra, p3);
        assert(spec_array_element(o, p, first) == ArrStep::Break(p3));
        0
    } else {
        assert(spec_array_element(o, p, first) == ArrStep::Continue(spec_value(o, pb)));
        let ev = lemma_value_sound(o, pb);
        let q = spec_value(o, pb);
        lemma_pext_trans(p, pb, q);
        if tok_ok(p) && pclean(p, q) {
            lemma_pclean_mid(p, pb, q);
            lemma_ws_end(src, s + 1);
            crate::grammar::lemma_value_at_bound(src, pb.tok.span.start as int);
            lemma_ws_end(src, ev);
        }
        0
    }
}

proof fn lemma_ae_missing(o: ParseOptions, p: PModel, first: bool) -> (e: int)
    requires
        pok(p),
        o.mode == Mode::Strict,
        !first,
        !(p.tok.tok is RBracket || p.tok.tok is Eof || p.tok.tok is Comma),
    ensures
        match spec_array_element(o, p, first) {
            ArrStep::Break(p1) => pext(p, p1) && pok(p1) && (tok_ok(p) && pclean(p, p1) ==> tok_ok(p1) && (if first {
                arr_after_open(p.lex.src, p.tok.span.start as int)
            } else {
                arr_after_member(p.lex.src, p.tok.span.start as int)
            }) == Some(e) && ws_end(p.lex.src, e) == p1.tok.span.start as int && p1.measure() <= p.measure()
                && p.tok.span.start < e),
            ArrStep::Continue(p1) => pext(p, p1) && pok(p1) && (tok_ok(p) && pclean(p, p1) ==> tok_ok(p1)
                && p1.measure() < p.measure() && (if first {
                arr_after_open(p.lex.src, p.tok.span.start as int)
            } else {
                arr_after_member(p.lex.src, p.tok.span.start as int)
            }) == arr_after_member(p.lex.src, p1.tok.span.start as int) && p.tok.span.start < p1.tok.span.start),
        },
        element_fits(o, p, first, spec_array_element(o, p, first)),
    decreases p.measure(), 6int,
{
    let src = p.lex.src;
    let s = p.tok.span.start as int;
    lemma_bump(p);
    lemma_bump_sound(p);
    lemma_prefix_refl(p.lex.diags);
    lemma_prefix_refl(p.extra);
    if tok_ok(p) {
        lemma_sound_start(p);
    }
    let pe = p.error("E009"@, "expected ',' or ']' between array elements, found "@
        + crate::parse_spec::tok_name(p.tok.tok), p.tok.span, Some(crate::parse_spec::missing_comma_hint()));
    lemma_report_ext(p, pe.extra.last());
    assert(pe == p.report(pe.extra.last()));
    assert(spec_array_element(o, p, first) == ArrStep::Continue(spec_value(o, pe)));
    lemma_value_sound(o, pe);
    let q = spec_value(o, pe);
    lemma_pext_trans(p, pe, q);
    lemma_extra_error(p, pe.extra, q);
    0
}

/// Strict validation accepts only JSON text within its limits. When a
/// document validated in strict mode gets no error (and the run made fewer
/// diagnostics than the cap, so none was dropped), the document is JSON text
/// as RFC 8259 defines it (see `grammar`); it nests less than `max_depth`
/// deep; and when duplicate keys are errors, no object repeats a key.
pub proof fn law_strict_acceptance_is_json(src: Seq<u8>, o: ParseOptions)
    requires
        src.len() <= isize::MAX,
        o.mode == Mode::Strict,
        spec_parse_state(src, o, false).lex.diags.len() + spec_parse_state(src, o, false).extra.len()
            < MAX_DIAGNOSTICS,
        no_errors(spec_validate(src, o)),
    ensures
        is_json_text(src),
        fits_text(src, o.max_depth as int, o.duplicate_keys == DupKeys::Error),
{
    let p = spec_parse_state(src, o, false);
    let all = p.lex.diags + p.extra;
    let d = spec_validate(src, o);
    crate::laws::law_diagnostics_sorted_and_complete(src, o, false);
    assert(d.to_multiset() == all.to_multiset());
    assert forall|k: int| 0 <= k < all.len() implies #[trigger] all[k].severity == Severity::Warning by {
        broadcast use vstd::seq_lib::group_to_multiset_ensures;
        assert(all.contains(all[k]));
        assert(d.to_multiset().count(all[k]) > 0);
        assert(d.contains(all[k]));
        let i = choose|i: int| 0 <= i < d.len() && d[i] == all[k];
        assert(d[i].severity != Severity::Error);
    }
    assert forall|k: int| 0 <= k < p.lex.diags.len() implies #[trigger] p.lex.diags[k].severity == Severity::Warning by {
        assert(all[k] == p.lex.diags[k]);
    }
    assert forall|k: int| 0 <= k < p.extra.len() implies #[trigger] p.extra[k].severity == Severity::Warning by {
        assert(all[p.lex.diags.len() + k] == p.extra[k]);
    }
    let p0 = initial_parser(src, o, false);
    let p0b = p0.bump();
    assert(p0.valid());
    lemma_bump_sound(p0);
    lemma_bump(p0);
    let e = lemma_value_sound(o, p0b);
    let q = spec_value(o, p0b);
    lemma_pext_trans(p0, p0b, q);
    lemma_prefix_refl(q.lex.diags);
    lemma_prefix_refl(p.extra);
    if !(q.tok.tok is Eof) {
        lemma_report_ext(q, p.extra.last());
        assert(p.extra == q.report(p.extra.last()).extra);
        assert(p.lex == q.lex);
    } else {
        assert(p == q);
    }
    assert(pext(q, p));
    lemma_pext_trans(p0, q, p);
    if p0.lex.diags.len() > 0 {
        assert(p.lex.diags.take(p0.lex.diags.len() as int)[0] == p.lex.diags[0]);
        assert(p0.lex.diags[0].severity == Severity::Error);
        assert(false);
    }
    assert(p0.lex.pos == 0);
    assert(pclean(p0, p));
    lemma_pclean_mid(p0, p0b, p);
    lemma_pclean_mid(p0b, q, p);
    if !(q.tok.tok is Eof) {
        lemma_extra_error(q, p.extra, p);
    }
}

/// The run of a strict validation reached the diagnostic cap: it made at
/// least `MAX_DIAGNOSTICS` diagnostics, so later ones were not kept.
pub open spec fn cap_reached(src: Seq<u8>, o: ParseOptions) -> bool {
    spec_parse_state(src, o, false).lex.diags.len() + spec_parse_state(src, o, false).extra.len()
        >= MAX_DIAGNOSTICS
}

/// Strict acceptance at any size: a document that strict validation gives
/// no error is JSON text within the limits, or its run reached the cap, past
/// which an error may go unkept.
pub proof fn law_strict_acceptance_at_any_size(src: Seq<u8>, o: ParseOptions)
    requires
        src.len() <= isize::MAX,
        o.mode == Mode::Strict,
        no_errors(spec_validate(src, o)),
    ensures
        (is_json_text(src) && fits_text(src, o.max_depth as int, o.duplicate_keys == DupKeys::Error)) || cap_reached(
            src,
            o,
        ),
{
    if !cap_reached(src, o) {
        law_strict_acceptance_is_json(src, o);
    }
}

} // verus!
