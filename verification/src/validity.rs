//! Strict validation accepts every JSON text within its limits: such a
//! document is parsed with warnings at most.
use vstd::prelude::*;
use crate::acceptance::{
    lemma_pext_refl, lemma_pext_trans, lemma_prefix_refl, lemma_prefix_trans, lemma_report_ext, lemma_sound_start,
    pext, pok, tok_ok,
};
use crate::completeness::{lemma_next_complete, token_at_ok, warn_since};
use crate::conformance::{lext, prefix_of, token_kind_sound};
use crate::diag::{DiagModel, Severity, Span, MAX_DIAGNOSTICS};
use crate::grammar::{
    arr_after_member, arr_after_open, elements_at, fits_arr_member, fits_arr_open, fits_elements, fits_members,
    fits_obj_member, fits_obj_open, fits_text, fits_value, follows_ok, is_json_text, lemma_value_at_bound,
    lemma_ws_end, literal_at, members_at, number_end, obj_after_member, obj_after_open, string_end, true_bytes,
    false_bytes, null_bytes, value_at, ws_end,
};
use crate::lex_spec::{is_digit, is_token_end, is_ws, lemma_next_token, punct, Mode, TokModel};
use crate::parse_spec::{
    initial_parser, no_errors, spec_parse_state, spec_validate, sort_by_start, cap,
    find_key, key_bytes, lemma_bump, spec_array_element, spec_array_loop, spec_check_duplicate, spec_key,
    spec_member_key, spec_member_value, spec_object_loop, spec_object_member, spec_scalar, spec_value, ArrStep,
    DupKeys, ObjStep, PModel, ParseOptions,
};

verus! {

/// `q` continues `p` with warnings at most.
pub open spec fn pwarn(p: PModel, q: PModel) -> bool {
    &&& pext(p, q)
    &&& warn_since(q.lex.diags, p.lex.diags.len() as int)
    &&& warn_since(q.extra, p.extra.len() as int)
}

/// Strict validation, and the current token is what the grammar reads
/// where it starts, not a bare word.
pub open spec fn tok_good(p: PModel) -> bool {
    tok_ok(p) && !(p.tok.tok is Ident)
}

/// Duplicate keys are errors.
pub open spec fn uniq(o: ParseOptions) -> bool {
    o.duplicate_keys == DupKeys::Error
}

/// The bytes of the keys recorded so far.
pub open spec fn seen_keys(src: Seq<u8>, seen: Seq<Span>) -> Seq<Seq<u8>> {
    seen.map_values(|s: Span| key_bytes(src, s))
}

proof fn lemma_pwarn_refl(p: PModel)
    ensures
        pwarn(p, p),
{
    lemma_pext_refl(p);
}

proof fn lemma_pwarn_trans(p: PModel, q: PModel, r: PModel)
    requires
        pwarn(p, q),
        pwarn(q, r),
    ensures
        pwarn(p, r),
{
    lemma_pext_trans(p, q, r);
    assert forall|k: int| p.lex.diags.len() <= k < r.lex.diags.len() implies #[trigger] r.lex.diags[k].severity
        == Severity::Warning by {
        if k < q.lex.diags.len() {
            assert(r.lex.diags.take(q.lex.diags.len() as int)[k] == r.lex.diags[k]);
        }
    }
    assert forall|k: int| p.extra.len() <= k < r.extra.len() implies #[trigger] r.extra[k].severity
        == Severity::Warning by {
        if k < q.extra.len() {
            assert(r.extra.take(q.extra.len() as int)[k] == r.extra[k]);
        }
    }
}

/// Moving to a token of the grammar adds warnings at most.
proof fn lemma_bump_complete(p: PModel)
    requires
        pok(p),
        p.lex.pos <= p.lex.len(),
        token_at_ok(p.lex.src, ws_end(p.lex.src, p.lex.pos)),
    ensures
        pwarn(p, p.bump()),
        tok_good(p.bump()),
        p.bump().tok.span.start as int == ws_end(p.lex.src, p.lex.pos),
{
    lemma_bump(p);
    lemma_next_complete(p.lex);
    lemma_next_token(p.lex);
    lemma_prefix_refl(p.extra);
}

/// A value that starts at `v` and ends at `ev`, followed by what may follow a
/// value, starts with a token of the grammar.
proof fn lemma_value_start_ok(src: Seq<u8>, v: int, ev: int)
    requires
        value_at(src, v) == Some(ev),
        follows_ok(src, ev),
    ensures
        token_at_ok(src, v),
{
    lemma_value_at_bound(src, v);
}

/// After a value, `}` or `,` or `]` (past whitespace) may follow it.
proof fn lemma_follows_closer(src: Seq<u8>, e: int)
    requires
        0 <= e <= src.len(),
        ws_end(src, e) < src.len(),
        src[ws_end(src, e)] == 125u8 || src[ws_end(src, e)] == 44u8 || src[ws_end(src, e)] == 93u8,
    ensures
        follows_ok(src, e),
        token_at_ok(src, ws_end(src, e)),
{
    lemma_ws_end(src, e);
}

/// The byte at the start of a good token says which token it is.
proof fn lemma_good_start(p: PModel)
    requires
        tok_good(p),
        !(p.tok.tok is Eof),
    ensures
        ({
            let src = p.lex.src;
            let s = p.tok.span.start as int;
            &&& 0 <= s < src.len()
            &&& src[s] == 34u8 ==> p.tok.tok is Str
            &&& src[s] == 45u8 || is_digit(src[s]) ==> p.tok.tok is Num
            &&& src[s] == 123u8 ==> p.tok.tok is LBrace
            &&& src[s] == 91u8 ==> p.tok.tok is LBracket
            &&& src[s] == 125u8 ==> p.tok.tok is RBrace
            &&& src[s] == 93u8 ==> p.tok.tok is RBracket
            &&& src[s] == 44u8 ==> p.tok.tok is Comma
            &&& src[s] == 58u8 ==> p.tok.tok is Colon
            &&& src[s] == 116u8 ==> p.tok.tok is True
            &&& src[s] == 102u8 ==> p.tok.tok is False
            &&& src[s] == 110u8 ==> p.tok.tok is Null
        }),
{
    let src = p.lex.src;
    let s = p.tok.span.start as int;
    lemma_sound_start(p);
    crate::grammar::lemma_string_body_end_bound(src, s + 1);
    crate::grammar::lemma_number_end_bound(src, s);
    if p.tok.tok is True { assert(src[s] == src.subrange(s, s + 4)[0]); }
    if p.tok.tok is False { assert(src[s] == src.subrange(s, s + 5)[0]); }
    if p.tok.tok is Null { assert(src[s] == src.subrange(s, s + 4)[0]); }
    if p.tok.tok is Num {
        if src[s] != 45u8 {
            assert(is_digit(src[s]));
        }
    }
}

/// A value of the grammar, within the limits, is parsed with warnings at
/// most; the parser then stands at the token after it.
proof fn lemma_value_ok(o: ParseOptions, p: PModel, e: int)
    requires
        tok_good(p),
        o.mode == Mode::Strict,
        value_at(p.lex.src, p.tok.span.start as int) == Some(e),
        token_at_ok(p.lex.src, ws_end(p.lex.src, e)),
        fits_value(p.lex.src, p.tok.span.start as int, p.depth, o.max_depth as int, uniq(o)),
    ensures
        pwarn(p, spec_value(o, p)),
        tok_good(spec_value(o, p)),
        spec_value(o, p).tok.span.start as int == ws_end(p.lex.src, e),
        spec_value(o, p).measure() < p.measure(),
        spec_value(o, p).depth == p.depth,
    decreases p.measure(), 5int,
{
    let src = p.lex.src;
    let s = p.tok.span.start as int;
    lemma_bump(p);
    lemma_value_at_bound(src, s);
    lemma_good_start(p);
    let b = src[s];
    if b == 123u8 {
        lemma_object_ok(o, p, e);
    } else if b == 91u8 {
        lemma_array_ok(o, p, e);
    } else {
        let q = spec_value(o, p);
        assert(q == spec_scalar(p));
        if b == 34u8 {
            assert(p.tok.span.end as int == e);
        } else if b == 45u8 || is_digit(b) {
            assert(p.tok.span.end as int == e);
        } else if literal_at(src, s, true_bytes()) {
            assert(src[s] == src.subrange(s, s + 4)[0]);
        } else if literal_at(src, s, false_bytes()) {
            assert(src[s] == src.subrange(s, s + 5)[0]);
        } else {
            assert(literal_at(src, s, null_bytes()));
            assert(src[s] == src.subrange(s, s + 4)[0]);
        }
        let pe = p.emit(crate::parse_spec::EventModel::Null);
        lemma_bump_complete(p);
        assert(q.lex == p.bump().lex && q.tok == p.bump().tok && q.extra == p.extra);
    }
}

proof fn lemma_object_ok(o: ParseOptions, p: PModel, e: int)
    requires
        tok_good(p),
        o.mode == Mode::Strict,
        p.tok.tok is LBrace,
        value_at(p.lex.src, p.tok.span.start as int) == Some(e),
        token_at_ok(p.lex.src, ws_end(p.lex.src, e)),
        fits_value(p.lex.src, p.tok.span.start as int, p.depth, o.max_depth as int, uniq(o)),
    ensures
        pwarn(p, spec_value(o, p)),
        tok_good(spec_value(o, p)),
        spec_value(o, p).tok.span.start as int == ws_end(p.lex.src, e),
        spec_value(o, p).measure() < p.measure(),
        spec_value(o, p).depth == p.depth,
    decreases p.measure(), 4int,
{
    let src = p.lex.src;
    let s = p.tok.span.start as int;
    let q = spec_value(o, p);
    lemma_bump(p);
    lemma_sound_start(p);
    lemma_ws_end(src, s + 1);
    let j = ws_end(src, s + 1);
    let q0 = p.emit(crate::parse_spec::EventModel::BeginObject).with_depth(p.depth + 1);
    lemma_bump(q0);
    assert(obj_after_open(src, j) == Some(e));
    if !(j < src.len() && src[j] == 125u8) {
        assert(string_end(src, j) is Some);
    }
    lemma_bump_complete(q0);
    let p1 = q0.bump();
    lemma_pwarn_refl(p);
    assert(pwarn(p, q0));
    assert(seen_keys(src, Seq::<Span>::empty()) =~= Seq::<Seq<u8>>::empty());
    assert(fits_obj_open(src, j, p1.depth, o.max_depth as int, uniq(o)));
    lemma_object_loop_ok(o, p1, true, Seq::empty(), Seq::empty(), e);
    let f = spec_object_loop(o, p1, true, Seq::empty());
    assert(q.lex == f.lex && q.extra == f.extra && q.tok == f.tok);
    lemma_pwarn_trans(p, q0, p1);
    lemma_pwarn_trans(p, p1, f);
}

proof fn lemma_array_ok(o: ParseOptions, p: PModel, e: int)
    requires
        tok_good(p),
        o.mode == Mode::Strict,
        p.tok.tok is LBracket,
        value_at(p.lex.src, p.tok.span.start as int) == Some(e),
        token_at_ok(p.lex.src, ws_end(p.lex.src, e)),
        fits_value(p.lex.src, p.tok.span.start as int, p.depth, o.max_depth as int, uniq(o)),
    ensures
        pwarn(p, spec_value(o, p)),
        tok_good(spec_value(o, p)),
        spec_value(o, p).tok.span.start as int == ws_end(p.lex.src, e),
        spec_value(o, p).measure() < p.measure(),
        spec_value(o, p).depth == p.depth,
    decreases p.measure(), 4int,
{
    let src = p.lex.src;
    let s = p.tok.span.start as int;
    let q = spec_value(o, p);
    lemma_bump(p);
    lemma_sound_start(p);
    lemma_ws_end(src, s + 1);
    let j = ws_end(src, s + 1);
    let q0 = p.emit(crate::parse_spec::EventModel::BeginArray).with_depth(p.depth + 1);
    lemma_bump(q0);
    assert(arr_after_open(src, j) == Some(e));
    if !(j < src.len() && src[j] == 93u8) {
        let ev = value_at(src, j)->0;
        lemma_value_at_bound(src, j);
        lemma_ws_end(src, ev);
        lemma_follows_closer(src, ev);
        lemma_value_start_ok(src, j, ev);
    }
    lemma_bump_complete(q0);
    let p1 = q0.bump();
    lemma_pwarn_refl(p);
    assert(pwarn(p, q0));
    lemma_array_loop_ok(o, p1, true, e);
    let f = spec_array_loop(o, p1, true);
    assert(q.lex == f.lex && q.extra == f.extra && q.tok == f.tok);
    lemma_pwarn_trans(p, q0, p1);
    lemma_pwarn_trans(p, p1, f);
}

/// A key found among those seen has the bytes of one of them.
proof fn lemma_find_key_seen(src: Seq<u8>, seen: Seq<Span>, key: Seq<u8>, i: int)
    requires
        0 <= i,
    ensures
        find_key(src, seen, key, i) matches Some(x) ==> 0 <= x < seen.len() && seen_keys(src, seen)[x] == key,
    decreases seen.len() - i,
{
    if i < seen.len() && key_bytes(src, seen[i]) != key {
        lemma_find_key_seen(src, seen, key, i + 1);
    }
}

/// The members of an object of the grammar, from a first member or after
/// one, are parsed with warnings at most, up to the token after the object.
proof fn lemma_object_loop_ok(o: ParseOptions, p: PModel, first: bool, seen: Seq<Span>, keys: Seq<Seq<u8>>, e: int)
    requires
        tok_good(p),
        o.mode == Mode::Strict,
        first ==> seen == Seq::<Span>::empty() && keys == Seq::<Seq<u8>>::empty(),
        uniq(o) ==> keys == seen_keys(p.lex.src, seen),
        (if first { obj_after_open(p.lex.src, p.tok.span.start as int) } else { obj_after_member(
            p.lex.src,
            p.tok.span.start as int,
        ) }) == Some(e),
        if first {
            fits_obj_open(p.lex.src, p.tok.span.start as int, p.depth, o.max_depth as int, uniq(o))
        } else {
            fits_obj_member(p.lex.src, p.tok.span.start as int, p.depth, o.max_depth as int, uniq(o), keys)
        },
        token_at_ok(p.lex.src, ws_end(p.lex.src, e)),
    ensures
        pwarn(p, spec_object_loop(o, p, first, seen)),
        tok_good(spec_object_loop(o, p, first, seen)),
        spec_object_loop(o, p, first, seen).tok.span.start as int == ws_end(p.lex.src, e),
        spec_object_loop(o, p, first, seen).measure() <= p.measure(),
    decreases p.measure(), 7int,
{
    let f = spec_object_loop(o, p, first, seen);
    lemma_bump(p);
    let keys2 = lemma_object_member_ok(o, p, first, seen, keys, e);
    match spec_object_member(o, p, first, seen) {
        ObjStep::Break(p1) => {},
        ObjStep::Continue(p1, f1, s1) => {
            lemma_object_loop_ok(o, p1, f1, s1, keys2, e);
            lemma_pwarn_trans(p, p1, f);
        },
    }
}

proof fn lemma_object_member_ok(o: ParseOptions, p: PModel, first: bool, seen: Seq<Span>, keys: Seq<Seq<u8>>, e: int) -> (keys2: Seq<Seq<u8>>)
    requires
        tok_good(p),
        o.mode == Mode::Strict,
        first ==> seen == Seq::<Span>::empty() && keys == Seq::<Seq<u8>>::empty(),
        uniq(o) ==> keys == seen_keys(p.lex.src, seen),
        (if first { obj_after_open(p.lex.src, p.tok.span.start as int) } else { obj_after_member(
            p.lex.src,
            p.tok.span.start as int,
        ) }) == Some(e),
        if first {
            fits_obj_open(p.lex.src, p.tok.span.start as int, p.depth, o.max_depth as int, uniq(o))
        } else {
            fits_obj_member(p.lex.src, p.tok.span.start as int, p.depth, o.max_depth as int, uniq(o), keys)
        },
        token_at_ok(p.lex.src, ws_end(p.lex.src, e)),
    ensures
        match spec_object_member(o, p, first, seen) {
            ObjStep::Break(p1) => pwarn(p, p1) && tok_good(p1) && p1.tok.span.start as int == ws_end(p.lex.src, e)
                && p1.measure() <= p.measure(),
            ObjStep::Continue(p1, f1, s1) => pwarn(p, p1) && tok_good(p1) && !f1 && p1.measure() < p.measure()
                && obj_after_member(p.lex.src, p1.tok.span.start as int) == Some(e) && fits_obj_member(
                p.lex.src,
                p1.tok.span.start as int,
                p1.depth,
                o.max_depth as int,
                uniq(o),
                keys2,
            ) && (uniq(o) ==> keys2 == seen_keys(p.lex.src, s1)) && p1.depth == p.depth,
        },
    decreases p.measure(), 6int,
{
    let src = p.lex.src;
    let s = p.tok.span.start as int;
    lemma_bump(p);
    lemma_pwarn_refl(p);
    if p.tok.tok is Eof {
        assert(false);
        keys
    } else {
        lemma_good_start(p);
        lemma_sound_start(p);
        if src[s] == 125u8 {
            lemma_bump_complete(p);
            keys
        } else if first {
            assert(members_at(src, s) == Some(e));
            assert(src[s] == 34u8);
            assert(spec_object_member(o, p, first, seen) == spec_member_key(o, p, seen, p.measure()));
            lemma_member_key_ok(o, p, seen, keys, p.measure(), e)
        } else {
            assert(src[s] == 44u8);
            lemma_ws_end(src, s + 1);
            let g = ws_end(src, s + 1);
            assert(members_at(src, g) == Some(e));
            assert(string_end(src, g) is Some);
            lemma_bump_complete(p);
            let pb = p.bump();
            lemma_bump(pb);
            lemma_good_start(pb);
            assert(pb.tok.tok is Str);
            assert(spec_object_member(o, p, first, seen) == spec_member_key(o, pb, seen, p.measure()));
            let k2 = lemma_member_key_ok(o, pb, seen, keys, p.measure(), e);
            match spec_member_key(o, pb, seen, p.measure()) {
                ObjStep::Continue(p5, _, _) => {
                    lemma_pwarn_trans(p, pb, p5);
                },
                ObjStep::Break(_) => {},
            }
            k2
        }
    }
}

/// A member of the grammar whose key is the current string token.
#[verifier::rlimit(60)]
proof fn lemma_member_key_ok(o: ParseOptions, p1: PModel, seen: Seq<Span>, keys: Seq<Seq<u8>>, bound: int, e: int) -> (keys2: Seq<Seq<u8>>)
    requires
        tok_good(p1),
        o.mode == Mode::Strict,
        p1.tok.tok is Str,
        p1.measure() <= bound,
        uniq(o) ==> keys == seen_keys(p1.lex.src, seen),
        members_at(p1.lex.src, p1.tok.span.start as int) == Some(e),
        fits_members(p1.lex.src, p1.tok.span.start as int, p1.depth, o.max_depth as int, uniq(o), keys),
        token_at_ok(p1.lex.src, ws_end(p1.lex.src, e)),
    ensures
        match spec_member_key(o, p1, seen, bound) {
            ObjStep::Continue(p5, f5, s5) => pwarn(p1, p5) && tok_good(p5) && !f5 && p5.measure() < p1.measure()
                && obj_after_member(p1.lex.src, p5.tok.span.start as int) == Some(e) && fits_obj_member(
                p1.lex.src,
                p5.tok.span.start as int,
                p1.depth,
                o.max_depth as int,
                uniq(o),
                keys2,
            ) && (uniq(o) ==> keys2 == seen_keys(p1.lex.src, s5)) && p5.depth == p1.depth,
            ObjStep::Break(_) => false,
        },
    decreases bound, 4int,
{
    let src = p1.lex.src;
    let j = p1.tok.span.start as int;
    let k = p1.tok.span.end as int;
    lemma_bump(p1);
    lemma_sound_start(p1);
    lemma_pwarn_refl(p1);
    let key = src.subrange(j, k);
    crate::grammar::lemma_string_body_end_bound(src, j + 1);
    assert(string_end(src, j) == Some(k));
    lemma_ws_end(src, k);
    let c = ws_end(src, k);
    lemma_ws_end(src, c + 1);
    let v = ws_end(src, c + 1);
    let ev = value_at(src, v)->0;
    lemma_value_at_bound(src, v);
    lemma_ws_end(src, ev);
    let f = ws_end(src, ev);
    assert(obj_after_member(src, f) == Some(e));
    assert(key_bytes(src, p1.tok.span) == key);
    // the duplicate check
    let (p2, seen2) = spec_check_duplicate(o, p1, p1.tok.span, seen);
    lemma_find_key_seen(src, seen, key, 0);
    if o.duplicate_keys != DupKeys::Allow {
        match find_key(src, seen, key, 0) {
            Some(x) => {
                assert(!uniq(o));
                assert(p2 == p1.report(p2.extra.last()));
                lemma_report_ext(p1, p2.extra.last());
            },
            None => {},
        }
    }
    assert(pwarn(p1, p2));
    let keys2 = keys.push(key);
    if uniq(o) {
        assert(seen2 == seen.push(p1.tok.span));
        assert(seen_keys(src, seen2) =~= keys2);
    }
    // the key and the colon
    let pe = p2.emit(crate::parse_spec::EventModel::Key(p1.tok.tok->Str_0));
    assert(pe.lex == p1.lex && pe.tok == p1.tok && pe.extra == p2.extra);
    lemma_bump(pe);
    lemma_bump_complete(pe);
    let p3 = pe.bump();
    assert(spec_key(o, p1, seen) == Some((p3, seen2)));
    assert(pwarn(p2, pe)) by { lemma_pwarn_refl(p2); }
    lemma_pwarn_trans(p1, p2, pe);
    lemma_pwarn_trans(p1, pe, p3);
    lemma_good_start(p3);
    assert(p3.tok.tok is Colon);
    lemma_bump(p3);
    lemma_follows_closer(src, ev);
    lemma_value_start_ok(src, v, ev);
    lemma_bump_complete(p3);
    let p4 = p3.bump();
    lemma_pwarn_trans(p1, p3, p4);
    assert(spec_member_key(o, p1, seen, bound) == spec_member_value(o, p3, seen2, bound));
    assert(spec_member_value(o, p3, seen2, bound) == ObjStep::Continue(spec_value(o, p4), false, seen2));
    lemma_value_ok(o, p4, ev);
    let q = spec_value(o, p4);
    lemma_pwarn_trans(p1, p4, q);
    keys2
}

/// The elements of an array of the grammar, from a first element or after
/// one, are parsed with warnings at most, up to the token after the array.
proof fn lemma_array_loop_ok(o: ParseOptions, p: PModel, first: bool, e: int)
    requires
        tok_good(p),
        o.mode == Mode::Strict,
        (if first { arr_after_open(p.lex.src, p.tok.span.start as int) } else { arr_after_member(
            p.lex.src,
            p.tok.span.start as int,
        ) }) == Some(e),
        if first {
            fits_arr_open(p.lex.src, p.tok.span.start as int, p.depth, o.max_depth as int, uniq(o))
        } else {
            fits_arr_member(p.lex.src, p.tok.span.start as int, p.depth, o.max_depth as int, uniq(o))
        },
        token_at_ok(p.lex.src, ws_end(p.lex.src, e)),
    ensures
        pwarn(p, spec_array_loop(o, p, first)),
        tok_good(spec_array_loop(o, p, first)),
        spec_array_loop(o, p, first).tok.span.start as int == ws_end(p.lex.src, e),
        spec_array_loop(o, p, first).measure() <= p.measure(),
    decreases p.measure(), 7int,
{
    let f = spec_array_loop(o, p, first);
    lemma_bump(p);
    lemma_array_element_ok(o, p, first, e);
    match spec_array_element(o, p, first) {
        ArrStep::Break(p1) => {},
        ArrStep::Continue(p1) => {
            lemma_array_loop_ok(o, p1, false, e);
            lemma_pwarn_trans(p, p1, f);
        },
    }
}

#[verifier::spinoff_prover]
#[verifier::rlimit(40)]
proof fn lemma_array_element_ok(o: ParseOptions, p: PModel, first: bool, e: int)
    requires
        tok_good(p),
        o.mode == Mode::Strict,
        (if first { arr_after_open(p.lex.src, p.tok.span.start as int) } else { arr_after_member(
            p.lex.src,
            p.tok.span.start as int,
        ) }) == Some(e),
        if first {
            fits_arr_open(p.lex.src, p.tok.span.start as int, p.depth, o.max_depth as int, uniq(o))
        } else {
            fits_arr_member(p.lex.src, p.tok.span.start as int, p.depth, o.max_depth as int, uniq(o))
        },
        token_at_ok(p.lex.src, ws_end(p.lex.src, e)),
    ensures
        match spec_array_element(o, p, first) {
            ArrStep::Break(p1) => pwarn(p, p1) && tok_good(p1) && p1.tok.span.start as int == ws_end(p.lex.src, e)
                && p1.measure() <= p.measure(),
            ArrStep::Continue(p1) => pwarn(p, p1) && tok_good(p1) && p1.measure() < p.measure() && arr_after_member(
                p.lex.src,
                p1.tok.span.start as int,
            ) == Some(e) && fits_arr_member(p.lex.src, p1.tok.span.start as int, p1.depth, o.max_depth as int, uniq(o))
                && p1.depth == p.depth,
        },
    decreases p.measure(), 6int,
{
    let src = p.lex.src;
    let s = p.tok.span.start as int;
    lemma_bump(p);
    lemma_pwarn_refl(p);
    if p.tok.tok is Eof {
        assert(false);
    } else {
        lemma_good_start(p);
        lemma_sound_start(p);
        if src[s] == 93u8 {
            lemma_bump_complete(p);
        } else if first {
            let ev = value_at(src, s)->0;
            lemma_value_at_bound(src, s);
            lemma_ws_end(src, ev);
            assert(arr_after_member(src, ws_end(src, ev)) == Some(e));
            lemma_follows_closer(src, ev);
            assert(!(p.tok.tok is RBracket) && !(p.tok.tok is Eof));
            assert(spec_array_element(o, p, first) == ArrStep::Continue(spec_value(o, p)));
            lemma_value_ok(o, p, ev);
        } else {
            assert(src[s] == 44u8);
            lemma_ws_end(src, s + 1);
            let g = ws_end(src, s + 1);
            let ev = value_at(src, g)->0;
            lemma_value_at_bound(src, g);
            lemma_ws_end(src, ev);
            assert(arr_after_member(src, ws_end(src, ev)) == Some(e));
            lemma_follows_closer(src, ev);
            lemma_value_start_ok(src, g, ev);
            lemma_bump_complete(p);
            let pb = p.bump();
            lemma_bump(pb);
            lemma_good_start(pb);
            assert(!(pb.tok.tok is RBracket));
            assert(spec_array_element(o, p, first) == ArrStep::Continue(spec_value(o, pb)));
            lemma_value_ok(o, pb, ev);
            lemma_pwarn_trans(p, pb, spec_value(o, pb));
        }
    }
}

/// The encoding checks at the start of input do not fire on JSON text.
proof fn lemma_text_plain(src: Seq<u8>)
    requires
        is_json_text(src),
    ensures
        !crate::lex_spec::is_wide_encoding(src),
        !crate::lex_spec::has_utf8_bom(src),
{
    let t = ws_end(src, 0);
    let e = value_at(src, t)->0;
    lemma_ws_end(src, 0);
    lemma_value_at_bound(src, t);
    crate::grammar::lemma_json_text_nonzero(src);
    if t == 0 {
        assert(src[0] != 0xFFu8 && src[0] != 0xFEu8 && src[0] != 0xEFu8) by {
            if literal_at(src, 0, true_bytes()) { assert(src[0] == src.subrange(0, 4)[0]); }
            if literal_at(src, 0, false_bytes()) { assert(src[0] == src.subrange(0, 5)[0]); }
            if literal_at(src, 0, null_bytes()) { assert(src[0] == src.subrange(0, 4)[0]); }
        }
    }
    assert(src.len() >= 2 ==> src[1] != 0u8);
}

/// A JSON text within the limits is parsed with warnings at most.
proof fn lemma_text_warns(src: Seq<u8>, o: ParseOptions)
    requires
        src.len() <= isize::MAX,
        o.mode == Mode::Strict,
        is_json_text(src),
        fits_text(src, o.max_depth as int, uniq(o)),
    ensures
        warn_since(spec_parse_state(src, o, false).lex.diags, 0),
        warn_since(spec_parse_state(src, o, false).extra, 0),
{
    let t = ws_end(src, 0);
    let e = value_at(src, t)->0;
    lemma_ws_end(src, 0);
    lemma_value_at_bound(src, t);
    lemma_ws_end(src, e);
    lemma_text_plain(src);
    let p0 = initial_parser(src, o, false);
    assert(p0.lex.pos == 0 && p0.lex.diags == Seq::<DiagModel>::empty());
    assert(p0.valid());
    assert(follows_ok(src, e));
    lemma_value_start_ok(src, t, e);
    lemma_bump_complete(p0);
    let p0b = p0.bump();
    lemma_value_ok(o, p0b, e);
    let q = spec_value(o, p0b);
    lemma_pwarn_trans(p0, p0b, q);
    if !(q.tok.tok is Eof) {
        lemma_good_start(q);
    }
    assert(spec_parse_state(src, o, false) == q);
}

/// Strict validation accepts every JSON text within its limits. A document
/// that is JSON text as RFC 8259 defines it (see `grammar`), whose values
/// nest less deeply than `max_depth`, and whose objects repeat no key when
/// duplicate keys are errors, gets no error: at most warnings.
pub proof fn law_json_text_is_accepted(src: Seq<u8>, o: ParseOptions)
    requires
        src.len() <= isize::MAX,
        o.mode == Mode::Strict,
        is_json_text(src),
        fits_text(src, o.max_depth as int, uniq(o)),
    ensures
        no_errors(spec_validate(src, o)),
{
    lemma_text_warns(src, o);
    let q = spec_parse_state(src, o, false);
    let all = q.lex.diags + q.extra;
    assert forall|k: int| 0 <= k < all.len() implies #[trigger] all[k].severity == Severity::Warning by {
        if k < q.lex.diags.len() {
            assert(all[k] == q.lex.diags[k]);
        } else {
            assert(all[k] == q.extra[k - q.lex.diags.len()]);
        }
    }
    crate::laws::law_diagnostics_sorted_and_complete(src, o, false);
    let sorted = sort_by_start(all);
    let d = spec_validate(src, o);
    assert forall|i: int| 0 <= i < d.len() implies d[i].severity != Severity::Error by {
        broadcast use vstd::seq_lib::group_to_multiset_ensures;
        assert(d[i] == sorted[i]);
        assert(sorted.contains(sorted[i]));
        assert(all.to_multiset().count(sorted[i]) > 0);
        assert(all.contains(sorted[i]));
        let k = choose|k: int| 0 <= k < all.len() && all[k] == sorted[i];
        assert(all[k].severity == Severity::Warning);
    }
}

/// Strict validation is exact: below the cap, a document gets no error if
/// and only if it is JSON text within the limits: nested less than
/// `max_depth` deep, and with no object repeating a key when duplicate keys
/// are errors.
pub proof fn law_strict_validation_is_exact(src: Seq<u8>, o: ParseOptions)
    requires
        src.len() <= isize::MAX,
        o.mode == Mode::Strict,
        spec_parse_state(src, o, false).lex.diags.len() + spec_parse_state(src, o, false).extra.len()
            < MAX_DIAGNOSTICS,
    ensures
        no_errors(spec_validate(src, o)) <==> is_json_text(src) && fits_text(src, o.max_depth as int, uniq(o)),
{
    if no_errors(spec_validate(src, o)) {
        crate::acceptance::law_strict_acceptance_is_json(src, o);
    }
    if is_json_text(src) && fits_text(src, o.max_depth as int, uniq(o)) {
        law_json_text_is_accepted(src, o);
    }
}

} // verus!
