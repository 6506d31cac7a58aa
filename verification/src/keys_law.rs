//! Laws of the duplicate-key check: a repeated key is reported against the
//! first key of its object with the same bytes, and the keys of an object
//! seen so far are never forgotten while its members are read.
use vstd::prelude::*;
use crate::diag::{Severity, Span, MAX_DIAGNOSTICS};
use crate::acceptance::{lemma_prefix_refl, lemma_prefix_trans};
use crate::conformance::prefix_of;
use crate::depth_law::{astate, ostate};
use crate::lex_spec::TokModel;
use crate::parse_spec::{
    find_key, key_bytes, lemma_bump, object_separator, spec_array_element, spec_array_loop, spec_check_duplicate,
    spec_key, spec_member_key, spec_member_value, spec_object_loop, spec_object_member, spec_resync,
    spec_resync_member, spec_scalar, spec_value, ArrStep, DupKeys, ObjStep, PModel, ParseOptions,
};

verus! {

/// Some key of `seen` has the bytes `key`.
pub open spec fn seen_key(src: Seq<u8>, seen: Seq<Span>, key: Seq<u8>) -> bool {
    exists|k: int| 0 <= k < seen.len() && key_bytes(src, #[trigger] seen[k]) == key
}

/// `j` is the first index of `seen` whose key has the bytes `key`.
pub open spec fn first_with_key(src: Seq<u8>, seen: Seq<Span>, key: Seq<u8>, j: int) -> bool {
    &&& 0 <= j < seen.len()
    &&& key_bytes(src, seen[j]) == key
    &&& forall|k: int| 0 <= k < j ==> key_bytes(src, #[trigger] seen[k]) != key
}

proof fn lemma_find_key(src: Seq<u8>, seen: Seq<Span>, key: Seq<u8>, i: int)
    requires
        0 <= i <= seen.len(),
    ensures
        match find_key(src, seen, key, i) {
            Some(j) => i <= j < seen.len() && key_bytes(src, seen[j]) == key && forall|k: int|
                i <= k < j ==> key_bytes(src, #[trigger] seen[k]) != key,
            None => forall|k: int| i <= k < seen.len() ==> key_bytes(src, #[trigger] seen[k]) != key,
        },
    decreases seen.len() - i,
{
    if i < seen.len() && key_bytes(src, seen[i]) != key {
        lemma_find_key(src, seen, key, i + 1);
    }
}

/// Under the warn or error policy, a key checked against the keys seen so
/// far in its object: when one of them has the same bytes, the key is
/// reported as W060 at its own span, pointing at the first such key, as a
/// warning or an error by the policy, and the keys seen stay as they are;
/// otherwise nothing is reported and the key joins them. Either way the keys
/// seen before are all kept, and one with the key's bytes is among them after.
pub proof fn law_duplicate_check(o: ParseOptions, p: PModel, kspan: Span, seen: Seq<Span>)
    requires
        o.duplicate_keys != DupKeys::Allow,
    ensures
        ({
            let (p2, seen2) = spec_check_duplicate(o, p, kspan, seen);
            let src = p.lex.src;
            let key = key_bytes(src, kspan);
            &&& seen.is_prefix_of(seen2)
            &&& seen_key(src, seen2, key)
            &&& p2.lex == p.lex && p2.tok == p.tok && p2.depth == p.depth && p2.events == p.events
            &&& seen_key(src, seen, key) ==> {
                &&& seen2 == seen
                &&& p.extra.len() < MAX_DIAGNOSTICS ==> {
                    &&& p2.extra.len() == p.extra.len() + 1
                    &&& p2.extra.drop_last() == p.extra
                    &&& p2.extra.last().code == "W060"@
                    &&& p2.extra.last().span == kspan
                    &&& p2.extra.last().severity == if o.duplicate_keys == DupKeys::Error {
                        Severity::Error
                    } else {
                        Severity::Warning
                    }
                    &&& forall|j: int| #[trigger]
                        first_with_key(src, seen, key, j) ==> p2.extra.last().related == Some(seen[j])
                }
                &&& p.extra.len() >= MAX_DIAGNOSTICS ==> p2 == p
            }
            &&& !seen_key(src, seen, key) ==> seen2 == seen.push(kspan) && p2 == p
        }),
{
    let src = p.lex.src;
    let key = key_bytes(src, kspan);
    let (p2, seen2) = spec_check_duplicate(o, p, kspan, seen);
    lemma_find_key(src, seen, key, 0);
    assert(seen.is_prefix_of(seen)) by {
        assert(seen.subrange(0, seen.len() as int) =~= seen);
    }
    match find_key(src, seen, key, 0) {
        Some(j) => {
            assert(seen_key(src, seen, key));
            assert(seen_key(src, seen2, key));
            assert forall|j2: int| #[trigger] first_with_key(src, seen, key, j2) implies j2 == j by {
                if j2 < j {
                    assert(key_bytes(src, seen[j2]) != key);
                } else if j < j2 {
                    assert(key_bytes(src, seen[j]) != key);
                }
            }
            if p.extra.len() < MAX_DIAGNOSTICS {
                assert(p2.extra.drop_last() =~= p.extra);
            }
        },
        None => {
            assert(!seen_key(src, seen, key));
            assert(seen.is_prefix_of(seen2)) by {
                assert(seen2.subrange(0, seen.len() as int) =~= seen);
            }
            assert(seen2[seen.len() as int] == kspan);
            assert(seen_key(src, seen2, key));
        },
    }
}

/// The keys seen after a key check keep those seen before, whatever the policy.
proof fn lemma_check_keeps(o: ParseOptions, p: PModel, kspan: Span, seen: Seq<Span>)
    ensures
        seen.is_prefix_of(spec_check_duplicate(o, p, kspan, seen).1),
{
    if o.duplicate_keys == DupKeys::Allow {
        assert(seen.subrange(0, seen.len() as int) =~= seen);
    } else {
        law_duplicate_check(o, p, kspan, seen);
    }
}

/// Reading one member of an object never forgets a key seen before it: the
/// keys the next member is checked against start with all the earlier ones,
/// so every later repeat of any of them is still caught.
pub proof fn law_object_member_keeps_keys(o: ParseOptions, p: PModel, first: bool, seen: Seq<Span>)
    ensures
        match spec_object_member(o, p, first, seen) {
            ObjStep::Continue(_, _, s1) => seen.is_prefix_of(s1),
            ObjStep::Break(_) => true,
        },
{
    assert(seen.is_prefix_of(seen)) by {
        assert(seen.subrange(0, seen.len() as int) =~= seen);
    }
    if p.valid() && p.measure() >= 0 {
        let sep = if first { Ok(p) } else { crate::parse_spec::object_separator(o, p) };
        match sep {
            Ok(p1) => {
                match p1.tok.tok {
                    crate::lex_spec::TokModel::Str(_) => {
                        lemma_check_keeps(o, p1, p1.tok.span, seen);
                    },
                    _ => {},
                }
                match spec_key(o, p1, seen) {
                    Some((p3, seen2)) => {
                        assert(seen.is_prefix_of(seen2));
                        match spec_member_value(o, p3, seen2, p.measure()) {
                            ObjStep::Continue(_, _, s1) => {
                                assert(s1 == seen2);
                            },
                            _ => {},
                        }
                    },
                    None => {},
                }
            },
            Err(_) => {},
        }
    }
}

proof fn lemma_report_kept(p: PModel, d: crate::diag::DiagModel)
    ensures
        prefix_of(p.extra, p.report(d).extra),
{
    lemma_prefix_refl(p.extra);
    assert(p.extra.push(d).take(p.extra.len() as int) =~= p.extra);
}

proof fn lemma_resync_kept(p: PModel, d: int)
    ensures
        spec_resync(p, d).extra == p.extra,
    decreases p.measure(),
{
    if p.valid() && p.measure() >= 0 {
        lemma_bump(p);
        match p.tok.tok {
            TokModel::Eof => {},
            TokModel::LBrace => lemma_resync_kept(p.bump(), d + 1),
            TokModel::LBracket => lemma_resync_kept(p.bump(), d + 1),
            TokModel::RBrace => if d != 0 { lemma_resync_kept(p.bump(), d - 1) },
            TokModel::RBracket => if d != 0 { lemma_resync_kept(p.bump(), d - 1) },
            TokModel::Comma => if d != 0 { lemma_resync_kept(p.bump(), d) },
            _ => lemma_resync_kept(p.bump(), d),
        }
    }
}

proof fn lemma_resync_member_kept(p: PModel)
    ensures
        spec_resync_member(p).extra == p.extra,
    decreases p.measure(),
{
    if p.valid() && p.measure() >= 0 {
        lemma_bump(p);
        match p.tok.tok {
            TokModel::Eof => {},
            TokModel::RBrace => {},
            TokModel::Comma => {},
            _ => lemma_resync_member_kept(p.bump()),
        }
    }
}

/// A diagnostic the parser has reported is never withdrawn: parsing a value
/// (and every object and array inside it) only adds to the diagnostics
/// reported before it.
pub proof fn law_reports_are_kept(o: ParseOptions, p: PModel)
    ensures
        prefix_of(p.extra, spec_value(o, p).extra),
    decreases p.measure(), 1int, 0int,
{
    lemma_prefix_refl(p.extra);
    if p.valid() && p.measure() >= 0 {
        lemma_bump(p);
        if p.depth >= o.max_depth {
            let p1 = p.error("E040"@, "maximum nesting depth exceeded"@, p.tok.span, None);
            lemma_report_kept(p, p1.extra.last());
            assert(p1 == p.report(p1.extra.last()) || p1 == p);
            lemma_resync_kept(p1, 0);
        } else if p.tok.tok is LBrace {
            let p1 = p.emit(crate::parse_spec::EventModel::BeginObject).with_depth(p.depth + 1).bump();
            lemma_object_loop_kept(o, p1, true, Seq::empty());
        } else if p.tok.tok is LBracket {
            let p1 = p.emit(crate::parse_spec::EventModel::BeginArray).with_depth(p.depth + 1).bump();
            lemma_array_loop_kept(o, p1, true);
        } else {
            assert(spec_value(o, p) == spec_scalar(p));
            let q = spec_scalar(p);
            if q.extra != p.extra {
                assert(q.extra =~= p.extra.push(q.extra.last()));
                assert(p.extra.push(q.extra.last()).take(p.extra.len() as int) =~= p.extra);
            }
        }
    }
}

proof fn lemma_object_loop_kept(o: ParseOptions, p: PModel, first: bool, seen: Seq<Span>)
    ensures
        prefix_of(p.extra, spec_object_loop(o, p, first, seen).extra),
    decreases p.measure(), 3int, 0int,
{
    lemma_prefix_refl(p.extra);
    if p.valid() && p.measure() >= 0 {
        lemma_object_member_kept(o, p, first, seen);
        match spec_object_member(o, p, first, seen) {
            ObjStep::Break(p1) => {},
            ObjStep::Continue(p1, f1, s1) => {
                if 0 <= p1.measure() < p.measure() {
                    lemma_object_loop_kept(o, p1, f1, s1);
                    lemma_prefix_trans(p.extra, p1.extra, spec_object_loop(o, p1, f1, s1).extra);
                }
            },
        }
    }
}

proof fn lemma_object_member_kept(o: ParseOptions, p: PModel, first: bool, seen: Seq<Span>)
    requires
        p.valid(),
    ensures
        prefix_of(p.extra, ostate(spec_object_member(o, p, first, seen)).extra),
    decreases p.measure(), 2int, 0int,
{
    lemma_prefix_refl(p.extra);
    lemma_bump(p);
    let st = spec_object_member(o, p, first, seen);
    if p.tok.tok is RBrace {
        assert(st == ObjStep::Break(p.bump()));
        assert(p.bump().extra == p.extra);
    } else if p.tok.tok is Eof {
        let pe = p.error("E006"@, "unclosed object, expected '}'"@, p.tok.span, None);
        assert(st == ObjStep::Break(pe));
        lemma_report_kept(p, pe.extra.last());
        assert(pe == p.report(pe.extra.last()) || pe == p);
    } else {
        if first && p.tok.tok is Comma {
            let pe = p.error("E007"@, "leading comma in object"@, p.tok.span, None);
            lemma_report_kept(p, pe.extra.last());
            assert(pe == p.report(pe.extra.last()) || pe == p);
            assert(st == ObjStep::Continue(pe.bump(), first, seen));
            assert(pe.bump().extra == pe.extra);
        } else {
            let sep = if first { Ok(p) } else { object_separator(o, p) };
            if !first {
                lemma_separator_kept(o, p);
            }
            match sep {
                Err(p1) => {},
                Ok(p1) => {
                    assert(spec_object_member(o, p, first, seen) == spec_member_key(o, p1, seen, p.measure()));
                    lemma_member_key_kept(o, p1, seen, p.measure());
                    lemma_prefix_trans(p.extra, p1.extra, ostate(spec_member_key(o, p1, seen, p.measure())).extra);
                },
            }
        }
    }
}

proof fn lemma_separator_kept(o: ParseOptions, p: PModel)
    requires
        p.valid(),
    ensures
        match object_separator(o, p) {
            Ok(p1) => prefix_of(p.extra, p1.extra),
            Err(p1) => prefix_of(p.extra, p1.extra),
        },
{
    lemma_prefix_refl(p.extra);
    lemma_bump(p);
    let p1 = p.bump();
    lemma_bump(p1);
    if p.tok.tok is Comma {
        if p1.tok.tok is RBrace {
            let p2 = if o.mode == crate::lex_spec::Mode::Strict {
                p1.error("E008"@, "trailing comma in object"@, p1.tok.span, Some(
                    crate::parse_spec::trailing_comma_hint_object(),
                ))
            } else {
                p1
            };
            lemma_prefix_refl(p1.extra);
            if p2 != p1 {
                lemma_report_kept(p1, p2.extra.last());
                assert(p2 == p1.report(p2.extra.last()));
            }
        }
    } else if !(p.tok.tok is RBrace) {
        let pe = p.error("E009"@, "expected ',' or '}' between object members, found "@ + crate::parse_spec::tok_name(
            p.tok.tok), p.tok.span, Some(crate::parse_spec::missing_comma_hint()));
        lemma_report_kept(p, pe.extra.last());
        assert(pe == p.report(pe.extra.last()) || pe == p);
    }
}

proof fn lemma_member_key_kept(o: ParseOptions, p1: PModel, seen: Seq<Span>, bound: int)
    ensures
        prefix_of(p1.extra, ostate(spec_member_key(o, p1, seen, bound)).extra),
    decreases bound, 1int, 2int,
{
    lemma_prefix_refl(p1.extra);
    match spec_key(o, p1, seen) {
        Some((p3, seen2)) => {
            assert(prefix_of(p1.extra, p3.extra)) by {
                match p1.tok.tok {
                    TokModel::Str(_) => {
                        let p2 = spec_check_duplicate(o, p1, p1.tok.span, seen).0;
                        if p2 != p1 {
                            lemma_report_kept(p1, p2.extra.last());
                            assert(p2 == p1.report(p2.extra.last()));
                        }
                    },
                    _ => {
                        let pe = if p1.tok.tok is Ident {
                            p1.error("E022"@, "object keys must be quoted: '"@ + p1.tok.tok->Ident_0 + "'"@,
                                p1.tok.span, Some("write \""@ + p1.tok.tok->Ident_0
                                + "\" — unquoted keys are valid in JSON5 only"@))
                        } else {
                            p1.error("E022"@, "object keys must be quoted strings"@, p1.tok.span, Some(
                                "numbers cannot be keys in JSON"@,
                            ))
                        };
                        lemma_report_kept(p1, pe.extra.last());
                        assert(pe == p1.report(pe.extra.last()) || pe == p1);
                    },
                }
            }
            if p3.measure() < bound && p3.valid() {
                let p4 = if p3.tok.tok is Colon {
                    p3.bump()
                } else {
                    p3.error("E024"@, "expected ':' after object key, found "@ + crate::parse_spec::tok_name(
                        p3.tok.tok), p3.tok.span, None)
                };
                lemma_bump(p3);
                lemma_prefix_refl(p3.extra);
                if p4.extra != p3.extra {
                    lemma_report_kept(p3, p4.extra.last());
                    assert(p4 == p3.report(p4.extra.last()));
                }
                assert(spec_member_value(o, p3, seen2, bound) == ObjStep::Continue(spec_value(o, p4), false, seen2));
                law_reports_are_kept(o, p4);
                lemma_prefix_trans(p1.extra, p3.extra, p4.extra);
                lemma_prefix_trans(p1.extra, p4.extra, spec_value(o, p4).extra);
            }
        },
        None => {
            let p5 = p1.error("E023"@, "expected object key, found "@ + crate::parse_spec::tok_name(p1.tok.tok),
                p1.tok.span, None);
            lemma_report_kept(p1, p5.extra.last());
            assert(p5 == p1.report(p5.extra.last()) || p5 == p1);
            lemma_resync_member_kept(p5);
        },
    }
}

proof fn lemma_array_loop_kept(o: ParseOptions, p: PModel, first: bool)
    ensures
        prefix_of(p.extra, spec_array_loop(o, p, first).extra),
    decreases p.measure(), 3int, if first { 1int } else { 0int },
{
    lemma_prefix_refl(p.extra);
    if p.valid() && p.measure() >= 0 {
        lemma_array_element_kept(o, p, first);
        match spec_array_element(o, p, first) {
            ArrStep::Break(p1) => {},
            ArrStep::Continue(p1) => {
                if 0 <= p1.measure() < p.measure() || (first && p1.measure() == p.measure()) {
                    lemma_array_loop_kept(o, p1, false);
                    lemma_prefix_trans(p.extra, p1.extra, spec_array_loop(o, p1, false).extra);
                }
            },
        }
    }
}

proof fn lemma_array_element_kept(o: ParseOptions, p: PModel, first: bool)
    requires
        p.valid(),
    ensures
        prefix_of(p.extra, astate(spec_array_element(o, p, first)).extra),
    decreases p.measure(), 2int, 0int,
{
    lemma_prefix_refl(p.extra);
    lemma_bump(p);
    let pb = p.bump();
    lemma_bump(pb);
    lemma_prefix_refl(pb.extra);
    assert(pb.extra == p.extra);
    if p.tok.tok is RBracket {
        assert(spec_array_element(o, p, first) == ArrStep::Break(pb));
    } else if p.tok.tok is Eof {
        let pe = p.error("E006"@, "unclosed array, expected ']'"@, p.tok.span, None);
        assert(spec_array_element(o, p, first) == ArrStep::Break(pe));
        lemma_report_kept(p, pe.extra.last());
        assert(pe == p.report(pe.extra.last()) || pe == p);
    } else {
        match spec_array_element(o, p, first) {
            ArrStep::Break(q) => {
                let pbb = pb.bump();
                assert(pbb.extra == pb.extra);
                if !first && p.tok.tok is Comma && pb.tok.tok is RBracket {
                    let p2 = if o.mode == crate::lex_spec::Mode::Strict {
                        pb.error("E008"@, "trailing comma in array"@, pb.tok.span, Some(
                            "trailing commas are valid in JSONC"@,
                        ))
                    } else {
                        pb
                    };
                    assert(q == p2.bump());
                    assert(q.extra == p2.extra);
                    if p2 != pb {
                        lemma_report_kept(pb, p2.extra.last());
                        assert(p2 == pb.report(p2.extra.last()));
                    }
                } else {
                    assert(q == pb);
                }
            },
            ArrStep::Continue(q) => {
                let p1 = if first || !(p.tok.tok is Comma) {
                    if first {
                        p
                    } else {
                        p.error("E009"@, "expected ',' or ']' between array elements, found "@
                            + crate::parse_spec::tok_name(p.tok.tok), p.tok.span, Some(
                            crate::parse_spec::missing_comma_hint(),
                        ))
                    }
                } else {
                    pb
                };
                if p1.extra != p.extra {
                    lemma_report_kept(p, p1.extra.last());
                    assert(p1 == p.report(p1.extra.last()));
                }
                assert(q == spec_value(o, p1));
                law_reports_are_kept(o, p1);
                lemma_prefix_trans(p.extra, p1.extra, q.extra);
            },
        }
    }
}

/// The parser at the key of an object member: after the separator, unless
/// the member is the first.
pub open spec fn member_key_state(o: ParseOptions, p: PModel, first: bool) -> PModel {
    if first {
        p
    } else {
        match object_separator(o, p) {
            Ok(p1) => p1,
            Err(p1) => p1,
        }
    }
}

proof fn lemma_prefix_at(a: Seq<crate::diag::DiagModel>, b: Seq<crate::diag::DiagModel>, n: int)
    requires
        prefix_of(a, b),
        0 <= n < a.len(),
    ensures
        b[n] == a[n],
{
    assert(b.take(a.len() as int)[n] == b[n]);
}

/// Every repeated key of an object is reported when its member is read:
/// under the warn or error policy, when the key of a member (a string) has
/// the bytes of a key seen before in the same object, the diagnostics after
/// the member hold, right after those reported before its key, a W060 at the
/// key's span that points at the first key with those bytes, as a warning or
/// an error by the policy; the keys seen stay as they are, so a later repeat
/// of either is still caught.
pub proof fn law_repeated_key_is_reported(o: ParseOptions, p: PModel, first: bool, seen: Seq<Span>)
    requires
        p.valid(),
        o.duplicate_keys != DupKeys::Allow,
        !(p.tok.tok is RBrace),
        !(p.tok.tok is Eof),
        !(first && p.tok.tok is Comma),
        first || object_separator(o, p) is Ok,
        member_key_state(o, p, first).tok.tok is Str,
        seen_key(p.lex.src, seen, key_bytes(p.lex.src, member_key_state(o, p, first).tok.span)),
        member_key_state(o, p, first).extra.len() < MAX_DIAGNOSTICS,
    ensures
        ({
            let p1 = member_key_state(o, p, first);
            let src = p.lex.src;
            let key = key_bytes(src, p1.tok.span);
            let q = ostate(spec_object_member(o, p, first, seen));
            let n = p1.extra.len() as int;
            &&& n < q.extra.len()
            &&& q.extra[n].code == "W060"@
            &&& q.extra[n].span == p1.tok.span
            &&& q.extra[n].severity == if o.duplicate_keys == DupKeys::Error {
                Severity::Error
            } else {
                Severity::Warning
            }
            &&& forall|j: int| #[trigger] first_with_key(src, seen, key, j) ==> q.extra[n].related == Some(seen[j])
            &&& (spec_object_member(o, p, first, seen) matches ObjStep::Continue(_, _, s1) ==> s1 == seen)
        }),
{
    let p1 = member_key_state(o, p, first);
    let n = p1.extra.len() as int;
    lemma_bump(p);
    if !first {
        lemma_bump(p.bump());
    }
    assert(p1.lex.src == p.lex.src);
    assert(spec_object_member(o, p, first, seen) == spec_member_key(o, p1, seen, p.measure()));
    law_duplicate_check(o, p1, p1.tok.span, seen);
    let (p2, seen2) = spec_check_duplicate(o, p1, p1.tok.span, seen);
    assert(seen2 == seen);
    let p3 = p2.emit(crate::parse_spec::EventModel::Key(p1.tok.tok->Str_0)).bump();
    assert(spec_key(o, p1, seen) == Some((p3, seen2)));
    assert(p3.extra == p2.extra);
    assert(p3.extra[n] == p2.extra.last());
    let st = spec_member_value(o, p3, seen2, p.measure());
    if p3.measure() < p.measure() && p3.valid() {
        let p4 = if p3.tok.tok is Colon {
            p3.bump()
        } else {
            p3.error("E024"@, "expected ':' after object key, found "@ + crate::parse_spec::tok_name(p3.tok.tok),
                p3.tok.span, None)
        };
        lemma_bump(p3);
        lemma_prefix_refl(p3.extra);
        if p4.extra != p3.extra {
            lemma_report_kept(p3, p4.extra.last());
            assert(p4 == p3.report(p4.extra.last()));
        }
        assert(st == ObjStep::Continue(spec_value(o, p4), false, seen2));
        law_reports_are_kept(o, p4);
        lemma_prefix_trans(p3.extra, p4.extra, spec_value(o, p4).extra);
        lemma_prefix_at(p3.extra, spec_value(o, p4).extra, n);
    } else {
        assert(st == ObjStep::Break(p3));
    }
}

} // verus!
