//! The events of every run describe exactly one value, however broken the
//! input: the structure is recovered, never abandoned.
use vstd::prelude::*;
use crate::diag::Span;
use crate::parse_spec::{
    initial_parser, lemma_bump, object_separator, spec_array_element, spec_array_loop, spec_check_duplicate,
    spec_events, spec_key, spec_member_key, spec_member_value, spec_object_loop, spec_object_member,
    spec_parse_state, spec_resync, spec_resync_member, spec_scalar, spec_value, ArrStep, EventModel, ObjStep,
    PModel, ParseOptions,
};

verus! {

/// An event that is a whole value by itself.
pub open spec fn is_scalar_event(e: EventModel) -> bool {
    e is Null || e is Bool || e is Number || e is Str
}

/// Where the value whose events start at `i` ends, if they form one.
pub open spec fn value_end(ev: Seq<EventModel>, i: int) -> Option<int>
    decreases ev.len() - i, 0int,
{
    if i < 0 || i >= ev.len() {
        None
    } else if is_scalar_event(ev[i]) {
        Some(i + 1)
    } else if ev[i] is BeginArray {
        elements_end(ev, i + 1)
    } else if ev[i] is BeginObject {
        members_end(ev, i + 1)
    } else {
        None
    }
}

/// Where the elements of an array that start at `i` end, past its `EndArray`.
pub open spec fn elements_end(ev: Seq<EventModel>, i: int) -> Option<int>
    decreases ev.len() - i, 1int,
{
    if i < 0 || i >= ev.len() {
        None
    } else if ev[i] is EndArray {
        Some(i + 1)
    } else {
        match value_end(ev, i) {
            Some(j) => if i < j <= ev.len() { elements_end(ev, j) } else { None },
            None => None,
        }
    }
}

/// Where the members of an object that start at `i` end, past its
/// `EndObject`; each member is a key followed by a value.
pub open spec fn members_end(ev: Seq<EventModel>, i: int) -> Option<int>
    decreases ev.len() - i, 1int,
{
    if i < 0 || i >= ev.len() {
        None
    } else if ev[i] is EndObject {
        Some(i + 1)
    } else if ev[i] is Key || ev[i] is KeyNumber {
        match value_end(ev, i + 1) {
            Some(j) => if i < j <= ev.len() { members_end(ev, j) } else { None },
            None => None,
        }
    } else {
        None
    }
}

/// The events from `i` up to `k` are whole members.
pub open spec fn members_ok(ev: Seq<EventModel>, i: int, k: int) -> bool
    decreases k - i,
{
    if i >= k {
        i == k
    } else {
        &&& 0 <= i < ev.len()
        &&& (ev[i] is Key || ev[i] is KeyNumber)
        &&& match value_end(ev, i + 1) {
            Some(j) => i < j <= k && members_ok(ev, j, k),
            None => false,
        }
    }
}

/// The events from `i` up to `k` are whole values.
pub open spec fn elements_ok(ev: Seq<EventModel>, i: int, k: int) -> bool
    decreases k - i,
{
    if i >= k {
        i == k
    } else {
        match value_end(ev, i) {
            Some(j) => i < j <= k && elements_ok(ev, j, k),
            None => false,
        }
    }
}

/// `q` has the events of `p`, and maybe more after them.
pub open spec fn extends(p: PModel, q: PModel) -> bool {
    &&& p.events.len() <= q.events.len()
    &&& q.events.take(p.events.len() as int) == p.events
}

// ------------------------------------------------------------ the grammar

proof fn lemma_value_end_extend(ev: Seq<EventModel>, t: Seq<EventModel>, i: int)
    requires
        value_end(ev, i) is Some,
    ensures
        value_end(ev + t, i) == value_end(ev, i),
        i < value_end(ev, i)->0 <= ev.len(),
    decreases ev.len() - i, 0int,
{
    assert((ev + t)[i] == ev[i]);
    if ev[i] is BeginArray {
        lemma_elements_end_extend(ev, t, i + 1);
    } else if ev[i] is BeginObject {
        lemma_members_end_extend(ev, t, i + 1);
    }
}

proof fn lemma_elements_end_extend(ev: Seq<EventModel>, t: Seq<EventModel>, i: int)
    requires
        elements_end(ev, i) is Some,
    ensures
        elements_end(ev + t, i) == elements_end(ev, i),
        i < elements_end(ev, i)->0 <= ev.len(),
    decreases ev.len() - i, 1int,
{
    assert((ev + t)[i] == ev[i]);
    if !(ev[i] is EndArray) {
        lemma_value_end_extend(ev, t, i);
        let j = value_end(ev, i)->0;
        lemma_elements_end_extend(ev, t, j);
    }
}

proof fn lemma_members_end_extend(ev: Seq<EventModel>, t: Seq<EventModel>, i: int)
    requires
        members_end(ev, i) is Some,
    ensures
        members_end(ev + t, i) == members_end(ev, i),
        i < members_end(ev, i)->0 <= ev.len(),
    decreases ev.len() - i, 1int,
{
    assert((ev + t)[i] == ev[i]);
    if !(ev[i] is EndObject) {
        lemma_value_end_extend(ev, t, i + 1);
        let j = value_end(ev, i + 1)->0;
        lemma_members_end_extend(ev, t, j);
    }
}

/// Whole members stay whole when events are added after them.
proof fn lemma_members_ok_extend(ev: Seq<EventModel>, ev2: Seq<EventModel>, i: int, k: int)
    requires
        members_ok(ev, i, k),
        k <= ev.len() <= ev2.len(),
        ev2.take(ev.len() as int) == ev,
    ensures
        members_ok(ev2, i, k),
    decreases k - i,
{
    if i < k {
        let t = ev2.skip(ev.len() as int);
        assert(ev2 =~= ev + t);
        lemma_value_end_extend(ev, t, i + 1);
        let j = value_end(ev, i + 1)->0;
        lemma_members_ok_extend(ev, ev2, j, k);
        assert(ev2[i] == ev[i]);
    }
}

proof fn lemma_elements_ok_extend(ev: Seq<EventModel>, ev2: Seq<EventModel>, i: int, k: int)
    requires
        elements_ok(ev, i, k),
        k <= ev.len() <= ev2.len(),
        ev2.take(ev.len() as int) == ev,
    ensures
        elements_ok(ev2, i, k),
    decreases k - i,
{
    if i < k {
        let t = ev2.skip(ev.len() as int);
        assert(ev2 =~= ev + t);
        lemma_value_end_extend(ev, t, i);
        let j = value_end(ev, i)->0;
        lemma_elements_ok_extend(ev, ev2, j, k);
    }
}

proof fn lemma_members_ok_concat(ev: Seq<EventModel>, i: int, j: int, k: int)
    requires
        members_ok(ev, i, j),
        members_ok(ev, j, k),
    ensures
        members_ok(ev, i, k),
    decreases j - i,
{
    if i < j {
        let m = value_end(ev, i + 1)->0;
        lemma_members_ok_concat(ev, m, j, k);
    }
}

proof fn lemma_elements_ok_concat(ev: Seq<EventModel>, i: int, j: int, k: int)
    requires
        elements_ok(ev, i, j),
        elements_ok(ev, j, k),
    ensures
        elements_ok(ev, i, k),
    decreases j - i,
{
    if i < j {
        let m = value_end(ev, i)->0;
        lemma_elements_ok_concat(ev, m, j, k);
    }
}

/// Whole members followed by `EndObject` end the object just past it.
proof fn lemma_members_close(ev: Seq<EventModel>, i: int, k: int)
    requires
        members_ok(ev, i, k),
        0 <= i,
        k < ev.len(),
        ev[k] is EndObject,
    ensures
        members_end(ev, i) == Some(k + 1),
    decreases k - i,
{
    if i < k {
        let j = value_end(ev, i + 1)->0;
        lemma_members_close(ev, j, k);
    }
}

proof fn lemma_elements_close(ev: Seq<EventModel>, i: int, k: int)
    requires
        elements_ok(ev, i, k),
        0 <= i,
        k < ev.len(),
        ev[k] is EndArray,
    ensures
        elements_end(ev, i) == Some(k + 1),
    decreases k - i,
{
    if i < k {
        let j = value_end(ev, i)->0;
        assert(!(ev[i] is EndArray));
        lemma_elements_close(ev, j, k);
    }
}

// ------------------------------------------------------------ the parser

proof fn lemma_resync_events(p: PModel, d: int)
    ensures
        spec_resync(p, d).events == p.events,
    decreases p.measure(),
{
    if p.valid() && p.measure() >= 0 {
        lemma_bump(p);
        match p.tok.tok {
            crate::lex_spec::TokModel::Eof => {},
            crate::lex_spec::TokModel::LBrace => lemma_resync_events(p.bump(), d + 1),
            crate::lex_spec::TokModel::LBracket => lemma_resync_events(p.bump(), d + 1),
            crate::lex_spec::TokModel::RBrace => if d != 0 { lemma_resync_events(p.bump(), d - 1) },
            crate::lex_spec::TokModel::RBracket => if d != 0 { lemma_resync_events(p.bump(), d - 1) },
            crate::lex_spec::TokModel::Comma => if d != 0 { lemma_resync_events(p.bump(), d) },
            _ => lemma_resync_events(p.bump(), d),
        }
    }
}

proof fn lemma_resync_member_events(p: PModel)
    ensures
        spec_resync_member(p).events == p.events,
    decreases p.measure(),
{
    if p.valid() && p.measure() >= 0 {
        lemma_bump(p);
        match p.tok.tok {
            crate::lex_spec::TokModel::Eof => {},
            crate::lex_spec::TokModel::RBrace => {},
            crate::lex_spec::TokModel::Comma => {},
            _ => lemma_resync_member_events(p.bump()),
        }
    }
}

/// A value adds the events of exactly one value.
proof fn lemma_value_events(o: ParseOptions, p: PModel)
    requires
        p.valid(),
    ensures
        extends(p, spec_value(o, p)),
        value_end(spec_value(o, p).events, p.events.len() as int) == Some(spec_value(o, p).events.len() as int),
    decreases p.measure(), 1int, 0int,
{
    let n = p.events.len() as int;
    let q = spec_value(o, p);
    lemma_bump(p);
    if p.depth >= o.max_depth {
        let p1 = p.error("E040"@, "maximum nesting depth exceeded"@, p.tok.span, None);
        lemma_resync_events(p1, 0);
        assert(q.events =~= p.events.push(EventModel::Null));
        assert(q.events.take(n) =~= p.events);
    } else if p.tok.tok is LBrace {
        let q0 = p.emit(EventModel::BeginObject).with_depth(p.depth + 1);
        lemma_bump(q0);
        let p1 = q0.bump();
        assert(p1.events =~= p.events.push(EventModel::BeginObject));
        assert(p1.events.take(n) =~= p.events);
        lemma_object_loop_events(o, p1, true, Seq::empty());
        let f = spec_object_loop(o, p1, true, Seq::empty());
        assert(q.events =~= f.events.push(EventModel::EndObject));
        assert(q.events.take(f.events.len() as int) =~= f.events);
        assert(f.events.take(p1.events.len() as int)[n] == f.events[n]);
        assert(f.events[n] == p1.events[n]);
        lemma_members_ok_extend(f.events, q.events, n + 1, f.events.len() as int);
        lemma_members_close(q.events, n + 1, f.events.len() as int);
        assert(f.events.take(n) =~= f.events.take(p1.events.len() as int).take(n));
        assert(q.events.take(n) =~= f.events.take(n));
        assert(q.events.take(n) =~= p.events);
    } else if p.tok.tok is LBracket {
        let q0 = p.emit(EventModel::BeginArray).with_depth(p.depth + 1);
        lemma_bump(q0);
        let p1 = q0.bump();
        assert(p1.events =~= p.events.push(EventModel::BeginArray));
        assert(p1.events.take(n) =~= p.events);
        lemma_array_loop_events(o, p1, true);
        let f = spec_array_loop(o, p1, true);
        assert(q.events =~= f.events.push(EventModel::EndArray));
        assert(q.events.take(f.events.len() as int) =~= f.events);
        assert(f.events.take(p1.events.len() as int)[n] == f.events[n]);
        assert(f.events[n] == p1.events[n]);
        lemma_elements_ok_extend(f.events, q.events, n + 1, f.events.len() as int);
        lemma_elements_close(q.events, n + 1, f.events.len() as int);
        assert(f.events.take(n) =~= f.events.take(p1.events.len() as int).take(n));
        assert(q.events.take(n) =~= f.events.take(n));
        assert(q.events.take(n) =~= p.events);
    } else {
        assert(q == spec_scalar(p));
        lemma_scalar_events(p);
    }
}

/// A literal, or a diagnostic for what cannot start a value, adds one event
/// that is a whole value.
proof fn lemma_scalar_events(p: PModel)
    requires
        p.valid(),
    ensures
        extends(p, spec_scalar(p)),
        spec_scalar(p).events.len() == p.events.len() + 1,
        is_scalar_event(spec_scalar(p).events[p.events.len() as int]),
{
    let n = p.events.len() as int;
    let q = spec_scalar(p);
    lemma_bump(p);
    assert(q.events.take(n) =~= p.events);
}

proof fn lemma_object_loop_events(o: ParseOptions, p: PModel, first: bool, seen: Seq<Span>)
    ensures
        extends(p, spec_object_loop(o, p, first, seen)),
        members_ok(
            spec_object_loop(o, p, first, seen).events,
            p.events.len() as int,
            spec_object_loop(o, p, first, seen).events.len() as int,
        ),
    decreases p.measure(), 3int, 0int,
{
    let n = p.events.len() as int;
    let f = spec_object_loop(o, p, first, seen);
    if !p.valid() || p.measure() < 0 {
        assert(p.events.take(n) =~= p.events);
    } else {
        lemma_object_member_events(o, p, first, seen);
        match spec_object_member(o, p, first, seen) {
            ObjStep::Break(p1) => {},
            ObjStep::Continue(p1, f1, s1) => {
                if 0 <= p1.measure() < p.measure() {
                    lemma_object_loop_events(o, p1, f1, s1);
                    let m = p1.events.len() as int;
                    lemma_members_ok_extend(p1.events, f.events, n, m);
                    lemma_members_ok_concat(f.events, n, m, f.events.len() as int);
                    assert(f.events.take(n) =~= f.events.take(m).take(n));
                }
            },
        }
    }
}

/// One member step adds at most one whole member.
proof fn lemma_object_member_events(o: ParseOptions, p: PModel, first: bool, seen: Seq<Span>)
    requires
        p.valid(),
    ensures
        match spec_object_member(o, p, first, seen) {
            ObjStep::Break(p1) => extends(p, p1) && members_ok(p1.events, p.events.len() as int, p1.events.len() as int),
            ObjStep::Continue(p1, _, _) => extends(p, p1) && members_ok(
                p1.events,
                p.events.len() as int,
                p1.events.len() as int,
            ),
        },
    decreases p.measure(), 2int, 0int,
{
    let n = p.events.len() as int;
    lemma_bump(p);
    assert(p.events.take(n) =~= p.events);
    if !(p.tok.tok is RBrace) && !(p.tok.tok is Eof) && !(first && p.tok.tok is Comma) {
        let sep = if first { Ok(p) } else { object_separator(o, p) };
        if !first && p.tok.tok is Comma {
            lemma_bump(p.bump());
        }
        match sep {
            Err(p1) => {},
            Ok(p1) => {
                assert(p1.events == p.events);
                assert(p1.valid());
                assert(p1.measure() <= p.measure());
                lemma_member_key_events(o, p1, seen, p.measure());
            },
        }
    }
}

#[verifier::spinoff_prover]
#[verifier::rlimit(40)]
proof fn lemma_member_key_events(o: ParseOptions, p1: PModel, seen: Seq<Span>, bound: int)
    requires
        p1.valid(),
        p1.measure() <= bound,
    ensures
        match spec_member_key(o, p1, seen, bound) {
            ObjStep::Break(p5) => extends(p1, p5) && members_ok(p5.events, p1.events.len() as int, p5.events.len() as int),
            ObjStep::Continue(p5, _, _) => extends(p1, p5) && members_ok(
                p5.events,
                p1.events.len() as int,
                p5.events.len() as int,
            ),
        },
    decreases bound, 1int, 2int,
{
    let n = p1.events.len() as int;
    lemma_bump(p1);
    lemma_key_events(o, p1, seen);
    match spec_key(o, p1, seen) {
        Some((p3, seen2)) => {
            assert(p3.measure() < bound);
            let p4 = if p3.tok.tok is Colon {
                p3.bump()
            } else {
                p3.error("E024"@, "expected ':' after object key, found "@ + crate::parse_spec::tok_name(p3.tok.tok),
                    p3.tok.span, None)
            };
            lemma_bump(p3);
            assert(spec_member_value(o, p3, seen2, bound) == ObjStep::Continue(spec_value(o, p4), false, seen2));
            lemma_value_events(o, p4);
            let q = spec_value(o, p4);
            assert(p4.events == p3.events);
            assert(q.events.take(p4.events.len() as int)[n] == q.events[n]);
            assert(q.events.take(n + 1) =~= q.events.take(p4.events.len() as int));
            assert(members_ok(q.events, q.events.len() as int, q.events.len() as int));
            assert(q.events.take(n) =~= q.events.take(n + 1).take(n));
            assert(p1.events =~= p4.events.take(n));
        },
        None => {
            let p5 = p1.error("E023"@, "expected object key, found "@ + crate::parse_spec::tok_name(p1.tok.tok),
                p1.tok.span, None);
            lemma_resync_member_events(p5);
            assert(p1.events.take(n) =~= p1.events);
        },
    }
}

/// A key token adds one key event and consumes the token.
proof fn lemma_key_events(o: ParseOptions, p1: PModel, seen: Seq<Span>)
    requires
        p1.valid(),
    ensures
        match spec_key(o, p1, seen) {
            Some((p3, _)) => {
                &&& p3.valid()
                &&& p3.measure() < p1.measure()
                &&& p3.events.len() == p1.events.len() + 1
                &&& p3.events.take(p1.events.len() as int) == p1.events
                &&& (p3.events[p1.events.len() as int] is Key || p3.events[p1.events.len() as int] is KeyNumber)
            },
            None => true,
        },
{
    let n = p1.events.len() as int;
    match spec_key(o, p1, seen) {
        Some((p3, _)) => {
            let p2 = spec_check_duplicate(o, p1, p1.tok.span, seen).0;
            assert(p2.lex == p1.lex && p2.tok == p1.tok && p2.events == p1.events);
            let pe = if p1.tok.tok is Str {
                p2.emit(EventModel::Key(p1.tok.tok->Str_0))
            } else if p1.tok.tok is Ident {
                p1.error("E022"@, "object keys must be quoted: '"@ + p1.tok.tok->Ident_0 + "'"@, p1.tok.span,
                    Some("write \""@ + p1.tok.tok->Ident_0 + "\" — unquoted keys are valid in JSON5 only"@)).emit(
                    EventModel::Key(p1.tok.tok->Ident_0))
            } else {
                p1.error("E022"@, "object keys must be quoted strings"@, p1.tok.span,
                    Some("numbers cannot be keys in JSON"@)).emit(EventModel::KeyNumber(p1.tok.tok->Num_0))
            };
            assert(p3 == pe.bump());
            assert(pe.lex == p1.lex && pe.tok == p1.tok);
            lemma_bump(pe);
            assert(p3.events.take(n) =~= p1.events);
        },
        None => {},
    }
}

proof fn lemma_array_loop_events(o: ParseOptions, p: PModel, first: bool)
    ensures
        extends(p, spec_array_loop(o, p, first)),
        elements_ok(spec_array_loop(o, p, first).events, p.events.len() as int, spec_array_loop(o, p, first).events.len() as int),
    decreases p.measure(), 3int, if first { 1int } else { 0int },
{
    let n = p.events.len() as int;
    let f = spec_array_loop(o, p, first);
    if !p.valid() || p.measure() < 0 {
        assert(p.events.take(n) =~= p.events);
    } else {
        lemma_array_element_events(o, p, first);
        match spec_array_element(o, p, first) {
            ArrStep::Break(p1) => {},
            ArrStep::Continue(p1) => {
                if 0 <= p1.measure() < p.measure() || (first && p1.measure() == p.measure()) {
                    lemma_array_loop_events(o, p1, false);
                    let m = p1.events.len() as int;
                    lemma_elements_ok_extend(p1.events, f.events, n, m);
                    lemma_elements_ok_concat(f.events, n, m, f.events.len() as int);
                    assert(f.events.take(n) =~= f.events.take(m).take(n));
                }
            },
        }
    }
}

proof fn lemma_array_element_events(o: ParseOptions, p: PModel, first: bool)
    requires
        p.valid(),
    ensures
        match spec_array_element(o, p, first) {
            ArrStep::Break(p1) => extends(p, p1) && elements_ok(p1.events, p.events.len() as int, p1.events.len() as int),
            ArrStep::Continue(p1) => extends(p, p1) && elements_ok(p1.events, p.events.len() as int, p1.events.len() as int),
        },
    decreases p.measure(), 2int, 0int,
{
    let n = p.events.len() as int;
    lemma_bump(p);
    assert(p.events.take(n) =~= p.events);
    if !first && p.tok.tok is Comma {
        lemma_bump(p.bump());
    }
    match spec_array_element(o, p, first) {
        ArrStep::Break(p1) => {},
        ArrStep::Continue(q) => {
            let p1 = if first || !(p.tok.tok is Comma) {
                if first { p } else {
                    p.error("E009"@, "expected ',' or ']' between array elements, found "@ + crate::parse_spec::tok_name(p.tok.tok),
                        p.tok.span, Some(crate::parse_spec::missing_comma_hint()))
                }
            } else {
                p.bump()
            };
            assert(q == spec_value(o, p1));
            lemma_value_events(o, p1);
            assert(elements_ok(q.events, q.events.len() as int, q.events.len() as int));
            assert(p1.events =~= q.events.take(n));
        },
    }
}

/// However broken the input, the events of a run describe exactly one value:
/// a literal, or an array or object whose elements and members (a key and a
/// value each) are again whole values.
pub proof fn law_events_form_one_value(src: Seq<u8>, o: ParseOptions, keep: bool)
    requires
        src.len() <= isize::MAX,
    ensures
        value_end(spec_events(src, o, keep), 0) == Some(spec_events(src, o, keep).len() as int),
{
    let p0 = initial_parser(src, o, keep);
    assert(p0.valid());
    lemma_bump(p0);
    lemma_value_events(o, p0.bump());
}

} // verus!
