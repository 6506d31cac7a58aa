//! The depth limit holds of what a parse produces: however deep the input
//! nests, the events never have more than `max_depth` containers open at
//! once, and every container they open they close.
use vstd::prelude::*;
use crate::diag::Span;
use crate::lex_spec::TokModel;
use crate::parse_spec::{
    initial_parser, lemma_bump, object_separator, spec_array_element, spec_array_loop, spec_check_duplicate,
    spec_events, spec_key, spec_member_key, spec_member_value, spec_object_loop, spec_object_member,
    spec_parse_state, spec_resync, spec_resync_member, spec_scalar, spec_value, ArrStep, EventModel, ObjStep,
    PModel, ParseOptions,
};

verus! {

/// How an event changes the number of open containers.
pub open spec fn nesting_step(e: EventModel) -> int {
    match e {
        EventModel::BeginObject => 1,
        EventModel::BeginArray => 1,
        EventModel::EndObject => -1,
        EventModel::EndArray => -1,
        _ => 0,
    }
}

/// The containers that the events leave open.
pub open spec fn open_count(ev: Seq<EventModel>) -> int
    decreases ev.len(),
{
    if ev.len() == 0 {
        0
    } else {
        open_count(ev.drop_last()) + nesting_step(ev.last())
    }
}

/// The most containers open at once, over every prefix of the events.
pub open spec fn peak(ev: Seq<EventModel>) -> int
    decreases ev.len(),
{
    if ev.len() == 0 {
        0
    } else {
        let a = peak(ev.drop_last());
        let b = open_count(ev);
        if a < b { b } else { a }
    }
}

/// The parser's depth counts the containers its events leave open, and
/// never more than `m` were open at once.
pub open spec fn within(p: PModel, m: int) -> bool {
    &&& open_count(p.events) == p.depth
    &&& 0 <= p.depth <= m
    &&& peak(p.events) <= m
}

proof fn lemma_push(ev: Seq<EventModel>, e: EventModel)
    ensures
        open_count(ev.push(e)) == open_count(ev) + nesting_step(e),
        peak(ev.push(e)) == if peak(ev) < open_count(ev) + nesting_step(e) {
            open_count(ev) + nesting_step(e)
        } else {
            peak(ev)
        },
        open_count(ev) <= peak(ev),
{
    assert(ev.push(e).drop_last() =~= ev);
    if ev.len() > 0 {
        assert(open_count(ev) <= peak(ev));
    }
}

/// Bumps, reports and resyncs leave the events and the depth alone.
pub(crate) proof fn lemma_resync_keeps(p: PModel, d: int)
    ensures
        spec_resync(p, d).events == p.events,
        spec_resync(p, d).depth == p.depth,
    decreases p.measure(),
{
    if p.valid() && p.measure() >= 0 {
        lemma_bump(p);
        match p.tok.tok {
            TokModel::Eof => {},
            TokModel::LBrace => lemma_resync_keeps(p.bump(), d + 1),
            TokModel::LBracket => lemma_resync_keeps(p.bump(), d + 1),
            TokModel::RBrace => if d != 0 { lemma_resync_keeps(p.bump(), d - 1) },
            TokModel::RBracket => if d != 0 { lemma_resync_keeps(p.bump(), d - 1) },
            TokModel::Comma => if d != 0 { lemma_resync_keeps(p.bump(), d) },
            _ => lemma_resync_keeps(p.bump(), d),
        }
    }
}

pub(crate) proof fn lemma_resync_member_keeps(p: PModel)
    ensures
        spec_resync_member(p).events == p.events,
        spec_resync_member(p).depth == p.depth,
    decreases p.measure(),
{
    if p.valid() && p.measure() >= 0 {
        lemma_bump(p);
        match p.tok.tok {
            TokModel::Eof => {},
            TokModel::RBrace => {},
            TokModel::Comma => {},
            _ => lemma_resync_member_keeps(p.bump()),
        }
    }
}

proof fn lemma_value_within(o: ParseOptions, p: PModel)
    requires
        within(p, o.max_depth as int),
    ensures
        within(spec_value(o, p), o.max_depth as int),
        spec_value(o, p).depth == p.depth,
    decreases p.measure(), 1int, 0int,
{
    let m = o.max_depth as int;
    let q = spec_value(o, p);
    if p.valid() && p.measure() >= 0 {
        lemma_bump(p);
        if p.depth >= o.max_depth {
            let p1 = p.error("E040"@, "maximum nesting depth exceeded"@, p.tok.span, None);
            lemma_resync_keeps(p1, 0);
            lemma_push(p.events, EventModel::Null);
        } else if p.tok.tok is LBrace {
            let q0 = p.emit(EventModel::BeginObject).with_depth(p.depth + 1);
            lemma_push(p.events, EventModel::BeginObject);
            lemma_bump(q0);
            let p1 = q0.bump();
            lemma_object_loop_within(o, p1, true, Seq::empty());
            let f = spec_object_loop(o, p1, true, Seq::empty());
            lemma_push(f.events, EventModel::EndObject);
        } else if p.tok.tok is LBracket {
            let q0 = p.emit(EventModel::BeginArray).with_depth(p.depth + 1);
            lemma_push(p.events, EventModel::BeginArray);
            lemma_bump(q0);
            let p1 = q0.bump();
            lemma_array_loop_within(o, p1, true);
            let f = spec_array_loop(o, p1, true);
            lemma_push(f.events, EventModel::EndArray);
        } else {
            assert(q == spec_scalar(p));
            lemma_scalar_within(p);
        }
    }
}

proof fn lemma_scalar_within(p: PModel)
    ensures
        spec_scalar(p).events.len() == p.events.len() + 1,
        open_count(spec_scalar(p).events) == open_count(p.events),
        peak(spec_scalar(p).events) == peak(p.events),
        spec_scalar(p).depth == p.depth,
{
    let q = spec_scalar(p);
    let e = q.events.last();
    assert(q.events =~= p.events.push(e));
    lemma_push(p.events, e);
}

proof fn lemma_object_loop_within(o: ParseOptions, p: PModel, first: bool, seen: Seq<Span>)
    requires
        within(p, o.max_depth as int),
    ensures
        within(spec_object_loop(o, p, first, seen), o.max_depth as int),
        spec_object_loop(o, p, first, seen).depth == p.depth,
    decreases p.measure(), 3int, 0int,
{
    if p.valid() && p.measure() >= 0 {
        lemma_object_member_within(o, p, first, seen);
        match spec_object_member(o, p, first, seen) {
            ObjStep::Break(p1) => {},
            ObjStep::Continue(p1, f1, s1) => {
                if 0 <= p1.measure() < p.measure() {
                    lemma_object_loop_within(o, p1, f1, s1);
                }
            },
        }
    }
}

pub open spec fn ostate(s: ObjStep) -> PModel {
    match s {
        ObjStep::Break(p) => p,
        ObjStep::Continue(p, _, _) => p,
    }
}

proof fn lemma_object_member_within(o: ParseOptions, p: PModel, first: bool, seen: Seq<Span>)
    requires
        within(p, o.max_depth as int),
        p.valid(),
    ensures
        within(ostate(spec_object_member(o, p, first, seen)), o.max_depth as int),
        ostate(spec_object_member(o, p, first, seen)).depth == p.depth,
    decreases p.measure(), 2int, 0int,
{
    lemma_bump(p);
    if !(p.tok.tok is RBrace) && !(p.tok.tok is Eof) && !(first && p.tok.tok is Comma) {
        let sep = if first { Ok(p) } else { object_separator(o, p) };
        if !first && p.tok.tok is Comma {
            lemma_bump(p.bump());
        }
        match sep {
            Err(p1) => {},
            Ok(p1) => {
                assert(p1.events == p.events && p1.depth == p.depth);
                lemma_member_key_within(o, p1, seen, p.measure());
            },
        }
    }
}

proof fn lemma_member_key_within(o: ParseOptions, p1: PModel, seen: Seq<Span>, bound: int)
    requires
        within(p1, o.max_depth as int),
    ensures
        within(ostate(spec_member_key(o, p1, seen, bound)), o.max_depth as int),
        ostate(spec_member_key(o, p1, seen, bound)).depth == p1.depth,
    decreases bound, 1int, 2int,
{
    match spec_key(o, p1, seen) {
        Some((p3, seen2)) => {
            let p2 = spec_check_duplicate(o, p1, p1.tok.span, seen).0;
            assert(p2.events == p1.events && p2.depth == p1.depth);
            let e = p3.events.last();
            assert(p3.events =~= p1.events.push(e));
            lemma_push(p1.events, e);
            if p3.measure() < bound && p3.valid() {
                let p4 = if p3.tok.tok is Colon {
                    p3.bump()
                } else {
                    p3.error("E024"@, "expected ':' after object key, found "@ + crate::parse_spec::tok_name(
                        p3.tok.tok), p3.tok.span, None)
                };
                lemma_bump(p3);
                assert(spec_member_value(o, p3, seen2, bound) == ObjStep::Continue(spec_value(o, p4), false, seen2));
                lemma_value_within(o, p4);
            }
        },
        None => {
            let p5 = p1.error("E023"@, "expected object key, found "@ + crate::parse_spec::tok_name(p1.tok.tok),
                p1.tok.span, None);
            lemma_resync_member_keeps(p5);
        },
    }
}

proof fn lemma_array_loop_within(o: ParseOptions, p: PModel, first: bool)
    requires
        within(p, o.max_depth as int),
    ensures
        within(spec_array_loop(o, p, first), o.max_depth as int),
        spec_array_loop(o, p, first).depth == p.depth,
    decreases p.measure(), 3int, if first { 1int } else { 0int },
{
    if p.valid() && p.measure() >= 0 {
        lemma_array_element_within(o, p, first);
        match spec_array_element(o, p, first) {
            ArrStep::Break(p1) => {},
            ArrStep::Continue(p1) => {
                if 0 <= p1.measure() < p.measure() || (first && p1.measure() == p.measure()) {
                    lemma_array_loop_within(o, p1, false);
                }
            },
        }
    }
}

pub open spec fn astate(s: ArrStep) -> PModel {
    match s {
        ArrStep::Break(p) => p,
        ArrStep::Continue(p) => p,
    }
}

proof fn lemma_array_element_within(o: ParseOptions, p: PModel, first: bool)
    requires
        within(p, o.max_depth as int),
        p.valid(),
    ensures
        within(astate(spec_array_element(o, p, first)), o.max_depth as int),
        astate(spec_array_element(o, p, first)).depth == p.depth,
    decreases p.measure(), 2int, 0int,
{
    lemma_bump(p);
    if !first && p.tok.tok is Comma {
        lemma_bump(p.bump());
    }
    match spec_array_element(o, p, first) {
        ArrStep::Break(p1) => {},
        ArrStep::Continue(q) => {
            let p1 = if first || !(p.tok.tok is Comma) {
                if first {
                    p
                } else {
                    p.error("E009"@, "expected ',' or ']' between array elements, found "@ + crate::parse_spec::tok_name(
                        p.tok.tok), p.tok.span, Some(crate::parse_spec::missing_comma_hint()))
                }
            } else {
                p.bump()
            };
            assert(q == spec_value(o, p1));
            lemma_value_within(o, p1);
        },
    }
}

/// However deep the input nests, a parse never has more than `max_depth`
/// containers open at once, and it closes every container it opens.
pub proof fn law_events_nest_within_limit(src: Seq<u8>, o: ParseOptions, keep: bool)
    requires
        src.len() <= isize::MAX,
    ensures
        peak(spec_events(src, o, keep)) <= o.max_depth,
        open_count(spec_events(src, o, keep)) == 0,
{
    let p0 = initial_parser(src, o, keep);
    assert(p0.events =~= Seq::<EventModel>::empty());
    lemma_bump(p0);
    lemma_value_within(o, p0.bump());
}

} // verus!
