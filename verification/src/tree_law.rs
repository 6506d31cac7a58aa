//! What a tree sink builds: replaying the calls that describe one value
//! leaves that value as the root; and the events of every parse describe
//! one, so a parse always yields a tree, however broken its input.
use vstd::prelude::*;
use crate::diag::Span;
use crate::events_law::{elements_end, law_events_form_one_value, members_end, value_end};
use crate::parse_spec::{spec_events, EventModel, ParseOptions};
use crate::tree::{push_model, step, FrameModel, SinkCall, SinkState, ValueModel};

verus! {

/// The value whose calls start at `i`, and the index just past them.
pub open spec fn tree_at<N>(c: Seq<SinkCall<N>>, i: int) -> Option<(ValueModel<N>, int)>
    decreases c.len() - i, 0int,
{
    if i < 0 || i >= c.len() {
        None
    } else {
        match c[i] {
            SinkCall::Null => Some((ValueModel::Null, i + 1)),
            SinkCall::Bool(b) => Some((ValueModel::Bool(b), i + 1)),
            SinkCall::Number(n) => Some((ValueModel::Number(n), i + 1)),
            SinkCall::Str(t) => Some((ValueModel::Str(t), i + 1)),
            SinkCall::BeginArray => elements_at(c, i + 1, Seq::empty()),
            SinkCall::BeginObject => members_at(c, i + 1, Seq::empty()),
            _ => None,
        }
    }
}

/// The array whose first elements are `acc` and whose remaining elements
/// start at `i`, and the index just past its `EndArray`.
pub open spec fn elements_at<N>(c: Seq<SinkCall<N>>, i: int, acc: Seq<ValueModel<N>>) -> Option<
    (ValueModel<N>, int),
>
    decreases c.len() - i, 1int,
{
    if i < 0 || i >= c.len() {
        None
    } else if c[i] is EndArray {
        Some((ValueModel::Array(acc), i + 1))
    } else {
        match tree_at(c, i) {
            Some((v, j)) => if i < j <= c.len() {
                elements_at(c, j, acc.push(v))
            } else {
                None
            },
            None => None,
        }
    }
}

/// The object whose first members are `acc` and whose remaining members (a
/// key and a value each) start at `i`, and the index just past its
/// `EndObject`.
pub open spec fn members_at<N>(
    c: Seq<SinkCall<N>>,
    i: int,
    acc: Seq<(Seq<char>, ValueModel<N>)>,
) -> Option<(ValueModel<N>, int)>
    decreases c.len() - i, 1int,
{
    if i < 0 || i >= c.len() {
        None
    } else if c[i] is EndObject {
        Some((ValueModel::Object(acc), i + 1))
    } else if c[i] is Key {
        match tree_at(c, i + 1) {
            Some((v, j)) => if i < j <= c.len() {
                members_at(c, j, acc.push((c[i]->Key_0, v)))
            } else {
                None
            },
            None => None,
        }
    } else {
        None
    }
}

/// The state after the calls from `i` up to `j`, made in order.
pub open spec fn replay<N>(s: SinkState<N>, c: Seq<SinkCall<N>>, i: int, j: int) -> SinkState<N>
    decreases j - i,
{
    if i >= j {
        s
    } else {
        replay(step(s, c[i]), c, i + 1, j)
    }
}

pub open spec fn fresh<N>() -> SinkState<N> {
    SinkState { stack: Seq::empty(), root: None }
}

/// `s` with one more open container.
pub open spec fn opened<N>(s: SinkState<N>, f: FrameModel<N>) -> SinkState<N> {
    SinkState { stack: s.stack.push(f), root: s.root }
}

proof fn lemma_replay_split<N>(s: SinkState<N>, c: Seq<SinkCall<N>>, i: int, j: int, k: int)
    requires
        i <= j <= k,
    ensures
        replay(s, c, i, k) == replay(replay(s, c, i, j), c, j, k),
    decreases j - i,
{
    if i < j {
        lemma_replay_split(step(s, c[i]), c, i + 1, j, k);
    }
}

proof fn lemma_tree<N>(s: SinkState<N>, c: Seq<SinkCall<N>>, i: int)
    requires
        tree_at(c, i) is Some,
    ensures
        i < tree_at(c, i).unwrap().1 <= c.len(),
        replay(s, c, i, tree_at(c, i).unwrap().1) == push_model(s, tree_at(c, i).unwrap().0),
    decreases c.len() - i, 0int,
{
    let j = tree_at(c, i).unwrap().1;
    match c[i] {
        SinkCall::BeginArray => {
            lemma_elements(s, c, i + 1, Seq::empty());
            assert(step(s, c[i]) == opened(s, FrameModel::Array(Seq::empty())));
        },
        SinkCall::BeginObject => {
            lemma_members(s, c, i + 1, Seq::empty());
            assert(step(s, c[i]) == opened(s, FrameModel::Object(Seq::empty(), None)));
        },
        _ => {
            assert(replay(step(s, c[i]), c, i + 1, i + 1) == step(s, c[i]));
        },
    }
}

proof fn lemma_elements<N>(s: SinkState<N>, c: Seq<SinkCall<N>>, i: int, acc: Seq<ValueModel<N>>)
    requires
        elements_at(c, i, acc) is Some,
    ensures
        i < elements_at(c, i, acc).unwrap().1 <= c.len(),
        replay(opened(s, FrameModel::Array(acc)), c, i, elements_at(c, i, acc).unwrap().1) == push_model(
            s,
            elements_at(c, i, acc).unwrap().0,
        ),
    decreases c.len() - i, 1int,
{
    let s1 = opened(s, FrameModel::Array(acc));
    if c[i] is EndArray {
        assert(s1.stack.drop_last() =~= s.stack);
        assert(replay(step(s1, c[i]), c, i + 1, i + 1) == step(s1, c[i]));
    } else {
        let (w, k) = tree_at(c, i).unwrap();
        lemma_tree(s1, c, i);
        lemma_elements(s, c, k, acc.push(w));
        let j = elements_at(c, i, acc).unwrap().1;
        lemma_replay_split(s1, c, i, k, j);
        assert(push_model(s1, w).stack =~= opened(s, FrameModel::Array(acc.push(w))).stack);
    }
}

proof fn lemma_members<N>(
    s: SinkState<N>,
    c: Seq<SinkCall<N>>,
    i: int,
    acc: Seq<(Seq<char>, ValueModel<N>)>,
)
    requires
        members_at(c, i, acc) is Some,
    ensures
        i < members_at(c, i, acc).unwrap().1 <= c.len(),
        replay(opened(s, FrameModel::Object(acc, None)), c, i, members_at(c, i, acc).unwrap().1) == push_model(
            s,
            members_at(c, i, acc).unwrap().0,
        ),
    decreases c.len() - i, 1int,
{
    let s1 = opened(s, FrameModel::Object(acc, None));
    if c[i] is EndObject {
        assert(s1.stack.drop_last() =~= s.stack);
        assert(replay(step(s1, c[i]), c, i + 1, i + 1) == step(s1, c[i]));
    } else {
        let key = c[i]->Key_0;
        let (w, k) = tree_at(c, i + 1).unwrap();
        let s2 = opened(s, FrameModel::Object(acc, Some(key)));
        assert(step(s1, c[i]).stack =~= s2.stack);
        lemma_tree(s2, c, i + 1);
        lemma_members(s, c, k, acc.push((key, w)));
        let j = members_at(c, i, acc).unwrap().1;
        lemma_replay_split(s2, c, i + 1, k, j);
        assert(push_model(s2, w).stack =~= opened(s, FrameModel::Object(acc.push((key, w)), None)).stack);
    }
}

/// Replaying into a fresh tree sink the calls that describe one value
/// leaves no container open and that value as the root.
pub proof fn law_tree_sink_builds_the_value<N>(c: Seq<SinkCall<N>>, v: ValueModel<N>)
    requires
        tree_at(c, 0) == Some((v, c.len() as int)),
    ensures
        replay(fresh(), c, 0, c.len() as int) == (SinkState::<N> { stack: Seq::empty(), root: Some(v) }),
{
    lemma_tree(fresh::<N>(), c, 0);
}

/// The sink call that an event makes: a number with the value `num` reads
/// from its numeral, a number key with the key text `num_key` gives it.
pub open spec fn call_of<N>(
    e: EventModel,
    num: spec_fn(Span) -> N,
    num_key: spec_fn(Span) -> Seq<char>,
) -> SinkCall<N> {
    match e {
        EventModel::Null => SinkCall::Null,
        EventModel::Bool(b) => SinkCall::Bool(b),
        EventModel::Number(s) => SinkCall::Number(num(s)),
        EventModel::Str(t) => SinkCall::Str(t),
        EventModel::BeginObject => SinkCall::BeginObject,
        EventModel::Key(k) => SinkCall::Key(k),
        EventModel::KeyNumber(s) => SinkCall::Key(num_key(s)),
        EventModel::EndObject => SinkCall::EndObject,
        EventModel::BeginArray => SinkCall::BeginArray,
        EventModel::EndArray => SinkCall::EndArray,
    }
}

pub open spec fn calls_of<N>(
    ev: Seq<EventModel>,
    num: spec_fn(Span) -> N,
    num_key: spec_fn(Span) -> Seq<char>,
) -> Seq<SinkCall<N>> {
    Seq::new(ev.len(), |i: int| call_of(ev[i], num, num_key))
}

proof fn lemma_value_calls<N>(
    ev: Seq<EventModel>,
    num: spec_fn(Span) -> N,
    num_key: spec_fn(Span) -> Seq<char>,
    i: int,
)
    requires
        value_end(ev, i) is Some,
    ensures
        tree_at(calls_of(ev, num, num_key), i) is Some,
        tree_at(calls_of(ev, num, num_key), i).unwrap().1 == value_end(ev, i)->0,
    decreases ev.len() - i, 0int,
{
    let c = calls_of(ev, num, num_key);
    assert(c[i] == call_of(ev[i], num, num_key));
    if ev[i] is BeginArray {
        lemma_elements_calls(ev, num, num_key, i + 1, Seq::empty());
    } else if ev[i] is BeginObject {
        lemma_members_calls(ev, num, num_key, i + 1, Seq::empty());
    }
}

proof fn lemma_elements_calls<N>(
    ev: Seq<EventModel>,
    num: spec_fn(Span) -> N,
    num_key: spec_fn(Span) -> Seq<char>,
    i: int,
    acc: Seq<ValueModel<N>>,
)
    requires
        elements_end(ev, i) is Some,
    ensures
        elements_at(calls_of(ev, num, num_key), i, acc) is Some,
        elements_at(calls_of(ev, num, num_key), i, acc).unwrap().1 == elements_end(ev, i)->0,
    decreases ev.len() - i, 1int,
{
    let c = calls_of(ev, num, num_key);
    assert(c[i] == call_of(ev[i], num, num_key));
    if !(ev[i] is EndArray) {
        lemma_value_calls(ev, num, num_key, i);
        let (w, k) = tree_at(c, i).unwrap();
        lemma_elements_calls(ev, num, num_key, k, acc.push(w));
    }
}

proof fn lemma_members_calls<N>(
    ev: Seq<EventModel>,
    num: spec_fn(Span) -> N,
    num_key: spec_fn(Span) -> Seq<char>,
    i: int,
    acc: Seq<(Seq<char>, ValueModel<N>)>,
)
    requires
        members_end(ev, i) is Some,
    ensures
        members_at(calls_of(ev, num, num_key), i, acc) is Some,
        members_at(calls_of(ev, num, num_key), i, acc).unwrap().1 == members_end(ev, i)->0,
    decreases ev.len() - i, 1int,
{
    let c = calls_of(ev, num, num_key);
    assert(c[i] == call_of(ev[i], num, num_key));
    if !(ev[i] is EndObject) {
        lemma_value_calls(ev, num, num_key, i + 1);
        let (w, k) = tree_at(c, i + 1).unwrap();
        lemma_members_calls(ev, num, num_key, k, acc.push((c[i]->Key_0, w)));
    }
}

/// However broken the input, a parse yields a tree: replaying its events
/// into a fresh tree sink, whatever each number and number key is read as,
/// closes every container it opens and sets the root.
pub proof fn law_parse_yields_a_tree<N>(
    src: Seq<u8>,
    o: ParseOptions,
    keep: bool,
    num: spec_fn(Span) -> N,
    num_key: spec_fn(Span) -> Seq<char>,
)
    requires
        src.len() <= isize::MAX,
    ensures
        ({
            let c = calls_of(spec_events(src, o, keep), num, num_key);
            &&& tree_at(c, 0) is Some
            &&& replay(fresh(), c, 0, c.len() as int) == (SinkState::<N> {
                stack: Seq::empty(),
                root: Some(tree_at(c, 0).unwrap().0),
            })
        }),
{
    let ev = spec_events(src, o, keep);
    law_events_form_one_value(src, o, keep);
    lemma_value_calls(ev, num, num_key, 0);
    let c = calls_of(ev, num, num_key);
    law_tree_sink_builds_the_value(c, tree_at(c, 0).unwrap().0);
}

} // verus!
