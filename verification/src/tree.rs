//! Value trees. A tree sink receives the calls that describe a document
//! (one per event) and builds the document's value: a stack of open
//! containers, each closed into its parent, the last one into the root.
//! The tree is generic over what stands for a number.
use vstd::prelude::*;

verus! {

/// A JSON value whose numbers are `N`.
#[derive(Debug, PartialEq)]
pub enum Value<N> {
    Null,
    Bool(bool),
    Number(N),
    String(String),
    Array(Vec<Value<N>>),
    /// Insertion-ordered; duplicate policy applied by the parser.
    Object(Vec<(String, Value<N>)>),
}

/// A copy of `v`, element by element; numbers are copied by their own clone.
fn clone_value<N: Clone>(v: &Value<N>) -> (r: Value<N>)
    decreases v,
{
    match v {
        Value::Null => Value::Null,
        Value::Bool(b) => Value::Bool(*b),
        Value::Number(n) => Value::Number(n.clone()),
        Value::String(s) => Value::String(s.clone()),
        Value::Array(items) => {
            let mut out: Vec<Value<N>> = Vec::new();
            let mut i: usize = 0;
            assert(decreases_to!(*v => *items));
            while i < items.len()
                invariant
                    i <= items@.len(),
                    decreases_to!(*v => *items),
                decreases items@.len() - i,
            {
                proof {
                    assert(decreases_to!(*items => items[i as int]));
                }
                out.push(clone_value(&items[i]));
                i += 1;
            }
            Value::Array(out)
        },
        Value::Object(pairs) => {
            let mut out: Vec<(String, Value<N>)> = Vec::new();
            let mut i: usize = 0;
            assert(decreases_to!(*v => *pairs));
            while i < pairs.len()
                invariant
                    i <= pairs@.len(),
                    decreases_to!(*v => *pairs),
                decreases pairs@.len() - i,
            {
                proof {
                    assert(decreases_to!(*pairs => pairs[i as int]));
                    assert(decreases_to!(pairs[i as int] => pairs[i as int].1));
                }
                out.push((pairs[i].0.clone(), clone_value(&pairs[i].1)));
                i += 1;
            }
            Value::Object(out)
        },
    }
}

impl<N: Clone> Clone for Value<N> {
    fn clone(&self) -> (r: Self) {
        clone_value(self)
    }
}

/// A value as mathematics sees it: strings are character sequences.
pub enum ValueModel<N> {
    Null,
    Bool(bool),
    Number(N),
    Str(Seq<char>),
    Array(Seq<ValueModel<N>>),
    Object(Seq<(Seq<char>, ValueModel<N>)>),
}

pub open spec fn value_model<N>(v: Value<N>) -> ValueModel<N>
    decreases v, 1int,
{
    match v {
        Value::Null => ValueModel::Null,
        Value::Bool(b) => ValueModel::Bool(b),
        Value::Number(n) => ValueModel::Number(n),
        Value::String(s) => ValueModel::Str(s@),
        Value::Array(items) => ValueModel::Array(items_model(items@)),
        Value::Object(pairs) => ValueModel::Object(pairs_model(pairs@)),
    }
}

/// The models of array elements, in order.
pub open spec fn items_model<N>(s: Seq<Value<N>>) -> Seq<ValueModel<N>>
    decreases s, 0int,
{
    if s.len() == 0 {
        Seq::empty()
    } else {
        items_model(s.subrange(0, s.len() - 1)).push(value_model(s[s.len() - 1]))
    }
}

/// The models of object members, in order.
pub open spec fn pairs_model<N>(s: Seq<(String, Value<N>)>) -> Seq<(Seq<char>, ValueModel<N>)>
    decreases s, 0int,
{
    if s.len() == 0 {
        Seq::empty()
    } else {
        pairs_model(s.subrange(0, s.len() - 1)).push((s[s.len() - 1].0@, value_model(s[s.len() - 1].1)))
    }
}

pub open spec fn opt_value_model<N>(v: Option<Value<N>>) -> Option<ValueModel<N>> {
    match v {
        Some(x) => Some(value_model(x)),
        None => None,
    }
}

/// An open container: an array's elements so far, or an object's members so
/// far with the key that waits for its value.
enum Frame<N> {
    Array(Vec<Value<N>>),
    Object(Vec<(String, Value<N>)>, Option<String>),
}

pub enum FrameModel<N> {
    Array(Seq<ValueModel<N>>),
    Object(Seq<(Seq<char>, ValueModel<N>)>, Option<Seq<char>>),
}

spec fn frame_model<N>(f: Frame<N>) -> FrameModel<N> {
    match f {
        Frame::Array(items) => FrameModel::Array(items_model(items@)),
        Frame::Object(pairs, pending) => FrameModel::Object(
            pairs_model(pairs@),
            match pending {
                Some(k) => Some(k@),
                None => None,
            },
        ),
    }
}

/// What a tree sink holds: its open containers, innermost last, and the
/// root once a top-level value is complete.
pub struct SinkState<N> {
    pub stack: Seq<FrameModel<N>>,
    pub root: Option<ValueModel<N>>,
}

/// One call on a sink, as the parser makes them.
pub enum SinkCall<N> {
    Null,
    Bool(bool),
    Number(N),
    Str(Seq<char>),
    BeginObject,
    Key(Seq<char>),
    EndObject,
    BeginArray,
    EndArray,
}

/// A complete value goes into the innermost open container (an object's
/// member takes the waiting key, the empty string when none waits), or
/// becomes the root when no container is open.
pub open spec fn push_model<N>(s: SinkState<N>, v: ValueModel<N>) -> SinkState<N> {
    if s.stack.len() == 0 {
        SinkState { stack: s.stack, root: Some(v) }
    } else {
        let last = s.stack.len() - 1;
        match s.stack[last] {
            FrameModel::Array(items) => SinkState {
                stack: s.stack.update(last, FrameModel::Array(items.push(v))),
                root: s.root,
            },
            FrameModel::Object(pairs, pending) => {
                let k = match pending {
                    Some(k) => k,
                    None => Seq::empty(),
                };
                SinkState { stack: s.stack.update(last, FrameModel::Object(pairs.push((k, v)), None)), root: s.root }
            },
        }
    }
}

/// The state after one call. A close pops the innermost container whatever
/// it is, and completes it only when it is of the closing kind; a key waits
/// only in an open object.
pub open spec fn step<N>(s: SinkState<N>, c: SinkCall<N>) -> SinkState<N> {
    match c {
        SinkCall::Null => push_model(s, ValueModel::Null),
        SinkCall::Bool(b) => push_model(s, ValueModel::Bool(b)),
        SinkCall::Number(n) => push_model(s, ValueModel::Number(n)),
        SinkCall::Str(t) => push_model(s, ValueModel::Str(t)),
        SinkCall::BeginArray => SinkState { stack: s.stack.push(FrameModel::Array(Seq::empty())), root: s.root },
        SinkCall::BeginObject => SinkState {
            stack: s.stack.push(FrameModel::Object(Seq::empty(), None)),
            root: s.root,
        },
        SinkCall::EndArray => if s.stack.len() == 0 {
            s
        } else {
            let popped = SinkState { stack: s.stack.drop_last(), root: s.root };
            match s.stack.last() {
                FrameModel::Array(items) => push_model(popped, ValueModel::Array(items)),
                FrameModel::Object(..) => popped,
            }
        },
        SinkCall::EndObject => if s.stack.len() == 0 {
            s
        } else {
            let popped = SinkState { stack: s.stack.drop_last(), root: s.root };
            match s.stack.last() {
                FrameModel::Object(pairs, _) => push_model(popped, ValueModel::Object(pairs)),
                FrameModel::Array(..) => popped,
            }
        },
        SinkCall::Key(k) => if s.stack.len() > 0 && s.stack.last() is Object {
            let last = s.stack.len() - 1;
            SinkState { stack: s.stack.update(last, FrameModel::Object(s.stack.last()->Object_0, Some(k))), root: s.root }
        } else {
            s
        },
    }
}

/// The sink that validates only: it asks for no string contents.
pub struct NullSink;

impl NullSink {
    pub fn wants_strings(&self) -> (b: bool)
        ensures
            !b,
    {
        false
    }
}

/// Builds a Value tree (DOM mode).
pub struct TreeSink<N> {
    stack: Vec<Frame<N>>,
    pub root: Option<Value<N>>,
}

impl<N> TreeSink<N> {
    /// The open containers, innermost last.
    spec fn frames(&self) -> Seq<FrameModel<N>> {
        Seq::new(self.stack@.len(), |i: int| frame_model(self.stack@[i]))
    }

    /// The containers this sink holds open, and its root.
    pub closed spec fn state(&self) -> SinkState<N> {
        SinkState { stack: self.frames(), root: opt_value_model(self.root) }
    }

    /// The finished tree: the root, when a top-level value is complete.
    pub fn into_root(self) -> (r: Option<Value<N>>)
        ensures
            opt_value_model(r) == self.state().root,
    {
        self.root
    }

    pub fn new() -> (t: Self)
        ensures
            t.state() == (SinkState::<N> { stack: Seq::empty(), root: None }),
    {
        let t = TreeSink { stack: Vec::new(), root: None };
        assert(t.frames() =~= Seq::<FrameModel<N>>::empty());
        t
    }

    /// A tree sink wants string contents.
    pub fn wants_strings(&self) -> (b: bool)
        ensures
            b,
    {
        true
    }

    fn push(&mut self, v: Value<N>)
        ensures
            final(self).state() == push_model(old(self).state(), value_model(v)),
    {
        let ghost s0 = self.state();
        let n = self.stack.len();
        if n == 0 {
            self.root = Some(v);
            assert(self.frames() =~= s0.stack);
        } else {
            let ghost before = self.stack@;
            let top = self.stack.pop();
            match top {
                Some(Frame::Array(mut items)) => {
                    let ghost old_items = items@;
                    items.push(v);
                    proof {
                        assert(items@.subrange(0, items@.len() - 1) =~= old_items);
                    }
                    self.stack.push(Frame::Array(items));
                },
                Some(Frame::Object(mut pairs, pending)) => {
                    let ghost old_pairs = pairs@;
                    let k = match pending {
                        Some(k) => k,
                        None => String::new(),
                    };
                    pairs.push((k, v));
                    proof {
                        assert(pairs@.subrange(0, pairs@.len() - 1) =~= old_pairs);
                    }
                    self.stack.push(Frame::Object(pairs, None));
                },
                None => {},
            }
            proof {
                assert(self.stack@.len() == before.len());
                assert forall|i: int| 0 <= i < n - 1 implies self.stack@[i] == before[i] by {}
                assert(self.frames() =~= push_model(s0, value_model(v)).stack);
            }
        }
    }

    pub fn null(&mut self)
        ensures
            final(self).state() == step(old(self).state(), SinkCall::Null),
    {
        self.push(Value::Null);
    }

    pub fn boolean(&mut self, b: bool)
        ensures
            final(self).state() == step(old(self).state(), SinkCall::Bool(b)),
    {
        self.push(Value::Bool(b));
    }

    pub fn number(&mut self, n: N)
        ensures
            final(self).state() == step(old(self).state(), SinkCall::Number(n)),
    {
        self.push(Value::Number(n));
    }

    pub fn string(&mut self, s: &str)
        ensures
            final(self).state() == step(old(self).state(), SinkCall::Str(s@)),
    {
        self.push(Value::String(s.to_owned()));
    }

    pub fn begin_array(&mut self)
        ensures
            final(self).state() == step(old(self).state(), SinkCall::BeginArray),
    {
        let ghost s0 = self.state();
        self.stack.push(Frame::Array(Vec::new()));
        proof {
            assert(items_model(Seq::<Value<N>>::empty()) =~= Seq::<ValueModel<N>>::empty());
            assert(self.frames() =~= s0.stack.push(FrameModel::Array(Seq::empty())));
        }
    }

    pub fn begin_object(&mut self)
        ensures
            final(self).state() == step(old(self).state(), SinkCall::BeginObject),
    {
        let ghost s0 = self.state();
        self.stack.push(Frame::Object(Vec::new(), None));
        proof {
            assert(pairs_model(Seq::<(String, Value<N>)>::empty()) =~= Seq::<(Seq<char>, ValueModel<N>)>::empty());
            assert(self.frames() =~= s0.stack.push(FrameModel::Object(Seq::empty(), None)));
        }
    }

    pub fn end_array(&mut self)
        ensures
            final(self).state() == step(old(self).state(), SinkCall::EndArray),
    {
        let ghost s0 = self.state();
        let top = self.stack.pop();
        proof {
            if s0.stack.len() > 0 {
                assert(self.frames() =~= s0.stack.drop_last());
            } else {
                assert(self.frames() =~= s0.stack);
            }
        }
        if let Some(Frame::Array(items)) = top {
            self.push(Value::Array(items));
        }
    }

    pub fn end_object(&mut self)
        ensures
            final(self).state() == step(old(self).state(), SinkCall::EndObject),
    {
        let ghost s0 = self.state();
        let top = self.stack.pop();
        proof {
            if s0.stack.len() > 0 {
                assert(self.frames() =~= s0.stack.drop_last());
            } else {
                assert(self.frames() =~= s0.stack);
            }
        }
        if let Some(Frame::Object(pairs, _)) = top {
            self.push(Value::Object(pairs));
        }
    }

    pub fn key(&mut self, k: &str)
        ensures
            final(self).state() == step(old(self).state(), SinkCall::Key(k@)),
    {
        let ghost s0 = self.state();
        let n = self.stack.len();
        if n > 0 {
            let top = self.stack.pop();
            match top {
                Some(Frame::Object(pairs, _)) => {
                    self.stack.push(Frame::Object(pairs, Some(k.to_owned())));
                },
                Some(f) => {
                    self.stack.push(f);
                },
                None => {},
            }
            proof {
                assert(self.frames() =~= step(s0, SinkCall::Key(k@)).stack);
            }
        }
    }
}

} // verus!
