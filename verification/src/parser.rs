//! The recovering recursive-descent parser: every error reported, the
//! document's structure reported as events, in one pass.
use vstd::prelude::*;
use vstd::slice::slice_subrange;
use crate::tree::NullSink;
use crate::diag::{diags_view, opt_string_view, DiagModel, Diagnostic, Severity, Span, MAX_DIAGNOSTICS};
use crate::lex_spec::{dm, tk, LexModel, Mode, TokModel, TokenModel};
use crate::lexer::{Lexer, Tok, Token};
use crate::parse_spec::{
    cap, find_key, initial_parser, insert_by_start, key_bytes, lemma_bump, missing_comma_hint, no_errors,
    object_separator, sort_by_start, spec_array_element, spec_array_loop, spec_check_duplicate, spec_diagnostics,
    spec_events, spec_member_value, spec_object_loop, spec_object_member, spec_parse_state, spec_resync,
    spec_resync_member, spec_validate, spec_value, spec_scalar, spec_member_key, spec_key, insert_pos, lemma_insert_by_start, lemma_sort_step, trailing_comma_hint_object, ArrStep, DupKeys, EventModel,
    ObjStep, PModel, ParseOptions,
};
use crate::text::from_utf8_lossy;

verus! {

impl Default for ParseOptions {
    fn default() -> (o: Self)
        ensures
            o.mode == Mode::Strict,
            o.max_depth == 512,
            o.duplicate_keys == DupKeys::Warn,
    {
        ParseOptions { mode: Mode::Strict, max_depth: 512, duplicate_keys: DupKeys::Warn }
    }
}

/// What the parser reports to its consumer, in document order.
#[derive(Debug, Clone, PartialEq)]
pub enum Event {
    Null,
    Bool(bool),
    /// A number; the span is that of the numeral its value is read from.
    Number(Span),
    Str(String),
    BeginObject,
    Key(String),
    /// A number written where a key belongs; the span is that of its numeral.
    KeyNumber(Span),
    EndObject,
    BeginArray,
    EndArray,
}

impl View for Event {
    type V = EventModel;

    open spec fn view(&self) -> EventModel {
        match self {
            Event::Null => EventModel::Null,
            Event::Bool(b) => EventModel::Bool(*b),
            Event::Number(s) => EventModel::Number(*s),
            Event::Str(s) => EventModel::Str(s@),
            Event::BeginObject => EventModel::BeginObject,
            Event::Key(s) => EventModel::Key(s@),
            Event::KeyNumber(s) => EventModel::KeyNumber(*s),
            Event::EndObject => EventModel::EndObject,
            Event::BeginArray => EventModel::BeginArray,
            Event::EndArray => EventModel::EndArray,
        }
    }
}

pub open spec fn events_view(v: Seq<Event>) -> Seq<EventModel> {
    v.map_values(|e: Event| e@)
}

pub struct ParseResult {
    pub diagnostics: Vec<Diagnostic>,
}

impl ParseResult {
    /// No diagnostic is an error (warnings are allowed).
    pub fn ok(&self) -> (r: bool)
        ensures
            r == no_errors(diags_view(self.diagnostics@)),
    {
        let mut i: usize = 0;
        while i < self.diagnostics.len()
            invariant
                i <= self.diagnostics@.len(),
                forall|k: int| 0 <= k < i ==> diags_view(self.diagnostics@)[k].severity != Severity::Error,
            decreases self.diagnostics@.len() - i,
        {
            proof {
                assert(diags_view(self.diagnostics@)[i as int] == self.diagnostics@[i as int]@);
            }
            if let Severity::Error = self.diagnostics[i].severity {
                return false;
            }
            i += 1;
        }
        true
    }
}

struct Parser<'a> {
    lexer: Lexer<'a>,
    tok: Token,
    opts: &'a ParseOptions,
    depth: usize,
    extra: Vec<Diagnostic>,
    events: Vec<Event>,
}

impl<'a> View for Parser<'a> {
    type V = PModel;

    closed spec fn view(&self) -> PModel {
        PModel {
            lex: self.lexer@,
            tok: self.tok@,
            depth: self.depth as int,
            extra: diags_view(self.extra@),
            events: events_view(self.events@),
        }
    }
}

fn tok_name(t: &Tok) -> (s: String)
    ensures
        s@ == crate::parse_spec::tok_name(t@),
{
    match t {
        Tok::LBrace => String::from_str("'{'"),
        Tok::RBrace => String::from_str("'}'"),
        Tok::LBracket => String::from_str("'['"),
        Tok::RBracket => String::from_str("']'"),
        Tok::Colon => String::from_str("':'"),
        Tok::Comma => String::from_str("','"),
        Tok::Str(_) => String::from_str("a string"),
        Tok::Num(_) => String::from_str("a number"),
        Tok::True | Tok::False => String::from_str("a boolean"),
        Tok::Null => String::from_str("'null'"),
        Tok::Ident(w) => {
            let mut s = String::from_str("'");
            s.append(w.as_str());
            s.append("'");
            s
        },
        Tok::Eof => String::from_str("end of input"),
    }
}

/// `"' + w + "'"`-style concatenation of a literal, a word and a literal.
fn around(a: &str, w: &String, b: &str) -> (s: String)
    ensures
        s@ == a@ + w@ + b@,
{
    let mut s = String::from_str(a);
    s.append(w.as_str());
    s.append(b);
    s
}

impl<'a> Parser<'a> {
    spec fn o(&self) -> ParseOptions {
        *self.opts
    }

    fn bump(&mut self)
        requires
            old(self)@.valid(),
        ensures
            final(self)@ == old(self)@.bump(),
            final(self).opts == old(self).opts,
    {
        self.tok = self.lexer.next_token();
    }

    fn diag(&mut self, code: &'static str, msg: String, span: Span, hint: Option<String>)
        ensures
            final(self)@ == old(self)@.error(code@, msg@, span, opt_string_view(hint)),
            final(self).opts == old(self).opts,
    {
        if self.extra.len() < MAX_DIAGNOSTICS {
            let d = Diagnostic { code, message: msg, span, hint, severity: Severity::Error, related: None };
            let ghost old_d = self.extra@;
            self.extra.push(d);
            proof {
                assert(diags_view(self.extra@) =~= diags_view(old_d).push(d@));
            }
        }
    }

    fn emit(&mut self, e: Event)
        ensures
            final(self)@ == old(self)@.emit(e@),
            final(self).opts == old(self).opts,
    {
        let ghost old_e = self.events@;
        self.events.push(e);
        proof {
            assert(events_view(self.events@) =~= events_view(old_e).push(e@));
        }
    }

    fn measure(&self) -> (m: u128)
        requires
            self@.valid(),
        ensures
            m as int == self@.measure(),
    {
        let len = self.lexer.source().len() as u128;
        let pos = self.lexer.position() as u128;
        let flag: u128 = if self.tok.tok.is_eof() { 0 } else { 1 };
        (len + 2 - pos) * 2 + flag
    }

    fn is_strict(&self) -> (r: bool)
        ensures
            r == (self.o().mode == Mode::Strict),
    {
        match self.opts.mode {
            Mode::Strict => true,
            Mode::Jsonc => false,
        }
    }

    fn value(&mut self)
        requires
            old(self)@.valid(),
        ensures
            final(self)@ == spec_value(old(self).o(), old(self)@),
            final(self)@.valid(),
            final(self)@.depth == old(self)@.depth,
            final(self)@.measure() <= old(self)@.measure(),
            final(self)@.lex.src == old(self)@.lex.src,
            final(self).opts == old(self).opts,
        decreases old(self)@.measure(), 1int,
    {
        let ghost p = self@;
        proof { lemma_bump(p); }
        if self.depth >= self.opts.max_depth {
            let span = self.tok.span;
            self.diag("E040", String::from_str("maximum nesting depth exceeded"), span, None);
            self.resync();
            self.emit(Event::Null);
            return;
        }
        if self.tok.tok.is_lbrace() {
            self.object();
        } else if self.tok.tok.is_lbracket() {
            self.array();
        } else {
            self.scalar();
        }
    }

    /// A value that is not a container.
    fn scalar(&mut self)
        requires
            old(self)@.valid(),
        ensures
            final(self)@ == spec_scalar(old(self)@),
            final(self)@.valid(),
            final(self)@.depth == old(self)@.depth,
            final(self)@.measure() <= old(self)@.measure(),
            final(self)@.lex.src == old(self)@.lex.src,
            final(self).opts == old(self).opts,
    {
        let ghost p = self@;
        proof { lemma_bump(p); }
        let span = self.tok.span;
        match &self.tok.tok {
            Tok::Str(s) => {
                let s2 = s.clone();
                self.emit(Event::Str(s2));
                self.bump();
            },
            Tok::Num(n) => {
                let n2 = *n;
                self.emit(Event::Number(n2));
                self.bump();
            },
            Tok::True => {
                self.emit(Event::Bool(true));
                self.bump();
            },
            Tok::False => {
                self.emit(Event::Bool(false));
                self.bump();
            },
            Tok::Null => {
                self.emit(Event::Null);
                self.bump();
            },
            Tok::Ident(w) => {
                let msg = around("unexpected identifier '", w, "'");
                let w2 = w.clone();
                self.diag("E003", msg, span,
                    Some(String::from_str("bare words are not values — did you mean a quoted string?")));
                self.emit(Event::Str(w2));
                self.bump();
            },
            Tok::Eof => {
                self.diag("E004", String::from_str("unexpected end of input, expected a value"), span, None);
                self.emit(Event::Null);
            },
            other => {
                let mut msg = String::from_str("expected a value, found ");
                let name = tok_name(other);
                msg.append(name.as_str());
                self.diag("E005", msg, span, None);
                self.emit(Event::Null);
                self.bump();
            },
        }
    }

    fn object(&mut self)
        requires
            old(self)@.valid(),
            old(self)@.tok.tok is LBrace,
            old(self)@.depth < old(self).o().max_depth,
        ensures
            final(self)@ == spec_value(old(self).o(), old(self)@),
            final(self)@.valid(),
            final(self)@.depth == old(self)@.depth,
            final(self)@.measure() <= old(self)@.measure(),
            final(self)@.lex.src == old(self)@.lex.src,
            final(self).opts == old(self).opts,
        decreases old(self)@.measure(), 0int,
    {
        let ghost p = self@;
        proof { lemma_bump(p); }
        self.emit(Event::BeginObject);
        self.depth += 1;
        proof { lemma_bump(self@); }
        self.bump();  // {
        let mut first = true;
        let mut seen: Vec<Span> = Vec::new();
        let ghost p1 = self@;
        loop
            invariant_except_break
                spec_object_loop(self.o(), self@, first, seen@) == spec_object_loop(self.o(), p1, true, Seq::empty()),
            invariant
                p == old(self)@,
                self@.valid(),
                seen_wf(seen@, self@.lex.len()),
                self@.lex.src == p.lex.src,
                self.opts == old(self).opts,
                self@.depth == p.depth + 1,
                self@.measure() < p.measure(),
            ensures
                self@ == spec_object_loop(self.o(), p1, true, Seq::empty()),
            decreases self@.measure(),
        {
            let ghost q = self@;
            proof { lemma_bump(q); }
            let step_break = self.object_member(&mut first, &mut seen);
            if step_break {
                break;
            }
        }
        self.depth -= 1;
        self.emit(Event::EndObject);
    }

    fn array(&mut self)
        requires
            old(self)@.valid(),
            old(self)@.tok.tok is LBracket,
            old(self)@.depth < old(self).o().max_depth,
        ensures
            final(self)@ == spec_value(old(self).o(), old(self)@),
            final(self)@.valid(),
            final(self)@.depth == old(self)@.depth,
            final(self)@.measure() <= old(self)@.measure(),
            final(self)@.lex.src == old(self)@.lex.src,
            final(self).opts == old(self).opts,
        decreases old(self)@.measure(), 0int,
    {
        let ghost p = self@;
        proof { lemma_bump(p); }
        self.emit(Event::BeginArray);
        self.depth += 1;
        proof { lemma_bump(self@); }
        self.bump();  // [
        let mut first = true;
        let ghost p1 = self@;
        loop
            invariant_except_break
                spec_array_loop(self.o(), self@, first) == spec_array_loop(self.o(), p1, true),
            invariant
                p == old(self)@,
                self@.valid(),
                self@.lex.src == p.lex.src,
                self.opts == old(self).opts,
                self@.depth == p.depth + 1,
                self@.measure() < p.measure(),
            ensures
                self@ == spec_array_loop(self.o(), p1, true),
            decreases self@.measure(), if first { 1int } else { 0int },
        {
            let ghost q = self@;
            let m0 = self.measure();
            let first0 = first;
            proof { lemma_bump(q); }
            let brk = self.array_element(first);
            if brk {
                break;
            }
            first = false;
            // An element after the first that consumes nothing would repeat forever: stop.
            let m1 = self.measure();
            if !(m1 < m0 || (first0 && m1 == m0)) {
                break;
            }
        }
        self.depth -= 1;
        self.emit(Event::EndArray);
    }

    /// One element of an array: the separator and the value. True when the
    /// array ends.
    fn array_element(&mut self, first: bool) -> (brk: bool)
        requires
            old(self)@.valid(),
        ensures
            brk ==> spec_array_element(old(self).o(), old(self)@, first) == ArrStep::Break(final(self)@),
            !brk ==> spec_array_element(old(self).o(), old(self)@, first) == ArrStep::Continue(final(self)@),
            final(self)@.measure() <= old(self)@.measure(),
            final(self)@.valid(),
            final(self)@.depth == old(self)@.depth,
            final(self)@.lex.src == old(self)@.lex.src,
            final(self).opts == old(self).opts,
        decreases old(self)@.measure(), 2int,
    {
        let ghost q = self@;
        proof { lemma_bump(q); }
        match &self.tok.tok {
            Tok::RBracket => {
                self.bump();
                return true;
            },
            Tok::Eof => {
                let span = self.tok.span;
                self.diag("E006", String::from_str("unclosed array, expected ']'"), span, None);
                return true;
            },
            _ => {},
        }
        if !first {
            if self.tok.tok.is_comma() {
                self.bump();
                proof { lemma_bump(self@); }
                if self.tok.tok.is_rbracket() {
                    if self.is_strict() {
                        let span = self.tok.span;
                        self.diag("E008", String::from_str("trailing comma in array"), span,
                            Some(String::from_str("trailing commas are valid in JSONC")));
                    }
                    self.bump();
                    return true;
                }
            } else if self.tok.tok.is_rbracket() {
                self.bump();
                return true;
            } else {
                let span = self.tok.span;
                let mut msg = String::from_str("expected ',' or ']' between array elements, found ");
                let name = tok_name(&self.tok.tok);
                msg.append(name.as_str());
                self.diag("E009", msg, span, Some(String::from_str("did you forget a comma after the previous value?")));
            }
        }
        self.value();
        false
    }

    /// One member of an object: the separator, the key, the colon and the
    /// value. True when the object ends.
    fn object_member(&mut self, first: &mut bool, seen: &mut Vec<Span>) -> (brk: bool)
        requires
            old(self)@.valid(),
            seen_wf(old(seen)@, old(self)@.lex.len()),
        ensures
            brk ==> spec_object_member(old(self).o(), old(self)@, *old(first), old(seen)@) == ObjStep::Break(final(self)@),
            !brk ==> spec_object_member(old(self).o(), old(self)@, *old(first), old(seen)@)
                == ObjStep::Continue(final(self)@, *final(first), final(seen)@),
            !brk ==> final(self)@.measure() < old(self)@.measure(),
            final(self)@.measure() <= old(self)@.measure(),
            final(self)@.valid(),
            final(self)@.depth == old(self)@.depth,
            final(self)@.lex.src == old(self)@.lex.src,
            seen_wf(final(seen)@, old(self)@.lex.len()),
            final(self).opts == old(self).opts,
        decreases old(self)@.measure(), 2int,
    {
        let ghost p = self@;
        proof { lemma_bump(p); }
        match &self.tok.tok {
            Tok::RBrace => {
                self.bump();
                return true;
            },
            Tok::Eof => {
                let span = self.tok.span;
                self.diag("E006", String::from_str("unclosed object, expected '}'"), span, None);
                return true;
            },
            _ => {},
        }
        if *first && self.tok.tok.is_comma() {
            let span = self.tok.span;
            self.diag("E007", String::from_str("leading comma in object"), span, None);
            self.bump();
            return false;
        }
        if !*first {
            let brk = self.object_separator();
            if brk {
                return true;
            }
        }
        *first = false;
        self.member_key(seen, Ghost(p.measure()));
        false
    }

    /// The separator before an object member after the first. True when the
    /// object ends.
    fn object_separator(&mut self) -> (brk: bool)
        requires
            old(self)@.valid(),
            !(old(self)@.tok.tok is Eof),
            !(old(self)@.tok.tok is RBrace),
        ensures
            brk ==> object_separator(old(self).o(), old(self)@) == Err::<PModel, PModel>(final(self)@),
            !brk ==> object_separator(old(self).o(), old(self)@) == Ok::<PModel, PModel>(final(self)@),
            !brk ==> final(self)@.measure() < old(self)@.measure() || (final(self)@.tok == old(self)@.tok
                && final(self)@.lex == old(self)@.lex && !(final(self)@.tok.tok is Comma)),
            final(self)@.measure() <= old(self)@.measure(),
            final(self)@.valid(),
            final(self)@.depth == old(self)@.depth,
            final(self)@.events == old(self)@.events,
            final(self)@.lex.src == old(self)@.lex.src,
            final(self).opts == old(self).opts,
    {
        let ghost p = self@;
        proof { lemma_bump(p); }
        if self.tok.tok.is_comma() {
            self.bump();
            proof { lemma_bump(self@); }
            if self.tok.tok.is_rbrace() {
                if self.is_strict() {
                    let span = self.tok.span;
                    self.diag("E008", String::from_str("trailing comma in object"), span,
                        Some(String::from_str("trailing commas are valid in JSONC — enable mode: \"jsonc\" if this is a config file")));
                }
                self.bump();
                return true;
            }
            false
        } else {
            let span = self.tok.span;
            let mut msg = String::from_str("expected ',' or '}' between object members, found ");
            let found = tok_name(&self.tok.tok);
            msg.append(found.as_str());
            self.diag("E009", msg, span, Some(String::from_str("did you forget a comma after the previous value?")));
            // go on and try to parse a member anyway (recovery)
            false
        }
    }

    /// The key of an object member, then its colon and value.
    fn member_key(&mut self, seen: &mut Vec<Span>, Ghost(bound): Ghost<int>)
        requires
            old(self)@.valid(),
            old(self)@.measure() <= bound,
            seen_wf(old(seen)@, old(self)@.lex.len()),
        ensures
            spec_member_key(old(self).o(), old(self)@, old(seen)@, bound)
                == ObjStep::Continue(final(self)@, false, final(seen)@),
            final(self)@.measure() <= old(self)@.measure(),
            !(old(self)@.tok.tok is Eof) && !(old(self)@.tok.tok is RBrace) && !(old(self)@.tok.tok is Comma)
                ==> final(self)@.measure() < old(self)@.measure(),
            final(self)@.valid(),
            final(self)@.depth == old(self)@.depth,
            final(self)@.lex.src == old(self)@.lex.src,
            seen_wf(final(seen)@, old(self)@.lex.len()),
            final(self).opts == old(self).opts,
        decreases bound, 1int,
    {
        let ghost p1 = self@;
        if self.key(seen) {
            self.member_value(Ghost(seen@), Ghost(bound));
        } else {
            let kspan = self.tok.span;
            let mut msg = String::from_str("expected object key, found ");
            let name = tok_name(&self.tok.tok);
            msg.append(name.as_str());
            self.diag("E023", msg, kspan, None);
            self.resync_member();
        }
    }

    /// Consumes a key token; false, with nothing changed, when the current
    /// token cannot be a key.
    fn key(&mut self, seen: &mut Vec<Span>) -> (r: bool)
        requires
            old(self)@.valid(),
            seen_wf(old(seen)@, old(self)@.lex.len()),
        ensures
            r ==> spec_key(old(self).o(), old(self)@, old(seen)@) == Some((final(self)@, final(seen)@)),
            r ==> final(self)@.measure() < old(self)@.measure(),
            !r ==> spec_key(old(self).o(), old(self)@, old(seen)@) is None && final(self)@ == old(self)@
                && final(seen)@ == old(seen)@,
            final(self)@.valid(),
            final(self)@.depth == old(self)@.depth,
            final(self)@.lex.src == old(self)@.lex.src,
            seen_wf(final(seen)@, old(self)@.lex.len()),
            final(self).opts == old(self).opts,
    {
        let ghost p1 = self@;
        proof { lemma_bump(p1); }
        let kspan = self.tok.span;
        match &self.tok.tok {
            Tok::Str(k) => {
                let k2 = k.clone();
                self.check_duplicate(&kspan, seen);
                self.emit(Event::Key(k2));
                proof { lemma_bump(self@); }
                self.bump();
                true
            },
            Tok::Ident(k) => {
                let msg = around("object keys must be quoted: '", k, "'");
                let hint = around("write \"", k, "\" — unquoted keys are valid in JSON5 only");
                let k2 = k.clone();
                self.diag("E022", msg, kspan, Some(hint));
                self.emit(Event::Key(k2));
                proof { lemma_bump(self@); }
                self.bump();
                true
            },
            Tok::Num(n) => {
                let n2 = *n;
                self.diag("E022", String::from_str("object keys must be quoted strings"), kspan,
                    Some(String::from_str("numbers cannot be keys in JSON")));
                self.emit(Event::KeyNumber(n2));
                proof { lemma_bump(self@); }
                self.bump();
                true
            },
            _ => false,
        }
    }

    /// The colon and value of an object member whose key was just consumed.
    fn member_value(&mut self, Ghost(seen): Ghost<Seq<Span>>, Ghost(bound): Ghost<int>)
        requires
            old(self)@.valid(),
            old(self)@.measure() < bound,
        ensures
            spec_member_value(old(self).o(), old(self)@, seen, bound) == ObjStep::Continue(final(self)@, false, seen),
            final(self)@.measure() <= old(self)@.measure(),
            final(self)@.valid(),
            final(self)@.depth == old(self)@.depth,
            final(self)@.lex.src == old(self)@.lex.src,
            final(self).opts == old(self).opts,
        decreases bound, 0int,
    {
        let ghost p3 = self@;
        proof { lemma_bump(p3); }
        if self.tok.tok.is_colon() {
            self.bump();
        } else {
            let span = self.tok.span;
            let mut msg = String::from_str("expected ':' after object key, found ");
            let name = tok_name(&self.tok.tok);
            msg.append(name.as_str());
            self.diag("E024", msg, span, None);
            // recovery: if the next token starts a value, assume the colon was forgotten
        }
        self.value();
    }

    /// Duplicate-key check by raw byte comparison of the key token (quotes
    /// included). Escaped-equivalent keys ("a" vs "\u0061") are not detected.
    fn check_duplicate(&mut self, kspan: &Span, seen: &mut Vec<Span>)
        requires
            old(self)@.valid(),
            seen_wf(old(seen)@, old(self)@.lex.len()),
            kspan.start < kspan.end,
            kspan.start < old(self)@.lex.len(),
        ensures
            (final(self)@, final(seen)@) == spec_check_duplicate(old(self).o(), old(self)@, *kspan, old(seen)@),
            seen_wf(final(seen)@, old(self)@.lex.len()),
            final(self).opts == old(self).opts,
    {
        if let DupKeys::Allow = self.opts.duplicate_keys {
            return;
        }
        let src = self.lexer.source();
        let kend = if kspan.end < src.len() { kspan.end } else { src.len() };
        let key = slice_subrange(src, kspan.start, kend);
        let mut i: usize = 0;
        let mut found: Option<Span> = None;
        while i < seen.len()
            invariant_except_break
                i <= seen@.len(),
                seen_wf(seen@, src@.len() as int),
                found is None,
                find_key(src@, seen@, key@, 0) == find_key(src@, seen@, key@, i as int),
            ensures
                match found {
                    Some(prev) => exists|j: int| find_key(src@, seen@, key@, 0) == Some(j) && 0 <= j < seen@.len()
                        && seen@[j] == prev,
                    None => find_key(src@, seen@, key@, 0) is None,
                },
            decreases seen@.len() - i,
        {
            let p = seen[i];
            let pend = if p.end < src.len() { p.end } else { src.len() };
            if bytes_equal(src, p.start, pend, key) {
                found = Some(p);
                break;
            }
            i += 1;
        }
        match found {
            Some(prev) => {
                let sev = match self.opts.duplicate_keys {
                    DupKeys::Error => Severity::Error,
                    _ => Severity::Warning,
                };
                let name = from_utf8_lossy(key);
                let mut msg = String::from_str("duplicate object key ");
                msg.append(name.as_str());
                if self.extra.len() < MAX_DIAGNOSTICS {
                    let d = Diagnostic {
                        code: "W060",
                        message: msg,
                        span: *kspan,
                        hint: Some(String::from_str("the last occurrence wins; earlier values are silently discarded")),
                        severity: sev,
                        related: Some(prev),
                    };
                    let ghost old_d = self.extra@;
                    self.extra.push(d);
                    proof {
                        assert(diags_view(self.extra@) =~= diags_view(old_d).push(d@));
                    }
                }
            },
            None => {
                seen.push(*kspan);
            },
        }
    }

    /// Skip tokens until a plausible synchronization point at this nesting level.
    fn resync(&mut self)
        requires
            old(self)@.valid(),
        ensures
            final(self)@ == spec_resync(old(self)@, 0),
            final(self)@.valid(),
            final(self)@.depth == old(self)@.depth,
            final(self)@.measure() <= old(self)@.measure(),
            final(self)@.lex.src == old(self)@.lex.src,
            final(self).opts == old(self).opts,
    {
        let ghost p = self@;
        proof { lemma_bump(p); }
        let mut depth: u128 = 0;
        loop
            invariant
                self@.valid(),
                p.measure() <= 2 * usize::MAX + 8,
                self@.lex.src == p.lex.src,
                self.opts == old(self).opts,
                self@.depth == p.depth,
                depth as int + self@.measure() <= p.measure(),
                spec_resync(self@, depth as int) == spec_resync(p, 0),
            ensures
                self@ == spec_resync(p, 0),
                self@.valid(),
                self@.depth == p.depth,
                self@.measure() <= p.measure(),
            decreases self@.measure(),
        {
            proof { lemma_bump(self@); }
            match &self.tok.tok {
                Tok::Eof => break,
                Tok::LBrace | Tok::LBracket => {
                    depth += 1;
                    self.bump();
                },
                Tok::RBrace | Tok::RBracket => {
                    if depth == 0 {
                        break;
                    }
                    depth -= 1;
                    self.bump();
                },
                Tok::Comma => {
                    if depth == 0 {
                        break;
                    }
                    self.bump();
                },
                _ => self.bump(),
            }
        }
    }

    /// Skip to the end of a broken object member.
    fn resync_member(&mut self)
        requires
            old(self)@.valid(),
        ensures
            final(self)@ == spec_resync_member(old(self)@),
            !(old(self)@.tok.tok is Eof) && !(old(self)@.tok.tok is RBrace) && !(old(self)@.tok.tok is Comma)
                ==> final(self)@.measure() < old(self)@.measure(),
            final(self)@.valid(),
            final(self)@.depth == old(self)@.depth,
            final(self)@.measure() <= old(self)@.measure(),
            final(self)@.lex.src == old(self)@.lex.src,
            final(self).opts == old(self).opts,
    {
        let ghost p = self@;
        loop
            invariant_except_break
                spec_resync_member(self@) == spec_resync_member(p),
            invariant
                self@.valid(),
                self@.lex.src == p.lex.src,
                self.opts == old(self).opts,
                self@.depth == p.depth,
                self@.measure() <= p.measure(),
                !(p.tok.tok is Eof) && !(p.tok.tok is RBrace) && !(p.tok.tok is Comma) ==> self@.measure() < p.measure()
                    || self@ == p,
            ensures
                self@ == spec_resync_member(p),
                !(p.tok.tok is Eof) && !(p.tok.tok is RBrace) && !(p.tok.tok is Comma) ==> self@.measure() < p.measure(),
                self@.valid(),
                self@.depth == p.depth,
                self@.measure() <= p.measure(),
            decreases self@.measure(),
        {
            proof { lemma_bump(self@); }
            match &self.tok.tok {
                Tok::Eof | Tok::RBrace => break,
                Tok::Comma => {
                    self.bump();
                    break;
                },
                _ => self.bump(),
            }
        }
    }
}

impl<'a> Parser<'a> {
    /// The lexer's diagnostics, the parser's own, and the events.
    fn finish(self) -> (r: (Vec<Diagnostic>, Vec<Diagnostic>, Vec<Event>))
        ensures
            diags_view(r.0@) == self@.lex.diags,
            diags_view(r.1@) == self@.extra,
            events_view(r.2@) == self@.events,
    {
        let Parser { lexer, tok: _, opts: _, depth: _, extra, events } = self;
        (lexer.into_diagnostics(), extra, events)
    }
}

/// Parses `src`: the document's structure as events (string contents decoded
/// when `keep_strings`), and every diagnostic, ordered by start offset, at
/// most `MAX_DIAGNOSTICS`.
pub fn parse_events(src: &[u8], opts: &ParseOptions, keep_strings: bool) -> (r: (Vec<Event>, ParseResult))
    requires
        src@.len() <= isize::MAX,
    ensures
        events_view(r.0@) == spec_events(src@, *opts, keep_strings),
        diags_view(r.1.diagnostics@) == spec_diagnostics(src@, *opts, keep_strings),
{
    let mut lexer = Lexer::new(src, opts.mode);
    lexer.set_keep_strings(keep_strings);
    let mut p = Parser {
        lexer,
        tok: Token { tok: Tok::Eof, span: Span { start: 0, end: 0 } },
        opts,
        depth: 0,
        extra: Vec::new(),
        events: Vec::new(),
    };
    proof {
        assert(diags_view(p.extra@) =~= Seq::<DiagModel>::empty());
        assert(events_view(p.events@) =~= Seq::<EventModel>::empty());
        assert(p@ == initial_parser(src@, *opts, keep_strings));
        lemma_bump(p@);
    }
    p.bump();
    p.value();
    if !p.tok.tok.is_eof() {
        let hint = if p.tok.tok.is_opener() {
            Some(String::from_str("looks like two JSON documents concatenated — did you mean an array, or NDJSON?"))
        } else {
            None
        };
        let span = p.tok.span;
        p.diag("E002", String::from_str("unexpected content after top-level value"), span, hint);
    }
    let ghost fin = p@;
    let (lexer_diags, extra, events) = p.finish();
    let mut diagnostics = lexer_diags;
    let mut extra = extra;
    let ghost d0 = diagnostics@;
    let ghost e0 = extra@;
    diagnostics.append(&mut extra);
    proof {
        assert(diags_view(diagnostics@) =~= diags_view(d0) + diags_view(e0));
    }
    let mut sorted = sort_diagnostics(diagnostics);
    let ghost full = sorted@;
    sorted.truncate(MAX_DIAGNOSTICS);
    proof {
        if full.len() > MAX_DIAGNOSTICS {
            assert(diags_view(sorted@) =~= diags_view(full).take(MAX_DIAGNOSTICS as int));
        } else {
            assert(sorted@ == full);
        }
        assert(diags_view(sorted@) =~= cap(sort_by_start(fin.lex.diags + fin.extra)));
    }
    (events, ParseResult { diagnostics: sorted })
}

/// Validates `src` without decoding string contents: every diagnostic,
/// ordered by start offset, at most `MAX_DIAGNOSTICS`.
pub fn validate(src: &[u8], opts: &ParseOptions) -> (r: ParseResult)
    requires
        src@.len() <= isize::MAX,
    ensures
        diags_view(r.diagnostics@) == spec_validate(src@, *opts),
{
    let (_events, r) = parse_events(src, opts, NullSink.wants_strings());
    r
}

/// A stable sort of diagnostics by start offset.
fn sort_diagnostics(v: Vec<Diagnostic>) -> (r: Vec<Diagnostic>)
    ensures
        diags_view(r@) == sort_by_start(diags_view(v@)),
{
    let ghost orig = diags_view(v@);
    let mut rest = v;
    let mut out: Vec<Diagnostic> = Vec::new();
    let ghost mut k: int = 0;
    proof {
        assert(orig.take(0) =~= Seq::<DiagModel>::empty());
        assert(diags_view(out@) =~= Seq::<DiagModel>::empty());
        assert(orig.skip(0) =~= orig);
    }
    while rest.len() > 0
        invariant
            0 <= k <= orig.len(),
            rest@.len() == orig.len() - k,
            diags_view(rest@) == orig.skip(k),
            diags_view(out@) == sort_by_start(orig.take(k)),
        decreases rest@.len(),
    {
        let ghost before = rest@;
        let d = rest.remove(0);
        proof {
            assert(diags_view(before)[0] == before[0]@);
            assert(orig.skip(k)[0] == orig[k]);
            assert(d@ == orig[k]);
            assert forall|i: int| 0 <= i < rest@.len() implies #[trigger] diags_view(rest@)[i] == orig.skip(k + 1)[i] by {
                assert(rest@[i] == before[i + 1]);
                assert(diags_view(before)[i + 1] == before[i + 1]@);
                assert(orig.skip(k)[i + 1] == orig.skip(k + 1)[i]);
            }
            assert(diags_view(rest@) =~= orig.skip(k + 1));
            lemma_sort_step(orig, k);
        }
        insert_sorted(&mut out, d);
        proof {
            k = k + 1;
        }
    }
    proof {
        assert(orig.take(k) =~= orig);
    }
    out
}

/// Inserts `d` after every diagnostic that starts no later than it.
fn insert_sorted(out: &mut Vec<Diagnostic>, d: Diagnostic)
    ensures
        diags_view(final(out)@) == insert_by_start(diags_view(old(out)@), d@),
{
    let ghost s = diags_view(out@);
    let mut j = out.len();
    proof {
        assert(s.take(j as int) =~= s);
    }
    while j > 0 && out[j - 1].span.start > d.span.start
        invariant
            j <= out@.len(),
            out@ == old(out)@,
            s == diags_view(out@),
            insert_pos(s, d@) == insert_pos(s.take(j as int), d@),
        decreases j,
    {
        proof {
            assert(s.take(j as int).drop_last() =~= s.take(j - 1));
            assert(s[j - 1] == out@[j - 1]@);
        }
        j -= 1;
    }
    proof {
        if j > 0 {
            assert(s[j - 1] == out@[j - 1]@);
        }
        lemma_insert_by_start(s, d@);
    }
    out.insert(j, d);
    proof {
        assert(diags_view(out@) =~= s.take(j as int).push(d@) + s.skip(j as int));
    }
}

/// The spans recorded as object keys: each lies within the input.
pub open spec fn seen_wf(seen: Seq<Span>, len: int) -> bool {
    forall|k: int| 0 <= k < seen.len() ==> seen[k].start < seen[k].end && seen[k].start < len
}

/// `src[a0..a1]` equals `key`.
fn bytes_equal(src: &[u8], a0: usize, a1: usize, key: &[u8]) -> (r: bool)
    requires
        a0 <= a1 <= src@.len(),
    ensures
        r == (src@.subrange(a0 as int, a1 as int) == key@),
{
    if a1 - a0 != key.len() {
        return false;
    }
    let mut i: usize = 0;
    while i < key.len()
        invariant
            a1 - a0 == key@.len(),
            a0 <= a1 <= src@.len(),
            i <= key@.len(),
            forall|k: int| 0 <= k < i ==> src@[a0 + k] == key@[k],
        decreases key@.len() - i,
    {
        if src[a0 + i] != key[i] {
            proof {
                assert(src@.subrange(a0 as int, a1 as int)[i as int] != key@[i as int]);
            }
            return false;
        }
        i += 1;
    }
    proof {
        assert(src@.subrange(a0 as int, a1 as int) =~= key@);
    }
    true
}

} // verus!
