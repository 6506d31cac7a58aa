//! The parser's mathematical model: recursive descent over the token stream,
//! as functions from parser state to parser state.
use vstd::prelude::*;
use crate::diag::{DiagModel, Severity, Span, MAX_DIAGNOSTICS};
use crate::lex_spec::{dm, lemma_next_token, spec_lexer_new, spec_next_token, tk, LexModel, Mode, TokModel, TokenModel};
use crate::text::utf8_lossy;

verus! {

#[derive(Debug, Clone, Copy, PartialEq, Eq, Structural)]
pub enum DupKeys {
    Allow,
    Warn,
    Error,
}

pub struct ParseOptions {
    pub mode: Mode,
    pub max_depth: usize,
    pub duplicate_keys: DupKeys,
}

/// What the parser reports to its consumer, in document order. A number
/// carries the span of the numeral its value is read from.
pub enum EventModel {
    Null,
    Bool(bool),
    Number(Span),
    Str(Seq<char>),
    BeginObject,
    Key(Seq<char>),
    KeyNumber(Span),
    EndObject,
    BeginArray,
    EndArray,
}

/// The state of the parser: the lexer, the current token, the nesting depth,
/// the parser's own diagnostics and the events so far.
pub struct PModel {
    pub lex: LexModel,
    pub tok: TokenModel,
    pub depth: int,
    pub extra: Seq<DiagModel>,
    pub events: Seq<EventModel>,
}

impl PModel {
    /// The lexer is valid, and a current token other than the end lies within
    /// the input and ends where the lexer stands.
    pub open spec fn valid(self) -> bool {
        &&& self.lex.valid()
        &&& !(self.tok.tok is Eof) ==> self.tok.span.start < self.lex.len() && self.tok.span.start < self.tok.span.end
            && self.tok.span.end == self.lex.pos
    }

    /// Decreases with every token consumed.
    pub open spec fn measure(self) -> int {
        (self.lex.len() + 2 - self.lex.pos) * 2 + if self.tok.tok is Eof { 0int } else { 1int }
    }

    pub open spec fn with_lex(self, lex: LexModel, tok: TokenModel) -> PModel {
        PModel { lex, tok, depth: self.depth, extra: self.extra, events: self.events }
    }

    pub open spec fn with_depth(self, depth: int) -> PModel {
        PModel { lex: self.lex, tok: self.tok, depth, extra: self.extra, events: self.events }
    }

    /// Moves to the next token.
    pub open spec fn bump(self) -> PModel {
        let (lex, tok) = spec_next_token(self.lex);
        self.with_lex(lex, tok)
    }

    /// Records a diagnostic of the parser unless `MAX_DIAGNOSTICS` are recorded.
    pub open spec fn report(self, d: DiagModel) -> PModel {
        if self.extra.len() < MAX_DIAGNOSTICS {
            PModel { lex: self.lex, tok: self.tok, depth: self.depth, extra: self.extra.push(d), events: self.events }
        } else {
            self
        }
    }

    pub open spec fn error(self, code: Seq<char>, msg: Seq<char>, span: Span, hint: Option<Seq<char>>) -> PModel {
        self.report(dm(code, msg, span, hint, Severity::Error))
    }

    pub open spec fn emit(self, e: EventModel) -> PModel {
        PModel { lex: self.lex, tok: self.tok, depth: self.depth, extra: self.extra, events: self.events.push(e) }
    }
}

pub proof fn lemma_bump(p: PModel)
    requires
        p.valid(),
    ensures
        p.bump().valid(),
        p.bump().lex.src == p.lex.src,
        p.bump().lex.mode == p.lex.mode,
        p.bump().lex.keep == p.lex.keep,
        p.bump().measure() <= p.measure(),
        !(p.tok.tok is Eof) ==> p.bump().measure() < p.measure(),
        0 <= p.bump().measure(),
{
    lemma_next_token(p.lex);
}

/// How a diagnostic names a token.
pub open spec fn tok_name(t: TokModel) -> Seq<char> {
    match t {
        TokModel::LBrace => "'{'"@,
        TokModel::RBrace => "'}'"@,
        TokModel::LBracket => "'['"@,
        TokModel::RBracket => "']'"@,
        TokModel::Colon => "':'"@,
        TokModel::Comma => "','"@,
        TokModel::Str(_) => "a string"@,
        TokModel::Num(_) => "a number"@,
        TokModel::True => "a boolean"@,
        TokModel::False => "a boolean"@,
        TokModel::Null => "'null'"@,
        TokModel::Ident(w) => "'"@ + w + "'"@,
        TokModel::Eof => "end of input"@,
    }
}

/// Skips tokens until a plausible synchronization point at nesting `d`
/// below the current level: the end of input, a closer at level zero, or a
/// comma at level zero.
pub open spec fn spec_resync(p: PModel, d: int) -> PModel
    decreases p.measure(),
{
    if !p.valid() || p.measure() < 0 {
        p
    } else {
        proof { lemma_bump(p); }
        match p.tok.tok {
            TokModel::Eof => p,
            TokModel::LBrace => spec_resync(p.bump(), d + 1),
            TokModel::LBracket => spec_resync(p.bump(), d + 1),
            TokModel::RBrace => if d == 0 { p } else { spec_resync(p.bump(), d - 1) },
            TokModel::RBracket => if d == 0 { p } else { spec_resync(p.bump(), d - 1) },
            TokModel::Comma => if d == 0 { p } else { spec_resync(p.bump(), d) },
            _ => spec_resync(p.bump(), d),
        }
    }
}

/// Skips to the end of a broken object member: past the next comma, or up
/// to the closing brace or the end of input.
pub open spec fn spec_resync_member(p: PModel) -> PModel
    decreases p.measure(),
{
    if !p.valid() || p.measure() < 0 {
        p
    } else {
        proof { lemma_bump(p); }
        match p.tok.tok {
            TokModel::Eof => p,
            TokModel::RBrace => p,
            TokModel::Comma => p.bump(),
            _ => spec_resync_member(p.bump()),
        }
    }
}

/// The bytes of the key token at `s`, as far as the input goes.
pub open spec fn key_bytes(src: Seq<u8>, s: Span) -> Seq<u8> {
    src.subrange(s.start as int, if s.end > src.len() { src.len() as int } else { s.end as int })
}

/// The first of `seen` (from index `i` on) whose key bytes equal `key`.
pub open spec fn find_key(src: Seq<u8>, seen: Seq<Span>, key: Seq<u8>, i: int) -> Option<int>
    decreases seen.len() - i,
{
    if i < 0 || i >= seen.len() {
        None
    } else if key_bytes(src, seen[i]) == key {
        Some(i)
    } else {
        find_key(src, seen, key, i + 1)
    }
}

/// Duplicate-key check by raw byte comparison of the key token (quotes
/// included): a repeated key is reported with its first occurrence; a new one
/// joins `seen`.
pub open spec fn spec_check_duplicate(o: ParseOptions, p: PModel, kspan: Span, seen: Seq<Span>) -> (PModel, Seq<Span>) {
    if o.duplicate_keys == DupKeys::Allow {
        (p, seen)
    } else {
        let key = key_bytes(p.lex.src, kspan);
        match find_key(p.lex.src, seen, key, 0) {
            Some(i) => {
                let d = DiagModel {
                    code: "W060"@,
                    message: "duplicate object key "@ + utf8_lossy(key),
                    span: kspan,
                    hint: Some("the last occurrence wins; earlier values are silently discarded"@),
                    severity: if o.duplicate_keys == DupKeys::Error { Severity::Error } else { Severity::Warning },
                    related: Some(seen[i]),
                };
                (p.report(d), seen)
            },
            None => (p, seen.push(kspan)),
        }
    }
}

/// One iteration of the member loop of an object.
pub enum ObjStep {
    Break(PModel),
    Continue(PModel, bool, Seq<Span>),
}

/// One iteration of the element loop of an array.
pub enum ArrStep {
    Break(PModel),
    Continue(PModel),
}

pub open spec fn trailing_comma_hint_object() -> Seq<char> {
    "trailing commas are valid in JSONC — enable mode: \"jsonc\" if this is a config file"@
}

pub open spec fn missing_comma_hint() -> Seq<char> {
    "did you forget a comma after the previous value?"@
}

/// A value that is not a container: a literal, or a diagnostic for what
/// cannot start a value.
pub open spec fn spec_scalar(p: PModel) -> PModel {
    match p.tok.tok {
        TokModel::Str(s) => p.emit(EventModel::Str(s)).bump(),
        TokModel::Num(n) => p.emit(EventModel::Number(n)).bump(),
        TokModel::True => p.emit(EventModel::Bool(true)).bump(),
        TokModel::False => p.emit(EventModel::Bool(false)).bump(),
        TokModel::Null => p.emit(EventModel::Null).bump(),
        TokModel::Ident(w) => p.error("E003"@, "unexpected identifier '"@ + w + "'"@, p.tok.span,
            Some("bare words are not values — did you mean a quoted string?"@)).emit(EventModel::Str(w)).bump(),
        TokModel::Eof => p.error("E004"@, "unexpected end of input, expected a value"@, p.tok.span, None).emit(
            EventModel::Null),
        _ => p.error("E005"@, "expected a value, found "@ + tok_name(p.tok.tok), p.tok.span, None).emit(
            EventModel::Null).bump(),
    }
}

/// A value at the current token. Past the depth limit the value is reported
/// and skipped.
pub open spec fn spec_value(o: ParseOptions, p: PModel) -> PModel
    decreases p.measure(), 1int, 0int,
{
    if !p.valid() || p.measure() < 0 {
        p
    } else if p.depth >= o.max_depth {
        let p1 = p.error("E040"@, "maximum nesting depth exceeded"@, p.tok.span, None);
        spec_resync(p1, 0).emit(EventModel::Null)
    } else {
        proof { lemma_bump(p); }
        match p.tok.tok {
            TokModel::LBrace => {
                let p1 = p.emit(EventModel::BeginObject).with_depth(p.depth + 1).bump();
                let p2 = spec_object_loop(o, p1, true, Seq::empty());
                p2.with_depth(p.depth).emit(EventModel::EndObject)
            },
            TokModel::LBracket => {
                let p1 = p.emit(EventModel::BeginArray).with_depth(p.depth + 1).bump();
                let p2 = spec_array_loop(o, p1, true);
                p2.with_depth(p.depth).emit(EventModel::EndArray)
            },
            _ => spec_scalar(p),
        }
    }
}

/// The separator part of an object member after the first: `Err` ends the object.
pub open spec fn object_separator(o: ParseOptions, p: PModel) -> Result<PModel, PModel> {
    match p.tok.tok {
        TokModel::Comma => {
            let p1 = p.bump();
            if p1.tok.tok is RBrace {
                let p2 = if o.mode == Mode::Strict {
                    p1.error("E008"@, "trailing comma in object"@, p1.tok.span, Some(trailing_comma_hint_object()))
                } else {
                    p1
                };
                Err(p2.bump())
            } else {
                Ok(p1)
            }
        },
        TokModel::RBrace => Err(p.bump()),
        _ => Ok(p.error("E009"@, "expected ',' or '}' between object members, found "@ + tok_name(p.tok.tok), p.tok.span,
            Some(missing_comma_hint()))),
    }
}

/// One member of an object: the separator, the key, the colon and the value.
pub open spec fn spec_object_member(o: ParseOptions, p: PModel, first: bool, seen: Seq<Span>) -> ObjStep
    decreases p.measure(), 2int, 0int,
{
    if !p.valid() || p.measure() < 0 {
        ObjStep::Break(p)
    } else {
        proof { lemma_bump(p); }
        match p.tok.tok {
            TokModel::RBrace => ObjStep::Break(p.bump()),
            TokModel::Eof => ObjStep::Break(p.error("E006"@, "unclosed object, expected '}'"@, p.tok.span, None)),
            _ => {
                if first && p.tok.tok is Comma {
                    ObjStep::Continue(p.error("E007"@, "leading comma in object"@, p.tok.span, None).bump(), first, seen)
                } else {
                    let sep = if first { Ok(p) } else { object_separator(o, p) };
                    match sep {
                        Err(p1) => ObjStep::Break(p1),
                        Ok(p1) => spec_member_key(o, p1, seen, p.measure()),
                    }
                }
            }
        }
    }
}

/// A key token consumed: the parser after it and the keys seen so far;
/// `None` when the token cannot be a key.
pub open spec fn spec_key(o: ParseOptions, p1: PModel, seen: Seq<Span>) -> Option<(PModel, Seq<Span>)> {
    match p1.tok.tok {
        TokModel::Str(k) => {
            let (p2, seen2) = spec_check_duplicate(o, p1, p1.tok.span, seen);
            Some((p2.emit(EventModel::Key(k)).bump(), seen2))
        },
        TokModel::Ident(k) => Some((p1.error("E022"@, "object keys must be quoted: '"@ + k + "'"@, p1.tok.span,
            Some("write \""@ + k + "\" — unquoted keys are valid in JSON5 only"@)).emit(EventModel::Key(k)).bump(), seen)),
        TokModel::Num(n) => Some((p1.error("E022"@, "object keys must be quoted strings"@, p1.tok.span,
            Some("numbers cannot be keys in JSON"@)).emit(EventModel::KeyNumber(n)).bump(), seen)),
        _ => None,
    }
}

/// The key of an object member, then its colon and value. A token that
/// cannot be a key is reported and the member skipped.
pub open spec fn spec_member_key(o: ParseOptions, p1: PModel, seen: Seq<Span>, bound: int) -> ObjStep
    decreases bound, 1int, 2int,
{
    match spec_key(o, p1, seen) {
        Some((p3, seen2)) => spec_member_value(o, p3, seen2, bound),
        None => ObjStep::Continue(
            spec_resync_member(p1.error("E023"@, "expected object key, found "@ + tok_name(p1.tok.tok), p1.tok.span, None)),
            false,
            seen,
        ),
    }
}

/// The colon and value of an object member whose key was just consumed.
pub open spec fn spec_member_value(o: ParseOptions, p3: PModel, seen: Seq<Span>, bound: int) -> ObjStep
    decreases bound, 1int, 1int,
{
    if !(p3.measure() < bound) || !p3.valid() {
        ObjStep::Break(p3)
    } else {
        let p4 = if p3.tok.tok is Colon {
            p3.bump()
        } else {
            p3.error("E024"@, "expected ':' after object key, found "@ + tok_name(p3.tok.tok), p3.tok.span, None)
        };
        proof { lemma_bump(p3); }
        ObjStep::Continue(spec_value(o, p4), false, seen)
    }
}

/// The members of an object, until its end. A member that consumes nothing ends it.
pub open spec fn spec_object_loop(o: ParseOptions, p: PModel, first: bool, seen: Seq<Span>) -> PModel
    decreases p.measure(), 3int, 0int,
{
    if !p.valid() || p.measure() < 0 {
        p
    } else {
        match spec_object_member(o, p, first, seen) {
            ObjStep::Break(p1) => p1,
            ObjStep::Continue(p1, f1, s1) => if 0 <= p1.measure() < p.measure() {
                spec_object_loop(o, p1, f1, s1)
            } else {
                p1
            },
        }
    }
}

/// One element of an array: the separator and the value.
pub open spec fn spec_array_element(o: ParseOptions, p: PModel, first: bool) -> ArrStep
    decreases p.measure(), 2int, 0int,
{
    if !p.valid() || p.measure() < 0 {
        ArrStep::Break(p)
    } else {
        proof { lemma_bump(p); }
        match p.tok.tok {
            TokModel::RBracket => ArrStep::Break(p.bump()),
            TokModel::Eof => ArrStep::Break(p.error("E006"@, "unclosed array, expected ']'"@, p.tok.span, None)),
            _ => {
                let sep = if first {
                    Ok(p)
                } else {
                    match p.tok.tok {
                        TokModel::Comma => {
                            let p1 = p.bump();
                            if p1.tok.tok is RBracket {
                                let p2 = if o.mode == Mode::Strict {
                                    p1.error("E008"@, "trailing comma in array"@, p1.tok.span,
                                        Some("trailing commas are valid in JSONC"@))
                                } else {
                                    p1
                                };
                                Err(p2.bump())
                            } else {
                                Ok(p1)
                            }
                        },
                        TokModel::RBracket => Err(p.bump()),
                        _ => Ok(p.error("E009"@, "expected ',' or ']' between array elements, found "@ + tok_name(p.tok.tok),
                            p.tok.span, Some(missing_comma_hint()))),
                    }
                };
                match sep {
                    Err(p1) => ArrStep::Break(p1),
                    Ok(p1) => ArrStep::Continue(spec_value(o, p1)),
                }
            }
        }
    }
}

/// The elements of an array, until its end. After the first, an element that
/// consumes nothing ends the array.
pub open spec fn spec_array_loop(o: ParseOptions, p: PModel, first: bool) -> PModel
    decreases p.measure(), 3int, if first { 1int } else { 0int },
{
    if !p.valid() || p.measure() < 0 {
        p
    } else {
        match spec_array_element(o, p, first) {
            ArrStep::Break(p1) => p1,
            ArrStep::Continue(p1) => if 0 <= p1.measure() < p.measure() || (first && p1.measure() == p.measure()) {
                spec_array_loop(o, p1, false)
            } else {
                p1
            },
        }
    }
}

// ------------------------------------------------------------------ whole run

/// `d` placed into `s`, after every diagnostic that starts no later than it.
pub open spec fn insert_by_start(s: Seq<DiagModel>, d: DiagModel) -> Seq<DiagModel>
    decreases s.len(),
{
    if s.len() == 0 || s.last().span.start <= d.span.start {
        s.push(d)
    } else {
        insert_by_start(s.drop_last(), d).push(s.last())
    }
}

/// Where `insert_by_start` places `d`: after the last diagnostic that starts
/// no later than it.
pub open spec fn insert_pos(s: Seq<DiagModel>, d: DiagModel) -> int
    decreases s.len(),
{
    if s.len() == 0 || s.last().span.start <= d.span.start {
        s.len() as int
    } else {
        insert_pos(s.drop_last(), d)
    }
}

pub proof fn lemma_insert_by_start(s: Seq<DiagModel>, d: DiagModel)
    ensures
        0 <= insert_pos(s, d) <= s.len(),
        insert_by_start(s, d) =~= s.take(insert_pos(s, d)).push(d) + s.skip(insert_pos(s, d)),
    decreases s.len(),
{
    if s.len() == 0 || s.last().span.start <= d.span.start {
        assert(s.take(s.len() as int) =~= s);
        assert(s.skip(s.len() as int) =~= Seq::<DiagModel>::empty());
    } else {
        lemma_insert_by_start(s.drop_last(), d);
        let j = insert_pos(s.drop_last(), d);
        assert(s.drop_last().take(j) =~= s.take(j));
        assert(s.drop_last().skip(j).push(s.last()) =~= s.skip(j));
    }
}

/// Sorting a prefix one longer inserts the next diagnostic.
pub proof fn lemma_sort_step(s: Seq<DiagModel>, k: int)
    requires
        0 <= k < s.len(),
    ensures
        sort_by_start(s.take(k + 1)) == insert_by_start(sort_by_start(s.take(k)), s[k]),
{
    assert(s.take(k + 1).drop_last() =~= s.take(k));
}

/// The diagnostics ordered by start offset; those that start together keep
/// their order (a stable sort).
pub open spec fn sort_by_start(s: Seq<DiagModel>) -> Seq<DiagModel>
    decreases s.len(),
{
    if s.len() == 0 {
        s
    } else {
        insert_by_start(sort_by_start(s.drop_last()), s.last())
    }
}

/// At most the first `MAX_DIAGNOSTICS`.
pub open spec fn cap(s: Seq<DiagModel>) -> Seq<DiagModel> {
    if s.len() > MAX_DIAGNOSTICS { s.take(MAX_DIAGNOSTICS as int) } else { s }
}

/// A parser positioned before the first token.
pub open spec fn initial_parser(src: Seq<u8>, o: ParseOptions, keep: bool) -> PModel {
    let l = spec_lexer_new(src, o.mode);
    PModel {
        lex: LexModel { src: l.src, mode: l.mode, keep, pos: l.pos, diags: l.diags },
        tok: tk(TokModel::Eof, 0, 0),
        depth: 0,
        extra: Seq::empty(),
        events: Seq::empty(),
    }
}

/// The parser after one top-level value and the check for content after it.
pub open spec fn spec_parse_state(src: Seq<u8>, o: ParseOptions, keep: bool) -> PModel {
    let p = spec_value(o, initial_parser(src, o, keep).bump());
    if p.tok.tok is Eof {
        p
    } else {
        p.error("E002"@, "unexpected content after top-level value"@, p.tok.span,
            if p.tok.tok is LBrace || p.tok.tok is LBracket {
                Some("looks like two JSON documents concatenated — did you mean an array, or NDJSON?"@)
            } else {
                None
            })
    }
}

/// The diagnostics of a run: the lexer's and the parser's, ordered by start
/// offset, at most `MAX_DIAGNOSTICS`.
pub open spec fn spec_diagnostics(src: Seq<u8>, o: ParseOptions, keep: bool) -> Seq<DiagModel> {
    let p = spec_parse_state(src, o, keep);
    cap(sort_by_start(p.lex.diags + p.extra))
}

/// The events of a run.
pub open spec fn spec_events(src: Seq<u8>, o: ParseOptions, keep: bool) -> Seq<EventModel> {
    spec_parse_state(src, o, keep).events
}

/// The diagnostics of a validation run, which decodes no string contents.
pub open spec fn spec_validate(src: Seq<u8>, o: ParseOptions) -> Seq<DiagModel> {
    spec_diagnostics(src, o, false)
}

/// No diagnostic is an error.
pub open spec fn no_errors(d: Seq<DiagModel>) -> bool {
    forall|i: int| 0 <= i < d.len() ==> d[i].severity != Severity::Error
}

} // verus!
