//! The lexer's mathematical model: each step of the lexer as a function from
//! lexer state to lexer state (and token).
use vstd::prelude::*;
use vstd::utf8::*;
use crate::diag::{DiagModel, Severity, Span, MAX_DIAGNOSTICS};
use crate::text::{byte_char, decimal, hex2_upper, is_scalar_value, utf8_lossy, valid_up_to};

verus! {

#[derive(Debug, Clone, Copy, PartialEq, Eq, Structural)]
pub enum Mode {
    Strict,
    Jsonc,
}

/// A token, with the text of strings and bare words as characters.
/// A number carries the span of the numeral a float parse reads.
pub enum TokModel {
    LBrace,
    RBrace,
    LBracket,
    RBracket,
    Colon,
    Comma,
    Str(Seq<char>),
    Num(Span),
    True,
    False,
    Null,
    Ident(Seq<char>),
    Eof,
}

pub struct TokenModel {
    pub tok: TokModel,
    pub span: Span,
}

/// The state of a lexer: the input, the dialect, whether string contents are
/// decoded, the current byte offset and the diagnostics so far.
pub struct LexModel {
    pub src: Seq<u8>,
    pub mode: Mode,
    pub keep: bool,
    pub pos: int,
    pub diags: Seq<DiagModel>,
}

pub open spec fn sp(start: int, end: int) -> Span {
    Span { start: start as usize, end: end as usize }
}

pub open spec fn dm(code: Seq<char>, message: Seq<char>, span: Span, hint: Option<Seq<char>>, severity: Severity) -> DiagModel {
    DiagModel { code, message, span, hint, severity, related: None }
}

pub open spec fn tk(tok: TokModel, start: int, end: int) -> TokenModel {
    TokenModel { tok, span: sp(start, end) }
}

pub open spec fn sat_sub(a: int, b: int) -> int {
    if a >= b { a - b } else { 0 }
}

impl LexModel {
    pub open spec fn len(self) -> int {
        self.src.len() as int
    }

    pub open spec fn at(self, i: int) -> Option<u8> {
        if 0 <= i < self.src.len() { Some(self.src[i]) } else { None }
    }

    pub open spec fn peek(self) -> Option<u8> {
        self.at(self.pos)
    }

    pub open spec fn at_pos(self, p: int) -> LexModel {
        LexModel { src: self.src, mode: self.mode, keep: self.keep, pos: p, diags: self.diags }
    }

    /// Records a diagnostic unless `MAX_DIAGNOSTICS` are already recorded.
    pub open spec fn diag(self, d: DiagModel) -> LexModel {
        if self.diags.len() < MAX_DIAGNOSTICS {
            LexModel { src: self.src, mode: self.mode, keep: self.keep, pos: self.pos, diags: self.diags.push(d) }
        } else {
            self
        }
    }

    /// Positions never run more than one byte past the end of the input.
    pub open spec fn valid(self) -> bool {
        &&& 0 <= self.pos <= self.src.len() + 1
        &&& self.src.len() + 16 <= usize::MAX
    }
}

// ------------------------------------------------------------------ trivia

pub open spec fn is_ws(b: u8) -> bool {
    b == 32u8 || b == 9u8 || b == 13u8 || b == 10u8
}

/// The first offset at or after `i` holding a `\n`, else the end of input.
pub open spec fn line_end(src: Seq<u8>, i: int) -> int
    decreases src.len() - i,
{
    if 0 <= i < src.len() && src[i] != 10u8 {
        line_end(src, i + 1)
    } else {
        i
    }
}

pub proof fn lemma_line_end(src: Seq<u8>, i: int)
    requires
        0 <= i <= src.len(),
    ensures
        i <= line_end(src, i) <= src.len(),
    decreases src.len() - i,
{
    if i < src.len() && src[i] != 10u8 {
        lemma_line_end(src, i + 1);
    }
}

/// Where a block comment whose body starts at `i` ends, and whether it is closed.
pub open spec fn block_end(src: Seq<u8>, i: int) -> (int, bool)
    decreases src.len() - i,
{
    if 0 <= i < src.len() {
        if src[i] == 42u8 && i + 1 < src.len() && src[i + 1] == 47u8 {
            (i + 2, true)
        } else {
            block_end(src, i + 1)
        }
    } else {
        (i, false)
    }
}

pub proof fn lemma_block_end(src: Seq<u8>, i: int)
    requires
        0 <= i <= src.len(),
    ensures
        i <= block_end(src, i).0 <= src.len(),
        !block_end(src, i).1 ==> block_end(src, i).0 == src.len(),
    decreases src.len() - i,
{
    if i < src.len() && !(src[i] == 42u8 && i + 1 < src.len() && src[i + 1] == 47u8) {
        lemma_block_end(src, i + 1);
    }
}

pub open spec fn comment_hint() -> Seq<char> {
    "comments are valid in JSONC — enable mode: \"jsonc\" if this is a config file"@
}

/// Strict mode rejects the comment that started at `start` and ends here.
pub open spec fn comment_diag(m: LexModel, start: int) -> LexModel {
    if m.mode == Mode::Strict {
        m.diag(dm("E021"@, "comments are not allowed in strict JSON"@, sp(start, m.pos), Some(comment_hint()), Severity::Error))
    } else {
        m
    }
}

/// Skips whitespace and comments.
pub open spec fn spec_skip_trivia(m: LexModel) -> LexModel
    decreases m.len() - m.pos,
{
    if 0 <= m.pos < m.len() {
        let b = m.src[m.pos];
        if is_ws(b) {
            spec_skip_trivia(m.at_pos(m.pos + 1))
        } else if b == 47u8 && m.pos + 1 < m.len() && m.src[m.pos + 1] == 47u8 {
            let e = line_end(m.src, m.pos + 2);
            proof { lemma_line_end(m.src, m.pos + 2); }
            spec_skip_trivia(comment_diag(m.at_pos(e), m.pos))
        } else if b == 47u8 && m.pos + 1 < m.len() && m.src[m.pos + 1] == 42u8 {
            let (e, closed) = block_end(m.src, m.pos + 2);
            proof { lemma_block_end(m.src, m.pos + 2); }
            let m1 = m.at_pos(e);
            let m2 = if closed {
                m1
            } else {
                m1.diag(dm("E020"@, "unterminated block comment"@, sp(m.pos, e), None, Severity::Error))
            };
            spec_skip_trivia(comment_diag(m2, m.pos))
        } else {
            m
        }
    } else {
        m
    }
}

pub proof fn lemma_skip_trivia(m: LexModel)
    requires
        m.valid(),
    ensures
        spec_skip_trivia(m).valid(),
        spec_skip_trivia(m).src == m.src,
        spec_skip_trivia(m).mode == m.mode,
        spec_skip_trivia(m).keep == m.keep,
        m.pos <= spec_skip_trivia(m).pos,
        m.pos <= m.len() ==> spec_skip_trivia(m).pos <= m.len(),
    decreases m.len() - m.pos,
{
    if 0 <= m.pos < m.len() {
        let b = m.src[m.pos];
        if is_ws(b) {
            lemma_skip_trivia(m.at_pos(m.pos + 1));
        } else if b == 47u8 && m.pos + 1 < m.len() && m.src[m.pos + 1] == 47u8 {
            lemma_line_end(m.src, m.pos + 2);
            let e = line_end(m.src, m.pos + 2);
            lemma_skip_trivia(comment_diag(m.at_pos(e), m.pos));
        } else if b == 47u8 && m.pos + 1 < m.len() && m.src[m.pos + 1] == 42u8 {
            lemma_block_end(m.src, m.pos + 2);
            let (e, closed) = block_end(m.src, m.pos + 2);
            let m1 = m.at_pos(e);
            let m2 = if closed {
                m1
            } else {
                m1.diag(dm("E020"@, "unterminated block comment"@, sp(m.pos, e), None, Severity::Error))
            };
            lemma_skip_trivia(comment_diag(m2, m.pos));
        }
    }
}


// ----------------------------------------------------------------- strings

/// A byte that ends a run of plain string content.
pub open spec fn is_run_stop(b: u8, quote: u8) -> bool {
    b == quote || b == 92u8 || b < 32u8
}

/// The end of the run of plain bytes starting at `i`, scanned byte by byte.
pub open spec fn run_end(src: Seq<u8>, i: int, quote: u8) -> int
    decreases src.len() - i,
{
    if 0 <= i < src.len() && !is_run_stop(src[i], quote) {
        run_end(src, i + 1, quote)
    } else {
        i
    }
}

pub proof fn lemma_run_end(src: Seq<u8>, i: int, quote: u8)
    requires
        0 <= i <= src.len(),
    ensures
        i <= run_end(src, i, quote) <= src.len(),
        i < src.len() && !is_run_stop(src[i], quote) ==> i < run_end(src, i, quote),
    decreases src.len() - i,
{
    if i < src.len() && !is_run_stop(src[i], quote) {
        lemma_run_end(src, i + 1, quote);
    }
}

/// The length UTF-8 gives a sequence that starts with the byte `b`.
pub open spec fn utf8_len(b: u8) -> int {
    if b < 0x80u8 {
        1
    } else if b < 0xE0u8 {
        2
    } else if b < 0xF0u8 {
        3
    } else {
        4
    }
}

/// The end of the run of plain bytes starting at `i`, stepping by the length
/// each lead byte announces (it may step past the end of the input).
pub open spec fn run_end_utf8(src: Seq<u8>, i: int, quote: u8) -> int
    decreases src.len() + 4 - i,
{
    if 0 <= i < src.len() && !is_run_stop(src[i], quote) {
        run_end_utf8(src, i + utf8_len(src[i]), quote)
    } else {
        i
    }
}

pub proof fn lemma_run_end_utf8(src: Seq<u8>, i: int, quote: u8)
    requires
        0 <= i <= src.len() + 3,
    ensures
        i <= run_end_utf8(src, i, quote) <= src.len() + 3,
        i < src.len() && !is_run_stop(src[i], quote) ==> i < run_end_utf8(src, i, quote),
    decreases src.len() + 4 - i,
{
    if i < src.len() && !is_run_stop(src[i], quote) {
        lemma_run_end_utf8(src, i + utf8_len(src[i]), quote);
    }
}

/// The value of an ASCII hex digit.
pub open spec fn hex_val(b: u8) -> Option<u32> {
    if 48u8 <= b <= 57u8 {
        Some((b - 48) as u32)
    } else if 97u8 <= b <= 102u8 {
        Some((b - 87) as u32)
    } else if 65u8 <= b <= 70u8 {
        Some((b - 55) as u32)
    } else {
        None
    }
}

/// The four bytes at `p` read as four ASCII hex digits, either case.
pub open spec fn hex4(src: Seq<u8>, p: int) -> Option<u32> {
    if p < 0 || p + 4 > src.len() {
        None
    } else if hex_val(src[p]) is Some && hex_val(src[p + 1]) is Some && hex_val(src[p + 2]) is Some
        && hex_val(src[p + 3]) is Some {
        Some((hex_val(src[p])->0 * 4096 + hex_val(src[p + 1])->0 * 256 + hex_val(src[p + 2])->0 * 16
            + hex_val(src[p + 3])->0) as u32)
    } else {
        None
    }
}

pub open spec fn is_high_surrogate(c: u32) -> bool {
    0xD800 <= c <= 0xDBFF
}

pub open spec fn is_low_surrogate(c: u32) -> bool {
    0xDC00 <= c <= 0xDFFF
}

/// The character with code `c`, or U+FFFD when `c` is not a Unicode scalar.
pub open spec fn char_or_replacement(c: u32) -> char {
    if is_scalar_value(c) {
        c as char
    } else {
        '\u{FFFD}'
    }
}

pub open spec fn surrogate_hint() -> Seq<char> {
    "JSON.parse accepts this, but the string will contain an unpaired surrogate — many systems will corrupt or reject it"@
}

/// A lone surrogate escape ends here.
pub open spec fn surrogate_diag(m: LexModel) -> LexModel {
    m.diag(dm("W017"@, "lone surrogate in \\u escape"@, sp(sat_sub(m.pos, 6), m.pos), Some(surrogate_hint()), Severity::Warning))
}

/// A `\u` not followed by four hex digits; the lexer stands after the `u`.
pub open spec fn bad_hex_diag(m: LexModel) -> LexModel {
    m.diag(dm("E014"@, "invalid \\u escape"@, sp(sat_sub(m.pos, 2), m.pos), Some("expected four hex digits, e.g. \\u00e9"@), Severity::Error))
}

/// A `\u` escape whose `u` was just consumed: the new state and the characters
/// it stands for (empty when `keep` is off).
pub open spec fn spec_u_escape(m: LexModel) -> (LexModel, Seq<char>) {
    let p = m.pos;
    match hex4(m.src, p) {
        Some(hi) => {
            let m1 = m.at_pos(p + 4);
            if is_high_surrogate(hi) {
                if m1.at(p + 4) == Some(92u8) && m1.at(p + 5) == Some(117u8) {
                    let m2 = m1.at_pos(p + 6);
                    match hex4(m.src, p + 6) {
                        Some(lo) => {
                            let m3 = m2.at_pos(p + 10);
                            if is_low_surrogate(lo) {
                                (m3, seq![char_or_replacement((0x10000 + (hi - 0xD800) * 1024 + (lo - 0xDC00)) as u32)])
                            } else {
                                (surrogate_diag(m3), seq!['\u{FFFD}', char_or_replacement(lo)])
                            }
                        },
                        None => (bad_hex_diag(m2), seq!['\u{FFFD}']),
                    }
                } else {
                    (surrogate_diag(m1), seq!['\u{FFFD}'])
                }
            } else if is_low_surrogate(hi) {
                (surrogate_diag(m1), seq![char_or_replacement(hi)])
            } else {
                (m1, seq![char_or_replacement(hi)])
            }
        },
        None => (bad_hex_diag(m), Seq::empty()),
    }
}

pub open spec fn is_ascii_alpha(b: u8) -> bool {
    (65u8 <= b <= 90u8) || (97u8 <= b <= 122u8)
}

/// The string opened at `open` starts like `"C:`.
pub open spec fn looks_like_drive(src: Seq<u8>, open: int) -> bool {
    0 <= open && open + 3 < src.len() && is_ascii_alpha(src[open + 1]) && src[open + 2] == 58u8
}

/// The string opened at `open` starts like `"C:\`.
pub open spec fn is_win_path(src: Seq<u8>, open: int) -> bool {
    looks_like_drive(src, open) && src[open + 3] == 92u8
}

/// A control escape such as `\t` inside what looks like a Windows path.
pub open spec fn win_path_check(m: LexModel, open: int) -> LexModel {
    if looks_like_drive(m.src, open) {
        m.diag(dm("W051"@, "control escape in what looks like a Windows path"@, sp(open, m.pos),
            Some("\\t here is a TAB character, not a backslash + t — double every backslash: C:\\\\temp"@), Severity::Warning))
    } else {
        m
    }
}

pub open spec fn win_path_hint() -> Seq<char> {
    "this looks like a Windows path — double every backslash: C:\\\\Users\\\\..."@
}

/// An unknown escape; `esc` is the byte after the backslash, if any.
pub open spec fn bad_escape_diag(m: LexModel, open: int, esc: Option<u8>) -> LexModel {
    let c = match esc {
        Some(b) => byte_char(b),
        None => '?',
    };
    m.diag(dm("E015"@, "invalid escape sequence '\\"@ + seq![c] + "'"@, sp(sat_sub(m.pos, 2), m.pos),
        if is_win_path(m.src, open) { Some(win_path_hint()) } else { None }, Severity::Error))
}

/// The name and the suggested escape of a raw control byte.
pub open spec fn control_name(b: u8) -> (Seq<char>, Seq<char>) {
    if b == 9u8 {
        ("tab character"@, "\\t"@)
    } else if b == 11u8 {
        ("vertical tab"@, "\\u000b"@)
    } else if b == 12u8 {
        ("form feed"@, "\\f"@)
    } else {
        ("control character"@, "\\u0000-style escape"@)
    }
}

/// A raw control byte `b` at the current offset inside a string.
pub open spec fn control_char_diag(m: LexModel, b: u8) -> LexModel {
    let (name, esc) = control_name(b);
    m.diag(dm("E016"@, "unescaped "@ + name + " in string (0x"@ + hex2_upper(b) + ")"@, sp(m.pos, m.pos + 1),
        Some("replace it with "@ + esc), Severity::Error))
}

/// An invalid UTF-8 byte `byte` at offset `at` inside a string.
pub open spec fn utf8_diag(m: LexModel, at: int, byte: u8) -> LexModel {
    m.diag(dm("E027"@, "invalid UTF-8 byte (0x"@ + hex2_upper(byte) + ") in string"@, sp(at, at + 1),
        Some("this often means Latin-1/Windows-1252 text was pasted in — re-encode the input as UTF-8"@), Severity::Error))
}

/// Checks the run `src[s..e]` for invalid UTF-8, blaming its first invalid byte.
pub open spec fn check_run(m: LexModel, s: int, e: int) -> LexModel {
    let run = m.src.subrange(s, e);
    if valid_utf8(run) {
        m
    } else {
        utf8_diag(m, s + valid_up_to(run), run[valid_up_to(run)])
    }
}

/// The escape byte `esc` stands for a double quote, backslash or solidus,
/// or, inside a single-quoted string, for the apostrophe that closes it.
pub open spec fn is_plain_escape(esc: Option<u8>, quote: u8) -> bool {
    esc == Some(34u8) || esc == Some(92u8) || esc == Some(47u8) || (quote == 39u8 && esc == Some(39u8))
}

/// The escape byte `esc` stands for a control character.
pub open spec fn is_control_escape(esc: Option<u8>) -> bool {
    esc == Some(98u8) || esc == Some(102u8) || esc == Some(110u8) || esc == Some(114u8) || esc == Some(116u8)
}

/// The character a quote, backslash, solidus or control escape stands for.
pub open spec fn escape_char(b: u8) -> char {
    if b == 98u8 {
        '\u{8}'
    } else if b == 102u8 {
        '\u{C}'
    } else if b == 110u8 {
        '\n'
    } else if b == 114u8 {
        '\r'
    } else if b == 116u8 {
        '\t'
    } else {
        byte_char(b)
    }
}

pub open spec fn unterminated(m: LexModel, open: int) -> LexModel {
    m.diag(dm("E013"@, "unterminated string"@, sp(open, m.pos), None, Severity::Error))
}

pub open spec fn newline_in_string(m: LexModel, open: int) -> LexModel {
    m.diag(dm("E013"@, "unterminated string (newline reached)"@, sp(open, m.pos), Some("did you forget a closing quote?"@), Severity::Error))
}

/// One step through the body of a string: either the string ends, or the
/// lexer moves on with the updated control-escape flag and decoded text.
pub enum StrStep {
    Done(LexModel, Seq<char>),
    Next(LexModel, bool, Seq<char>),
}

/// One step through the body of a string opened at `open` and closed by
/// `quote`: `saw` records a control escape so far and `out` the decoded text.
/// When `keep` is off nothing is decoded and plain runs are scanned byte by byte.
pub open spec fn string_step(m: LexModel, quote: u8, open: int, saw: bool, out: Seq<char>) -> StrStep {
    match m.peek() {
        None => StrStep::Done(unterminated(m, open), out),
        Some(b) => {
            if b == quote {
                let m1 = m.at_pos(m.pos + 1);
                StrStep::Done(if saw { win_path_check(m1, open) } else { m1 }, out)
            } else if b == 10u8 {
                StrStep::Done(newline_in_string(m, open), out)
            } else if b == 92u8 {
                let esc = m.at(m.pos + 1);
                let m1 = m.at_pos(m.pos + 2);
                if is_plain_escape(esc, quote) {
                    StrStep::Next(m1, saw, if m.keep { out.push(escape_char(esc->0)) } else { out })
                } else if is_control_escape(esc) {
                    StrStep::Next(m1, true, if m.keep { out.push(escape_char(esc->0)) } else { out })
                } else if esc == Some(117u8) {
                    let (m2, cs) = spec_u_escape(m1);
                    StrStep::Next(m2, saw, if m.keep { out + cs } else { out })
                } else {
                    StrStep::Next(bad_escape_diag(m1, open, esc), saw, out)
                }
            } else if b < 32u8 {
                StrStep::Next(control_char_diag(m, b).at_pos(m.pos + 1), saw, out)
            } else if m.keep {
                let r = run_end_utf8(m.src, m.pos, quote);
                let e = if r > m.len() { m.len() } else { r };
                let run = m.src.subrange(m.pos, e);
                if valid_utf8(run) {
                    StrStep::Next(m.at_pos(e), saw, out + decode_utf8(run))
                } else {
                    StrStep::Next(utf8_diag(m.at_pos(e), m.pos + valid_up_to(run), run[valid_up_to(run)]), saw,
                        out + utf8_lossy(run))
                }
            } else {
                let e = run_end(m.src, m.pos, quote);
                StrStep::Next(check_run(m.at_pos(e), m.pos, e), saw, out)
            }
        },
    }
}

pub proof fn lemma_string_step(m: LexModel, quote: u8, open: int, saw: bool, out: Seq<char>)
    requires
        m.valid(),
    ensures
        match string_step(m, quote, open, saw, out) {
            StrStep::Done(m1, _) => m1.valid() && m1.src == m.src && m1.mode == m.mode && m1.keep == m.keep
                && m.pos <= m1.pos,
            StrStep::Next(m1, _, _) => m1.valid() && m1.src == m.src && m1.mode == m.mode && m1.keep == m.keep
                && m.pos < m1.pos,
        },
{
    match m.peek() {
        None => {},
        Some(b) => {
            if b == 92u8 {
                let m1 = m.at_pos(m.pos + 2);
                lemma_u_escape(m1);
            } else if b >= 32u8 && b != quote && b != 10u8 {
                lemma_run_end_utf8(m.src, m.pos, quote);
                lemma_run_end(m.src, m.pos, quote);
            }
        },
    }
}

/// The rest of the body of a string, stepped until it ends.
pub open spec fn spec_string_body(m: LexModel, quote: u8, open: int, saw: bool, out: Seq<char>) -> (LexModel, Seq<char>)
    decreases m.len() + 2 - m.pos,
{
    if !m.valid() {
        (m, out)
    } else {
        proof { lemma_string_step(m, quote, open, saw, out); }
        match string_step(m, quote, open, saw, out) {
            StrStep::Done(m1, o) => (m1, o),
            StrStep::Next(m1, s1, o1) => spec_string_body(m1, quote, open, s1, o1),
        }
    }
}

pub proof fn lemma_u_escape(m: LexModel)
    requires
        m.valid(),
    ensures
        spec_u_escape(m).0.valid(),
        spec_u_escape(m).0.src == m.src,
        spec_u_escape(m).0.mode == m.mode,
        spec_u_escape(m).0.keep == m.keep,
        m.pos <= spec_u_escape(m).0.pos,
        m.pos <= m.len() ==> spec_u_escape(m).0.pos <= m.len(),
        hex4(m.src, m.pos) is None ==> spec_u_escape(m).0.pos == m.pos,
{
}

/// A string token opened by `quote` at the current offset.
pub open spec fn spec_lex_string(m: LexModel, quote: u8) -> (LexModel, TokModel) {
    let (m1, out) = spec_string_body(m.at_pos(m.pos + 1), quote, m.pos, false, Seq::empty());
    (m1, TokModel::Str(out))
}

pub proof fn lemma_string_body(m: LexModel, quote: u8, open: int, saw: bool, out: Seq<char>)
    requires
        m.valid(),
    ensures
        spec_string_body(m, quote, open, saw, out).0.valid(),
        spec_string_body(m, quote, open, saw, out).0.src == m.src,
        spec_string_body(m, quote, open, saw, out).0.mode == m.mode,
        spec_string_body(m, quote, open, saw, out).0.keep == m.keep,
        m.pos <= spec_string_body(m, quote, open, saw, out).0.pos,
    decreases m.len() + 2 - m.pos,
{
    lemma_string_step(m, quote, open, saw, out);
    match string_step(m, quote, open, saw, out) {
        StrStep::Done(m1, o) => {},
        StrStep::Next(m1, s1, o1) => {
            lemma_string_body(m1, quote, open, s1, o1);
        },
    }
}

// ----------------------------------------------------------------- numbers

pub open spec fn is_digit(b: u8) -> bool {
    48u8 <= b <= 57u8
}

/// The first offset at or after `i` that does not hold a decimal digit.
pub open spec fn digits_end(src: Seq<u8>, i: int) -> int
    decreases src.len() - i,
{
    if 0 <= i < src.len() && is_digit(src[i]) {
        digits_end(src, i + 1)
    } else {
        i
    }
}

pub proof fn lemma_digits_end(src: Seq<u8>, i: int)
    requires
        0 <= i <= src.len(),
    ensures
        i <= digits_end(src, i) <= src.len(),
        forall|k: int| i <= k < digits_end(src, i) ==> is_digit(#[trigger] src[k]),
    decreases src.len() - i,
{
    if i < src.len() && is_digit(src[i]) {
        lemma_digits_end(src, i + 1);
    }
}

/// The value of a string of decimal digits.
pub open spec fn digits_value(s: Seq<u8>) -> nat
    decreases s.len(),
{
    if s.len() == 0 {
        0
    } else {
        digits_value(s.drop_last()) * 10 + (s.last() - 48) as nat
    }
}

/// The number of binary digits of `a`.
pub open spec fn bit_len(a: nat) -> nat
    decreases a,
{
    if a == 0 {
        0
    } else {
        1 + bit_len(a / 2)
    }
}

/// Two to the power `n`.
pub open spec fn two_pow(n: nat) -> nat
    decreases n,
{
    if n == 0 {
        1
    } else {
        2 * two_pow((n - 1) as nat)
    }
}

/// `a` rounded to 53 significant bits, ties to even: the magnitude of the
/// IEEE-754 double nearest to `a`.
pub open spec fn round_to_double(a: nat) -> nat {
    if bit_len(a) <= 53 {
        a
    } else {
        let p = two_pow((bit_len(a) - 53) as nat);
        let q = a / p;
        let r = a % p;
        if r * 2 > p || (r * 2 == p && q % 2 == 1) {
            (q + 1) * p
        } else {
            q * p
        }
    }
}

/// The double nearest to the magnitude `a` is infinite: rounding reaches
/// 2^1024, past the largest finite double.
pub open spec fn double_overflows(a: nat) -> bool {
    round_to_double(a) >= two_pow(1024)
}

/// The double nearest to `v` as it is written with no fraction digits: its
/// integer value, or `inf`, after a minus sign when `v` is negative.
pub open spec fn double_text(v: int) -> Seq<char> {
    let a = (if v < 0 { -v } else { v }) as nat;
    let body = if double_overflows(a) { "inf"@ } else { decimal(round_to_double(a)) };
    if v < 0 { "-"@ + body } else { body }
}

/// Bytes shown as characters, one each.
pub open spec fn ascii_text(s: Seq<u8>) -> Seq<char> {
    s.map_values(|b: u8| byte_char(b))
}

pub open spec fn all_digits(s: Seq<u8>) -> bool {
    forall|k: int| 0 <= k < s.len() ==> is_digit(#[trigger] s[k])
}

/// The value of the integer numeral `text` (an optional `-` and digits), of any length.
pub open spec fn numeral_value(text: Seq<u8>) -> Option<int> {
    let neg = text.len() > 0 && text[0] == 45u8;
    let digits = if neg { text.skip(1) } else { text };
    let a = digits_value(digits) as int;
    let v = if neg { -a } else { a };
    if digits.len() > 0 && all_digits(digits) {
        Some(v)
    } else {
        None
    }
}

/// The W050 message for the integer numeral `text`: present when the double
/// a JavaScript reader makes of it (nearest, ties to even) is not the same
/// number: a different integer, or infinite. 9007199254740992 is 2^53, the
/// end of the exactly representable range.
pub open spec fn precision_msg(text: Seq<u8>) -> Option<Seq<char>> {
    match numeral_value(text) {
        Some(v) => {
            let a = (if v < 0 { -v } else { v }) as nat;
            if a > 9007199254740992 && (round_to_double(a) != a || double_overflows(a)) {
                Some("integer exceeds JavaScript's safe range and loses precision ("@ + ascii_text(text) + " becomes "@
                    + double_text(v) + ")"@)
            } else {
                None
            }
        },
        None => None,
    }
}

/// An integer numeral ending here, that starts at `start`: warn when it loses precision.
pub open spec fn precision_check(m: LexModel, start: int) -> LexModel {
    match precision_msg(m.src.subrange(start, m.pos)) {
        Some(msg) => m.diag(dm("W050"@, msg, sp(start, m.pos),
            Some("store large IDs as strings, or parse with a lossless-number option"@), Severity::Warning)),
        None => m,
    }
}

/// The integer part of a number starting at the current offset (an optional
/// `-` and digits): the new state and the number of digits.
pub open spec fn spec_number_int(m: LexModel) -> (LexModel, int) {
    let start = m.pos;
    let p1 = if m.peek() == Some(45u8) { start + 1 } else { start };
    let p2 = digits_end(m.src, p1);
    let int_len = p2 - p1;
    let m1 = m.at_pos(p2);
    let m2 = if int_len > 1 && m.src[p1] == 48u8 {
        m1.diag(dm("E018"@, "numbers may not have leading zeros"@, sp(start, p2), None, Severity::Error))
    } else {
        m1
    };
    let m3 = if int_len == 0 {
        m2.diag(dm("E019"@, "expected digits in number"@, sp(start, p2 + 1), None, Severity::Error))
    } else {
        m2
    };
    (m3, int_len)
}

/// An optional fraction of the number that started at `start`; whether there was one.
pub open spec fn spec_number_frac(m: LexModel, start: int) -> (LexModel, bool) {
    if m.peek() == Some(46u8) {
        let p3 = digits_end(m.src, m.pos + 1);
        if p3 == m.pos + 1 {
            (m.at_pos(p3).diag(dm("E019"@, "expected digit after decimal point"@, sp(start, p3), None, Severity::Error)), true)
        } else {
            (m.at_pos(p3), true)
        }
    } else {
        (m, false)
    }
}

/// An optional exponent of the number that started at `start`; whether there was one.
pub open spec fn spec_number_exp(m: LexModel, start: int) -> (LexModel, bool) {
    if m.peek() == Some(101u8) || m.peek() == Some(69u8) {
        let q = m.pos + 1;
        let q1 = if m.at(q) == Some(43u8) || m.at(q) == Some(45u8) { q + 1 } else { q };
        let q2 = digits_end(m.src, q1);
        if q2 == q1 {
            (m.at_pos(q2).diag(dm("E019"@, "expected digit in exponent"@, sp(start, q2), None, Severity::Error)), true)
        } else {
            (m.at_pos(q2), true)
        }
    } else {
        (m, false)
    }
}

/// A number starting at the current offset (at a `-` or a digit, or just past
/// a `+` or `.` already reported). A plain integer of more than 15 digits is
/// checked for loss of precision.
pub open spec fn spec_lex_number(m: LexModel) -> (LexModel, TokModel) {
    let start = m.pos;
    let (m3, int_len) = spec_number_int(m);
    let (m4, has_frac) = spec_number_frac(m3, start);
    let (m5, has_exp) = spec_number_exp(m4, start);
    let m6 = if int_len > 15 && !has_frac && !has_exp { precision_check(m5, start) } else { m5 };
    (m6, TokModel::Num(sp(start, m6.pos)))
}

pub proof fn lemma_number_parts(m: LexModel, start: int)
    requires
        m.valid(),
        0 <= m.pos <= m.len(),
    ensures
        spec_number_int(m).0.valid() && spec_number_int(m).0.src == m.src && spec_number_int(m).0.mode == m.mode
            && spec_number_int(m).0.keep == m.keep && m.pos <= spec_number_int(m).0.pos <= m.len(),
        m.peek() == Some(45u8) || (m.peek() is Some && is_digit(m.peek()->0)) ==> m.pos < spec_number_int(m).0.pos,
        spec_number_frac(m, start).0.valid() && spec_number_frac(m, start).0.src == m.src
            && spec_number_frac(m, start).0.mode == m.mode && spec_number_frac(m, start).0.keep == m.keep
            && m.pos <= spec_number_frac(m, start).0.pos <= m.len(),
        spec_number_exp(m, start).0.valid() && spec_number_exp(m, start).0.src == m.src
            && spec_number_exp(m, start).0.mode == m.mode && spec_number_exp(m, start).0.keep == m.keep
            && m.pos <= spec_number_exp(m, start).0.pos <= m.len(),
{
    let p1 = if m.peek() == Some(45u8) { m.pos + 1 } else { m.pos };
    lemma_digits_end(m.src, p1);
    if m.pos < m.len() {
        lemma_digits_end(m.src, m.pos + 1);
        if m.pos + 1 < m.len() {
            lemma_digits_end(m.src, m.pos + 2);
        }
    }
}

pub proof fn lemma_lex_number(m: LexModel)
    requires
        m.valid(),
        0 <= m.pos <= m.len(),
    ensures
        spec_lex_number(m).0.valid(),
        spec_lex_number(m).0.src == m.src,
        spec_lex_number(m).0.mode == m.mode,
        spec_lex_number(m).0.keep == m.keep,
        m.pos <= spec_lex_number(m).0.pos <= m.len(),
        m.peek() == Some(45u8) || (m.peek() is Some && is_digit(m.peek()->0)) ==> m.pos < spec_lex_number(m).0.pos,
{
    let start = m.pos;
    lemma_number_parts(m, start);
    let (m3, int_len) = spec_number_int(m);
    lemma_number_parts(m3, start);
    let (m4, has_frac) = spec_number_frac(m3, start);
    lemma_number_parts(m4, start);
}

// ------------------------------------------------------------------ words

pub open spec fn is_ident_start(b: u8) -> bool {
    is_ascii_alpha(b) || b == 95u8 || b == 36u8
}

pub open spec fn is_ident_byte(b: u8) -> bool {
    is_ident_start(b) || is_digit(b)
}

/// The first offset at or after `i` that does not continue a bare word.
pub open spec fn ident_end(src: Seq<u8>, i: int) -> int
    decreases src.len() - i,
{
    if 0 <= i < src.len() && is_ident_byte(src[i]) {
        ident_end(src, i + 1)
    } else {
        i
    }
}

pub proof fn lemma_ident_end(src: Seq<u8>, i: int)
    requires
        0 <= i <= src.len(),
    ensures
        i <= ident_end(src, i) <= src.len(),
        i < src.len() && is_ident_byte(src[i]) ==> i < ident_end(src, i),
    decreases src.len() - i,
{
    if i < src.len() && is_ident_byte(src[i]) {
        lemma_ident_end(src, i + 1);
    }
}

/// A bare word starting at the current offset: a literal, a recognised
/// mistake (reported), or an identifier kept for hints and recovery.
pub open spec fn spec_lex_ident(m: LexModel) -> (LexModel, TokModel) {
    let start = m.pos;
    let e = ident_end(m.src, start);
    let w = ascii_text(m.src.subrange(start, e));
    let m1 = m.at_pos(e);
    let sp1 = sp(start, e);
    if w == "true"@ {
        (m1, TokModel::True)
    } else if w == "false"@ {
        (m1, TokModel::False)
    } else if w == "null"@ {
        (m1, TokModel::Null)
    } else if w == "True"@ {
        (m1.diag(dm("E030"@, "'True' is not valid JSON"@, sp1, Some("this looks like a Python literal — use 'true'"@), Severity::Error)), TokModel::True)
    } else if w == "False"@ {
        (m1.diag(dm("E030"@, "'False' is not valid JSON"@, sp1, Some("this looks like a Python literal — use 'false'"@), Severity::Error)), TokModel::False)
    } else if w == "None"@ {
        (m1.diag(dm("E030"@, "'None' is not valid JSON"@, sp1, Some("this looks like a Python literal — use 'null'"@), Severity::Error)), TokModel::Null)
    } else if w == "NaN"@ {
        (m1.diag(dm("E031"@, "'NaN' is not valid JSON"@, sp1,
            Some("valid in JSON5 only; JSON has no representation for it"@), Severity::Error)), TokModel::Num(sp1))
    } else if w == "Infinity"@ {
        (m1.diag(dm("E031"@, "'Infinity' is not valid JSON"@, sp1,
            Some("valid in JSON5 only; JSON has no representation for it"@), Severity::Error)), TokModel::Num(sp1))
    } else if w == "undefined"@ {
        (m1.diag(dm("E030"@, "'undefined' is not valid JSON"@, sp1, Some("use 'null'"@), Severity::Error)), TokModel::Null)
    } else {
        (m1, TokModel::Ident(w))
    }
}

// ----------------------------------------------------------------- tokens

/// A typographic quote (U+2018, U+2019, U+201C or U+201D) is encoded at `i`.
pub open spec fn is_smart_quote_at(src: Seq<u8>, i: int) -> bool {
    &&& 0 <= i && i + 2 < src.len()
    &&& src[i] == 0xE2u8 && src[i + 1] == 0x80u8
    &&& (src[i + 2] == 0x98u8 || src[i + 2] == 0x99u8 || src[i + 2] == 0x9Cu8 || src[i + 2] == 0x9Du8)
}

/// A byte that ends the recovery scan of a smart-quoted string.
pub open spec fn is_smart_stop(b: u8) -> bool {
    b == 44u8 || b == 58u8 || b == 125u8 || b == 93u8 || b == 10u8
}

/// Where the text of a smart-quoted string ends, and whether a closing smart quote ends it.
pub open spec fn smart_end(src: Seq<u8>, i: int) -> (int, bool)
    decreases src.len() - i,
{
    if 0 <= i < src.len() {
        if is_smart_quote_at(src, i) {
            (i, true)
        } else if is_smart_stop(src[i]) {
            (i, false)
        } else {
            smart_end(src, i + 1)
        }
    } else {
        (i, false)
    }
}

pub proof fn lemma_smart_end(src: Seq<u8>, i: int)
    requires
        0 <= i <= src.len(),
    ensures
        i <= smart_end(src, i).0 <= src.len(),
        smart_end(src, i).1 ==> smart_end(src, i).0 + 3 <= src.len(),
    decreases src.len() - i,
{
    if i < src.len() && !is_smart_quote_at(src, i) && !is_smart_stop(src[i]) {
        lemma_smart_end(src, i + 1);
    }
}

/// A string opened by a smart quote at the current offset: reported, then its
/// text taken up to the closing smart quote or the next structural byte.
pub open spec fn spec_smart_string(m: LexModel) -> (LexModel, TokenModel) {
    let start = m.pos;
    let m1 = m.diag(dm("E011"@, "smart quote found where a string was expected"@, sp(start, start + 3),
        Some("this looks like text pasted from a word processor — replace “ ” with straight quotes \""@), Severity::Error));
    let (e, closed) = smart_end(m.src, start + 3);
    let text = utf8_lossy(m.src.subrange(start + 3, e));
    if closed {
        (m1.at_pos(e + 3), tk(TokModel::Str(text), start, e + 3))
    } else {
        (m1.at_pos(e), tk(TokModel::Str(text), start, e))
    }
}

pub open spec fn is_token_end(b: u8) -> bool {
    b == 123u8 || b == 125u8 || b == 91u8 || b == 93u8 || b == 58u8 || b == 44u8
}

pub open spec fn punct(b: u8) -> TokModel {
    if b == 123u8 {
        TokModel::LBrace
    } else if b == 125u8 {
        TokModel::RBrace
    } else if b == 91u8 {
        TokModel::LBracket
    } else if b == 93u8 {
        TokModel::RBracket
    } else if b == 58u8 {
        TokModel::Colon
    } else {
        TokModel::Comma
    }
}

/// The byte at the current offset starts a token.
pub open spec fn starts_token(m: LexModel) -> bool {
    let b = m.src[m.pos];
    ||| is_token_end(b)
    ||| b == 34u8 || b == 39u8
    ||| (b == 0xE2u8 && is_smart_quote_at(m.src, m.pos))
    ||| b == 45u8 || is_digit(b) || b == 43u8 || b == 46u8
    ||| is_ident_start(b)
}

/// A byte that starts no token is reported and skipped.
pub open spec fn skip_bad_byte(m: LexModel) -> LexModel {
    let start = m.pos;
    let b = m.src[start];
    let msg = if b == 0xE2u8 { "unexpected character"@ } else { "unexpected character (0x"@ + hex2_upper(b) + ")"@ };
    m.at_pos(start + 1).diag(dm("E001"@, msg, sp(start, start + 1), None, Severity::Error))
}

/// The token that starts at the current offset.
pub open spec fn spec_lex_token(m1: LexModel) -> (LexModel, TokenModel) {
    let start = m1.pos;
    let b = m1.src[start];
    if is_token_end(b) {
        (m1.at_pos(start + 1), tk(punct(b), start, start + 1))
    } else if b == 34u8 {
        let (m2, t) = spec_lex_string(m1, 34u8);
        (m2, tk(t, start, m2.pos))
    } else if b == 39u8 {
        let m2 = m1.diag(dm("E010"@, "strings must use double quotes"@, sp(start, start + 1),
            Some("single-quoted strings are valid in JSON5 but not JSON/JSONC"@), Severity::Error));
        let (m3, t) = spec_lex_string(m2, 39u8);
        (m3, tk(t, start, m3.pos))
    } else if b == 0xE2u8 {
        spec_smart_string(m1)
    } else if b == 45u8 || is_digit(b) {
        let (m2, t) = spec_lex_number(m1);
        (m2, tk(t, start, m2.pos))
    } else if b == 43u8 || b == 46u8 {
        let m2 = m1.diag(dm("E012"@, "numbers cannot start with '"@ + seq![byte_char(b)] + "'"@, sp(start, start + 1),
            Some("valid in JSON5, not JSON/JSONC"@), Severity::Error)).at_pos(start + 1);
        let (m3, t) = spec_lex_number(m2);
        (m3, tk(t, start, m3.pos))
    } else {
        let (m2, t) = spec_lex_ident(m1);
        (m2, tk(t, start, m2.pos))
    }
}

pub proof fn lemma_lex_token(m1: LexModel)
    requires
        m1.valid(),
        0 <= m1.pos < m1.len(),
        starts_token(m1),
    ensures
        spec_lex_token(m1).0.valid(),
        spec_lex_token(m1).0.src == m1.src,
        spec_lex_token(m1).0.mode == m1.mode,
        spec_lex_token(m1).0.keep == m1.keep,
        m1.pos < spec_lex_token(m1).0.pos,
        !(spec_lex_token(m1).1.tok is Eof),
        spec_lex_token(m1).1.span == sp(m1.pos, spec_lex_token(m1).0.pos),
{
    let start = m1.pos;
    let b = m1.src[start];
    if is_token_end(b) {
    } else if b == 34u8 {
        lemma_string_body(m1.at_pos(start + 1), 34u8, start, false, Seq::empty());
    } else if b == 39u8 {
        let m2 = m1.diag(dm("E010"@, "strings must use double quotes"@, sp(start, start + 1),
            Some("single-quoted strings are valid in JSON5 but not JSON/JSONC"@), Severity::Error));
        lemma_string_body(m2.at_pos(start + 1), 39u8, start, false, Seq::empty());
    } else if b == 0xE2u8 {
        lemma_smart_end(m1.src, start + 3);
    } else if b == 45u8 || is_digit(b) {
        lemma_lex_number(m1);
    } else if b == 43u8 || b == 46u8 {
        let m2 = m1.diag(dm("E012"@, "numbers cannot start with '"@ + seq![byte_char(b)] + "'"@, sp(start, start + 1),
            Some("valid in JSON5, not JSON/JSONC"@), Severity::Error)).at_pos(start + 1);
        lemma_lex_number(m2);
    } else {
        lemma_ident_end(m1.src, start);
    }
}

/// The next token, and the lexer after it. Bytes that start no token are
/// reported and skipped.
pub open spec fn spec_next_token(m: LexModel) -> (LexModel, TokenModel)
    decreases m.len() + 2 - m.pos,
{
    if !m.valid() {
        (m, tk(TokModel::Eof, m.pos, m.pos))
    } else {
        let m1 = spec_skip_trivia(m);
        proof { lemma_skip_trivia(m); }
        if !(0 <= m1.pos < m1.len()) {
            (m1, tk(TokModel::Eof, m1.pos, m1.pos))
        } else if starts_token(m1) {
            spec_lex_token(m1)
        } else {
            spec_next_token(skip_bad_byte(m1))
        }
    }
}

pub proof fn lemma_next_token(m: LexModel)
    requires
        m.valid(),
    ensures
        spec_next_token(m).0.valid(),
        spec_next_token(m).0.src == m.src,
        spec_next_token(m).0.mode == m.mode,
        spec_next_token(m).0.keep == m.keep,
        m.pos <= spec_next_token(m).0.pos,
        spec_next_token(m).1.tok is Eof ==> spec_next_token(m).0.pos >= m.len(),
        !(spec_next_token(m).1.tok is Eof) ==> m.pos < spec_next_token(m).0.pos,
        !(spec_next_token(m).1.tok is Eof) ==> spec_next_token(m).1.span.start < m.len()
            && spec_next_token(m).1.span.start < spec_next_token(m).1.span.end
            && spec_next_token(m).1.span.end == spec_next_token(m).0.pos,
    decreases m.len() + 2 - m.pos,
{
    lemma_skip_trivia(m);
    let m1 = spec_skip_trivia(m);
    if 0 <= m1.pos < m1.len() {
        if starts_token(m1) {
            lemma_lex_token(m1);
        } else {
            lemma_next_token(skip_bad_byte(m1));
        }
    }
}

/// The input looks UTF-16 or UTF-32 encoded: a UTF-16 byte-order mark, or
/// ASCII interleaved with zero bytes.
pub open spec fn is_wide_encoding(src: Seq<u8>) -> bool {
    ||| (src.len() >= 2 && src[0] == 0xFFu8 && src[1] == 0xFEu8)
    ||| (src.len() >= 2 && src[0] == 0xFEu8 && src[1] == 0xFFu8)
    ||| (src.len() >= 4 && src[0] != 0u8 && src[1] == 0u8 && src[3] == 0u8)
    ||| (src.len() >= 4 && src[0] == 0u8 && src[2] == 0u8)
}

pub open spec fn has_utf8_bom(src: Seq<u8>) -> bool {
    src.len() >= 3 && src[0] == 0xEFu8 && src[1] == 0xBBu8 && src[2] == 0xBFu8
}

/// A fresh lexer: wide encodings are reported once and the input skipped;
/// a UTF-8 byte-order mark is skipped, an error in strict mode and a warning in JSONC.
pub open spec fn spec_lexer_new(src: Seq<u8>, mode: Mode) -> LexModel {
    let m0 = LexModel { src, mode, keep: true, pos: 0, diags: Seq::empty() };
    if is_wide_encoding(src) {
        m0.at_pos(src.len() as int).diag(dm("E026"@, "input appears to be UTF-16/UTF-32 encoded, not UTF-8"@,
            sp(0, if src.len() < 4 { src.len() as int } else { 4 }),
            Some("common with files saved by Windows tools (PowerShell, Visual Studio) — re-save as UTF-8"@), Severity::Error))
    } else if has_utf8_bom(src) {
        m0.at_pos(3).diag(dm(if mode == Mode::Strict { "E025"@ } else { "W001"@ }, "leading UTF-8 byte-order mark (BOM)"@,
            sp(0, 3), Some("some Windows editors add this — save as UTF-8 without BOM, or parse in jsonc mode"@),
            if mode == Mode::Strict { Severity::Error } else { Severity::Warning }))
    } else {
        m0
    }
}

} // verus!
