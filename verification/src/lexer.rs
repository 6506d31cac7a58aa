//! The lexer: bytes to tokens, recording every problem it meets and recovering.
use vstd::prelude::*;
use vstd::utf8::*;
use vstd::slice::slice_subrange;
use crate::diag::{diags_view, opt_string_view, DiagModel, Diagnostic, Severity, Span, MAX_DIAGNOSTICS};
use crate::text::{
    char_from_u32, char_of_byte, from_utf8, from_utf8_lossy, lemma_valid_up_to_unique, push_char,
    push_hex2_upper, valid_up_to,
};
use crate::lex_spec::{
    LexModel, Mode, StrStep, TokModel, TokenModel, ascii_text, bad_escape_diag, bad_hex_diag,
    block_end, comment_diag, control_char_diag, digits_end, dm, hex4, hex_val, ident_end,
    is_ascii_alpha, is_smart_quote_at, is_win_path, lemma_block_end, lemma_digits_end,
    lemma_ident_end, lemma_line_end, lemma_number_parts, lemma_run_end, lemma_run_end_utf8,
    lemma_skip_trivia, lemma_smart_end, lemma_string_step, lemma_u_escape, line_end,
    precision_check, run_end, run_end_utf8, smart_end, sp, spec_lex_ident, spec_lex_number,
    spec_lex_string, spec_lex_token, skip_bad_byte, spec_lexer_new, spec_next_token, spec_number_exp, spec_number_frac,
    spec_number_int, spec_skip_trivia, spec_smart_string, spec_string_body, spec_u_escape,
    starts_token, string_step, surrogate_diag, unterminated, utf8_diag, win_path_check,
};
use crate::precision::{opt_view, precision_message};

verus! {

#[derive(Debug, Clone, PartialEq)]
pub enum Tok {
    LBrace,
    RBrace,
    LBracket,
    RBracket,
    Colon,
    Comma,
    Str(String),
    /// A number; the span is that of the numeral its value is read from.
    Num(Span),
    True,
    False,
    Null,
    /// Bare word: unquoted key, Python literal, etc. Kept for hints/recovery.
    Ident(String),
    Eof,
}

impl View for Tok {
    type V = TokModel;

    open spec fn view(&self) -> TokModel {
        match self {
            Tok::LBrace => TokModel::LBrace,
            Tok::RBrace => TokModel::RBrace,
            Tok::LBracket => TokModel::LBracket,
            Tok::RBracket => TokModel::RBracket,
            Tok::Colon => TokModel::Colon,
            Tok::Comma => TokModel::Comma,
            Tok::Str(s) => TokModel::Str(s@),
            Tok::Num(sp) => TokModel::Num(*sp),
            Tok::True => TokModel::True,
            Tok::False => TokModel::False,
            Tok::Null => TokModel::Null,
            Tok::Ident(s) => TokModel::Ident(s@),
            Tok::Eof => TokModel::Eof,
        }
    }
}

impl Tok {
    pub fn is_eof(&self) -> (r: bool)
        ensures
            r == (self@ is Eof),
    {
        match self {
            Tok::Eof => true,
            _ => false,
        }
    }

    pub fn is_comma(&self) -> (r: bool)
        ensures
            r == (self@ is Comma),
    {
        match self {
            Tok::Comma => true,
            _ => false,
        }
    }

    pub fn is_colon(&self) -> (r: bool)
        ensures
            r == (self@ is Colon),
    {
        match self {
            Tok::Colon => true,
            _ => false,
        }
    }

    pub fn is_rbrace(&self) -> (r: bool)
        ensures
            r == (self@ is RBrace),
    {
        match self {
            Tok::RBrace => true,
            _ => false,
        }
    }

    pub fn is_rbracket(&self) -> (r: bool)
        ensures
            r == (self@ is RBracket),
    {
        match self {
            Tok::RBracket => true,
            _ => false,
        }
    }

    pub fn is_lbrace(&self) -> (r: bool)
        ensures
            r == (self@ is LBrace),
    {
        match self {
            Tok::LBrace => true,
            _ => false,
        }
    }

    pub fn is_lbracket(&self) -> (r: bool)
        ensures
            r == (self@ is LBracket),
    {
        match self {
            Tok::LBracket => true,
            _ => false,
        }
    }

    /// An opening brace or bracket.
    pub fn is_opener(&self) -> (r: bool)
        ensures
            r == (self@ is LBrace || self@ is LBracket),
    {
        match self {
            Tok::LBrace | Tok::LBracket => true,
            _ => false,
        }
    }
}

#[derive(Debug, Clone)]
pub struct Token {
    pub tok: Tok,
    pub span: Span,
}

impl View for Token {
    type V = TokenModel;

    open spec fn view(&self) -> TokenModel {
        TokenModel { tok: self.tok@, span: self.span }
    }
}

pub struct Lexer<'a> {
    src: &'a [u8],
    pos: usize,
    mode: Mode,
    pub keep_strings: bool,
    pub diagnostics: Vec<Diagnostic>,
}

impl<'a> View for Lexer<'a> {
    type V = LexModel;

    closed spec fn view(&self) -> LexModel {
        LexModel {
            src: self.src@,
            mode: self.mode,
            keep: self.keep_strings,
            pos: self.pos as int,
            diags: diags_view(self.diagnostics@),
        }
    }
}

pub fn utf8_len(b: u8) -> (n: usize)
    ensures
        n == crate::lex_spec::utf8_len(b),
{
    if b < 0x80 {
        1
    } else if b < 0xE0 {
        2
    } else if b < 0xF0 {
        3
    } else {
        4
    }
}

fn hex_digit(b: u8) -> (r: Option<u32>)
    ensures
        r == hex_val(b),
{
    if 48 <= b && b <= 57 {
        Some((b - 48) as u32)
    } else if 97 <= b && b <= 102 {
        Some((b - 87) as u32)
    } else if 65 <= b && b <= 70 {
        Some((b - 55) as u32)
    } else {
        None
    }
}

fn is_alpha(b: u8) -> (r: bool)
    ensures
        r == is_ascii_alpha(b),
{
    (65 <= b && b <= 90) || (97 <= b && b <= 122)
}

impl<'a> Lexer<'a> {
    pub fn new(src: &'a [u8], mode: Mode) -> (lx: Self)
        requires
            src@.len() + 16 <= usize::MAX,
        ensures
            lx@ == spec_lexer_new(src@, mode),
            lx@.valid(),
    {
        let mut lx = Lexer { src, pos: 0, mode, keep_strings: true, diagnostics: Vec::new() };
        proof {
            assert(diags_view(lx.diagnostics@) =~= Seq::<DiagModel>::empty());
        }
        // UTF-16/32 input produces useless garbage-cascade errors downstream;
        // detect it up front and emit one clear diagnostic instead.
        let n = src.len();
        let utf16 = (n >= 2 && src[0] == 0xFF && src[1] == 0xFE) || (n >= 2 && src[0] == 0xFE && src[1] == 0xFF)
            || (n >= 4 && src[0] != 0 && src[1] == 0 && src[3] == 0)
            || (n >= 4 && src[0] == 0 && src[2] == 0);
        if utf16 {
            lx.pos = n;  // suppress the garbage cascade
            lx.diag(
                "E026",
                String::from_str("input appears to be UTF-16/UTF-32 encoded, not UTF-8"),
                Span { start: 0, end: if n < 4 { n } else { 4 } },
                Some(String::from_str("common with files saved by Windows tools (PowerShell, Visual Studio) — re-save as UTF-8")),
                Severity::Error,
            );
            return lx;
        }
        if n >= 3 && src[0] == 0xEF && src[1] == 0xBB && src[2] == 0xBF {
            lx.pos = 3;
            let strict = match mode {
                Mode::Strict => true,
                Mode::Jsonc => false,
            };
            let (code, sev) = if strict {
                ("E025", Severity::Error)  // JSON.parse rejects a BOM; so does strict mode
            } else {
                ("W001", Severity::Warning)
            };
            lx.diag(
                code,
                String::from_str("leading UTF-8 byte-order mark (BOM)"),
                Span { start: 0, end: 3 },
                Some(String::from_str("some Windows editors add this — save as UTF-8 without BOM, or parse in jsonc mode")),
                sev,
            );
        }
        lx
    }

    pub fn set_keep_strings(&mut self, keep: bool)
        ensures
            final(self)@ == (LexModel { keep, ..old(self)@ }),
    {
        self.keep_strings = keep;
    }

    pub fn into_diagnostics(self) -> (d: Vec<Diagnostic>)
        ensures
            diags_view(d@) == self@.diags,
    {
        self.diagnostics
    }

    pub fn position(&self) -> (p: usize)
        ensures
            p as int == self@.pos,
    {
        self.pos
    }

    pub fn source(&self) -> (s: &'a [u8])
        ensures
            s@ == self@.src,
    {
        self.src
    }

    fn diag(&mut self, code: &'static str, msg: String, span: Span, hint: Option<String>, sev: Severity)
        ensures
            final(self)@ == old(self)@.diag(dm(code@, msg@, span, opt_string_view(hint), sev)),
    {
        if self.diagnostics.len() < MAX_DIAGNOSTICS {
            let d = Diagnostic { code, message: msg, span, hint, severity: sev, related: None };
            let ghost old_d = self.diagnostics@;
            self.diagnostics.push(d);
            proof {
                assert(diags_view(self.diagnostics@) =~= diags_view(old_d).push(d@));
            }
        }
    }

    fn at(&self, i: usize) -> (r: Option<u8>)
        ensures
            r == self@.at(i as int),
    {
        if i < self.src.len() {
            Some(self.src[i])
        } else {
            None
        }
    }

    fn peek(&self) -> (r: Option<u8>)
        ensures
            r == self@.peek(),
    {
        self.at(self.pos)
    }

    fn skip_trivia(&mut self)
        requires
            old(self)@.valid(),
        ensures
            final(self)@ == spec_skip_trivia(old(self)@),
    {
        loop
            invariant
                self@.valid(),
                spec_skip_trivia(self@) == spec_skip_trivia(old(self)@),
            ensures
                self@ == spec_skip_trivia(old(self)@),
            decreases self.src@.len() + 2 - self.pos,
        {
            let ghost m = self@;
            let b = match self.peek() {
                Some(b) => b,
                None => break,
            };
            if b == 32 || b == 9 || b == 13 || b == 10 {
                self.pos += 1;
            } else if b == 47 {
                let start = self.pos;
                match self.at(self.pos + 1) {
                    Some(47) => {
                        proof {
                            assert(line_end(m.src, start as int) == line_end(m.src, start + 1));
                            assert(line_end(m.src, start + 1) == line_end(m.src, start + 2));
                            lemma_line_end(m.src, start + 2);
                        }
                        while self.pos < self.src.len() && self.src[self.pos] != 10
                            invariant
                                start <= self.pos <= self.src@.len(),
                                self@ == m.at_pos(self.pos as int),
                                line_end(m.src, self.pos as int) == line_end(m.src, start + 2),
                            decreases self.src@.len() - self.pos,
                        {
                            self.pos += 1;
                        }
                        self.comment_diag(start);
                    },
                    Some(42) => {
                        self.pos += 2;
                        proof { lemma_block_end(m.src, start + 2); }
                        let mut closed = false;
                        while self.pos < self.src.len()
                            invariant_except_break
                                start + 2 <= self.pos <= self.src@.len(),
                                self@ == m.at_pos(self.pos as int),
                                !closed,
                                block_end(m.src, self.pos as int) == block_end(m.src, start + 2),
                            ensures
                                self@ == m.at_pos(self.pos as int),
                                (self.pos as int, closed) == block_end(m.src, start + 2),
                            decreases self.src@.len() - self.pos,
                        {
                            if self.src[self.pos] == 42 && self.at(self.pos + 1) == Some(47u8) {
                                self.pos += 2;
                                closed = true;
                                break;
                            }
                            self.pos += 1;
                        }
                        if !closed {
                            self.diag("E020", String::from_str("unterminated block comment"),
                                Span { start, end: self.pos }, None, Severity::Error);
                        }
                        self.comment_diag(start);
                    },
                    _ => break,
                }
            } else {
                break;
            }
        }
    }

    fn comment_diag(&mut self, start: usize)
        ensures
            final(self)@ == comment_diag(old(self)@, start as int),
    {
        if let Mode::Strict = self.mode {
            self.diag("E021", String::from_str("comments are not allowed in strict JSON"),
                Span { start, end: self.pos },
                Some(String::from_str("comments are valid in JSONC — enable mode: \"jsonc\" if this is a config file")),
                Severity::Error);
        }
    }

    /// The next token; bytes that start no token are reported and skipped.
    pub fn next_token(&mut self) -> (t: Token)
        requires
            old(self)@.valid(),
        ensures
            (final(self)@, t@) == spec_next_token(old(self)@),
            final(self)@.valid(),
    {
        proof { crate::lex_spec::lemma_next_token(self@); }
        loop
            invariant
                self@.valid(),
                spec_next_token(self@) == spec_next_token(old(self)@),
                spec_next_token(old(self)@).0.valid(),
            decreases self.src@.len() + 2 - self.pos,
        {
            let ghost m = self@;
            proof { lemma_skip_trivia(m); }
            self.skip_trivia();
            let start = self.pos;
            if start >= self.src.len() {
                return Token { tok: Tok::Eof, span: Span { start, end: start } };
            }
            if self.starts_token() {
                return self.lex_token();
            }
            self.skip_bad_byte();
        }
    }

    fn starts_token(&self) -> (r: bool)
        requires
            self@.valid(),
            0 <= self@.pos < self@.len(),
        ensures
            r == starts_token(self@),
    {
        let b = self.src[self.pos];
        b == 123 || b == 125 || b == 91 || b == 93 || b == 58 || b == 44 || b == 34 || b == 39
            || (b == 0xE2 && self.is_smart_quote(self.pos)) || b == 45 || (48 <= b && b <= 57) || b == 43
            || b == 46 || is_alpha(b) || b == 95 || b == 36
    }

    /// A byte that starts no token: reported, then skipped.
    fn skip_bad_byte(&mut self)
        requires
            old(self)@.valid(),
            0 <= old(self)@.pos < old(self)@.len(),
        ensures
            final(self)@ == skip_bad_byte(old(self)@),
    {
        let start = self.pos;
        let b = self.src[start];
        self.pos += 1;
        if b == 0xE2 {
            self.diag("E001", String::from_str("unexpected character"), Span { start, end: self.pos }, None,
                Severity::Error);
        } else {
            let mut msg = String::from_str("unexpected character (0x");
            push_hex2_upper(&mut msg, b);
            msg.append(")");
            self.diag("E001", msg, Span { start, end: self.pos }, None, Severity::Error);
        }
    }

    /// The token that starts at the current offset.
    fn lex_token(&mut self) -> (t: Token)
        requires
            old(self)@.valid(),
            0 <= old(self)@.pos < old(self)@.len(),
            starts_token(old(self)@),
        ensures
            (final(self)@, t@) == spec_lex_token(old(self)@),
    {
        let start = self.pos;
        let b = self.src[start];
        let simple = if b == 123 {
            Some(Tok::LBrace)
        } else if b == 125 {
            Some(Tok::RBrace)
        } else if b == 91 {
            Some(Tok::LBracket)
        } else if b == 93 {
            Some(Tok::RBracket)
        } else if b == 58 {
            Some(Tok::Colon)
        } else if b == 44 {
            Some(Tok::Comma)
        } else {
            None
        };
        if let Some(tok) = simple {
            self.pos += 1;
            return Token { tok, span: Span { start, end: self.pos } };
        }
        if b == 34 {
            let tok = self.lex_string(34);
            Token { tok, span: Span { start, end: self.pos } }
        } else if b == 39 {
            self.diag("E010", String::from_str("strings must use double quotes"),
                Span { start, end: start + 1 },
                Some(String::from_str("single-quoted strings are valid in JSON5 but not JSON/JSONC")),
                Severity::Error);
            let tok = self.lex_string(39);
            Token { tok, span: Span { start, end: self.pos } }
        } else if b == 0xE2 {
            // Smart quotes from copy-paste: U+201C/201D (E2 80 9C/9D), U+2018/2019 (E2 80 98/99)
            self.smart_string()
        } else if b == 45 || (48 <= b && b <= 57) {
            let tok = self.lex_number();
            Token { tok, span: Span { start, end: self.pos } }
        } else if b == 43 || b == 46 {
            let mut msg = String::from_str("numbers cannot start with '");
            push_char(&mut msg, char_of_byte(b));
            msg.append("'");
            assert(msg@ =~= "numbers cannot start with '"@ + seq![char_of_byte_spec(b)] + "'"@);
            self.diag("E012", msg, Span { start, end: start + 1 },
                Some(String::from_str("valid in JSON5, not JSON/JSONC")), Severity::Error);
            self.pos += 1;
            let tok = self.lex_number();
            Token { tok, span: Span { start, end: self.pos } }
        } else {
            let tok = self.lex_ident();
            Token { tok, span: Span { start, end: self.pos } }
        }
    }

    fn is_smart_quote(&self, i: usize) -> (r: bool)
        requires
            self@.valid(),
            i <= self@.len(),
        ensures
            r == is_smart_quote_at(self@.src, i as int),
    {
        i + 2 < self.src.len() && self.src[i] == 0xE2 && self.src[i + 1] == 0x80
            && (self.src[i + 2] == 0x98 || self.src[i + 2] == 0x99 || self.src[i + 2] == 0x9C
            || self.src[i + 2] == 0x9D)
    }

    /// A string opened by a smart quote: reported, then recovered up to the
    /// matching closing smart quote or a structural byte.
    #[verifier::loop_isolation(false)]
    fn smart_string(&mut self) -> (t: Token)
        requires
            old(self)@.valid(),
            is_smart_quote_at(old(self)@.src, old(self)@.pos),
        ensures
            (final(self)@, t@) == spec_smart_string(old(self)@),
    {
        let start = self.pos;
        self.diag("E011", String::from_str("smart quote found where a string was expected"),
            Span { start, end: start + 3 },
            Some(String::from_str("this looks like text pasted from a word processor — replace “ ” with straight quotes \"")),
            Severity::Error);
        self.pos += 3;
        let ghost m1 = self@;
        let s_start = self.pos;
        proof { lemma_smart_end(m1.src, s_start as int); }
        while self.pos < self.src.len()
            invariant
                m1.valid(),
                s_start <= self.pos <= self.src@.len(),
                self@ == m1.at_pos(self.pos as int),
                smart_end(m1.src, self.pos as int) == smart_end(m1.src, s_start as int),
            decreases self.src@.len() - self.pos,
        {
            let c = self.src[self.pos];
            if self.is_smart_quote(self.pos) {
                assert(smart_end(m1.src, self.pos as int) == (self.pos as int, true));
                let text = from_utf8_lossy(slice_subrange(self.src, s_start, self.pos));
                self.pos += 3;
                let t = Token { tok: Tok::Str(text), span: Span { start, end: self.pos } };
                assert(smart_end(m1.src, s_start as int) == (self.pos - 3, true));
                assert(self@ == spec_smart_string(old(self)@).0);
                assert(t@ == spec_smart_string(old(self)@).1);
                return t;
            }
            if c == 44 || c == 58 || c == 125 || c == 93 || c == 10 {
                assert(smart_end(m1.src, self.pos as int) == (self.pos as int, false));
                break;
            }
            self.pos += 1;
        }
        let text = from_utf8_lossy(slice_subrange(self.src, s_start, self.pos));
        Token { tok: Tok::Str(text), span: Span { start, end: self.pos } }
    }

    #[verifier::loop_isolation(false)]
    fn lex_string(&mut self, quote: u8) -> (t: Tok)
        requires
            quote == 34u8 || quote == 39u8,
            old(self)@.valid(),
            0 <= old(self)@.pos < old(self)@.len(),
        ensures
            (final(self)@, t@) == spec_lex_string(old(self)@, quote),
    {
        if !self.keep_strings {
            return self.scan_string(quote);
        }
        let open = self.pos;
        self.pos += 1;  // opening quote
        let ghost m0 = self@;
        assert(m0 == old(self)@.at_pos(open + 1));
        let mut out = String::new();
        let mut saw_control_escape = false;
        loop
            invariant
                self@.valid(),
                self@.keep,
                self@.src == m0.src,
                0 <= open < self@.len(),
                spec_string_body(self@, quote, open as int, saw_control_escape, out@)
                    == spec_string_body(m0, quote, open as int, false, Seq::empty()),
            decreases self.src@.len() + 2 - self.pos,
        {
            let ghost m = self@;
            let ghost out0 = out@;
            let ghost saw0 = saw_control_escape;
            proof { lemma_string_step(m, quote, open as int, saw0, out0); }
            let b = match self.peek() {
                None => {
                    self.diag("E013", String::from_str("unterminated string"),
                        Span { start: open, end: self.pos }, None, Severity::Error);
                    assert(string_step(m, quote, open as int, saw0, out0) == StrStep::Done(self@, out@));
                    assert(spec_string_body(m, quote, open as int, saw0, out0) == (self@, out@));
                    return Tok::Str(out);
                },
                Some(b) => b,
            };
            if b == quote {
                self.pos += 1;
                if saw_control_escape {
                    self.win_path_check(open);
                }
                assert(string_step(m, quote, open as int, saw0, out0) == StrStep::Done(self@, out@));
                    assert(spec_string_body(m, quote, open as int, saw0, out0) == (self@, out@));
                return Tok::Str(out);
            } else if b == 10 {
                self.diag("E013", String::from_str("unterminated string (newline reached)"),
                    Span { start: open, end: self.pos },
                    Some(String::from_str("did you forget a closing quote?")), Severity::Error);
                assert(string_step(m, quote, open as int, saw0, out0) == StrStep::Done(self@, out@));
                    assert(spec_string_body(m, quote, open as int, saw0, out0) == (self@, out@));
                return Tok::Str(out);
            } else if b == 92 {
                self.decode_escape(quote, open, &mut out, &mut saw_control_escape);
            } else if b < 0x20 {
                self.control_char_diag(b);
                self.pos += 1;
            } else {
                self.copy_run(quote, open, saw_control_escape, &mut out);
            }
            assert(string_step(m, quote, open as int, saw0, out0) == StrStep::Next(self@, saw_control_escape, out@));
        }
    }

    /// A backslash escape inside a decoded string.
    fn decode_escape(&mut self, quote: u8, open: usize, out: &mut String, saw: &mut bool)
        requires
            old(self)@.valid(),
            old(self)@.keep,
            open < old(self)@.len(),
            old(self)@.peek() == Some(92u8),
            quote != 92u8,
        ensures
            string_step(old(self)@, quote, open as int, *old(saw), old(out)@)
                == StrStep::Next(final(self)@, *final(saw), final(out)@),
    {
        let ghost m = self@;
        self.pos += 1;
        let esc = self.peek();
        self.pos += 1;
        match esc {
            Some(34) | Some(92) | Some(47) => {
                // a double quote, backslash or solidus stands for itself
                let c = char_of_byte(esc.unwrap());
                push_char(out, c);
            },
            Some(39) if quote == 39 => {
                // the apostrophe that would close a single-quoted string
                push_char(out, '\'');
            },
            Some(98) => {
                *saw = true;
                push_char(out, '\u{0008}')
            },
            Some(102) => {
                *saw = true;
                push_char(out, '\u{000C}')
            },
            Some(110) => {
                *saw = true;
                push_char(out, '\n')
            },
            Some(114) => {
                *saw = true;
                push_char(out, '\r')
            },
            Some(116) => {
                *saw = true;
                push_char(out, '\t')
            },
            Some(117) => {
                self.u_escape_decode(out);
            },
            _ => {
                self.bad_escape(open, esc);
            },
        }
    }

    /// A run of plain bytes inside a decoded string, copied in one shot.
    fn copy_run(&mut self, quote: u8, open: usize, saw: bool, out: &mut String)
        requires
            old(self)@.valid(),
            old(self)@.keep,
            old(self)@.peek() is Some,
            !is_run_stop_byte(old(self)@.peek()->0, quote),
            old(self)@.peek() != Some(10u8),
        ensures
            string_step(old(self)@, quote, open as int, saw, old(out)@) == StrStep::Next(final(self)@, saw, final(out)@),
    {
        let ghost m = self@;
        let run_start = self.pos;
        proof { lemma_run_end_utf8(m.src, run_start as int, quote); }
        while self.pos < self.src.len()
            invariant_except_break
                m.valid(),
                run_start <= self.pos <= self.src@.len() + 3,
                self.src@ == m.src,
                self@ == m.at_pos(self.pos as int),
                run_end_utf8(m.src, self.pos as int, quote) == run_end_utf8(m.src, run_start as int, quote),
            ensures
                run_start <= self.pos <= self.src@.len() + 3,
                self@ == m.at_pos(self.pos as int),
                run_end_utf8(m.src, run_start as int, quote) == self.pos,
            decreases self.src@.len() + 4 - self.pos,
        {
            let c = self.src[self.pos];
            if c == quote || c == 92 || c < 0x20 {
                break;
            }
            self.pos += utf8_len(c);
        }
        assert(run_end_utf8(m.src, run_start as int, quote) == self.pos);
        if self.pos > self.src.len() {
            self.pos = self.src.len();
        }
        let run = slice_subrange(self.src, run_start, self.pos);
        assert(run@ == m.src.subrange(m.pos, self.pos as int));
        assert(m.peek() == Some(m.src[m.pos]));
        match from_utf8(run) {
            Ok(t) => out.append(t),
            Err(k) => {
                proof {
                    lemma_valid_up_to_unique(run@, k as int);
                    assert(run@.take(run@.len() as int) =~= run@);
                }
                self.utf8_diag(run_start + k, run[k]);
                let lossy = from_utf8_lossy(run);
                out.append(lossy.as_str());
            },
        }
    }

    /// A backslash escape inside a scanned string.
    fn check_escape(&mut self, quote: u8, open: usize, saw: &mut bool)
        requires
            old(self)@.valid(),
            !old(self)@.keep,
            open < old(self)@.len(),
            old(self)@.peek() == Some(92u8),
            quote != 92u8,
        ensures
            string_step(old(self)@, quote, open as int, *old(saw), Seq::empty())
                == StrStep::Next(final(self)@, *final(saw), Seq::empty()),
    {
        self.pos += 1;
        let esc = self.peek();
        self.pos += 1;
        match esc {
            Some(34) | Some(92) | Some(47) => {},
            Some(39) if quote == 39 => {},
            Some(98) | Some(102) | Some(110) | Some(114) | Some(116) => {
                *saw = true;
            },
            Some(117) => {
                self.u_escape_check();
            },
            _ => {
                self.bad_escape(open, esc);
            },
        }
    }

    /// A run of plain bytes inside a scanned string: skipped, and checked for valid UTF-8.
    fn scan_run(&mut self, quote: u8, open: usize, saw: bool)
        requires
            old(self)@.valid(),
            !old(self)@.keep,
            old(self)@.peek() is Some,
            !is_run_stop_byte(old(self)@.peek()->0, quote),
        ensures
            string_step(old(self)@, quote, open as int, saw, Seq::empty())
                == StrStep::Next(final(self)@, saw, Seq::empty()),
    {
        let ghost m = self@;
        let run_start = self.pos;
        proof { lemma_run_end(m.src, run_start as int, quote); }
        while self.pos < self.src.len()
            invariant_except_break
                run_start <= self.pos <= self.src@.len(),
                self@ == m.at_pos(self.pos as int),
                run_end(m.src, self.pos as int, quote) == run_end(m.src, run_start as int, quote),
            ensures
                run_start <= self.pos <= self.src@.len(),
                self@ == m.at_pos(self.pos as int),
                run_end(m.src, run_start as int, quote) == self.pos,
            decreases self.src@.len() - self.pos,
        {
            let c = self.src[self.pos];
            if c == quote || c == 92 || c < 0x20 {
                break;
            }
            self.pos += 1;
        }
        let run = slice_subrange(self.src, run_start, self.pos);
        if let Err(k) = from_utf8(run) {
            proof {
                lemma_valid_up_to_unique(run@, k as int);
                assert(run@.take(run@.len() as int) =~= run@);
            }
            self.utf8_diag(run_start + k, self.src[run_start + k]);
        }
    }

    /// Validation-only string scan: checks escapes and structure, keeps no text.
    #[verifier::loop_isolation(false)]
    fn scan_string(&mut self, quote: u8) -> (t: Tok)
        requires
            quote == 34u8 || quote == 39u8,
            old(self)@.valid(),
            !old(self)@.keep,
            0 <= old(self)@.pos < old(self)@.len(),
        ensures
            (final(self)@, t@) == spec_lex_string(old(self)@, quote),
    {
        let open = self.pos;
        self.pos += 1;
        let ghost m0 = self@;
        assert(m0 == old(self)@.at_pos(open + 1));
        let mut saw_control_escape = false;
        let ghost empty = Seq::<char>::empty();
        loop
            invariant
                self@.valid(),
                !self@.keep,
                self@.src == m0.src,
                0 <= open < self@.len(),
                empty == Seq::<char>::empty(),
                spec_string_body(self@, quote, open as int, saw_control_escape, empty)
                    == spec_string_body(m0, quote, open as int, false, empty),
            decreases self.src@.len() + 2 - self.pos,
        {
            let ghost m = self@;
            let ghost saw0 = saw_control_escape;
            proof { lemma_string_step(m, quote, open as int, saw0, empty); }
            let b = match self.peek() {
                None => {
                    self.diag("E013", String::from_str("unterminated string"),
                        Span { start: open, end: self.pos }, None, Severity::Error);
                    assert(string_step(m, quote, open as int, saw0, empty) == StrStep::Done(self@, empty));
                    assert(spec_string_body(m, quote, open as int, saw0, empty) == (self@, empty));
                    return Tok::Str(String::new());
                },
                Some(b) => b,
            };
            if b == quote {
                self.pos += 1;
                if saw_control_escape {
                    self.win_path_check(open);
                }
                assert(string_step(m, quote, open as int, saw0, empty) == StrStep::Done(self@, empty));
                    assert(spec_string_body(m, quote, open as int, saw0, empty) == (self@, empty));
                return Tok::Str(String::new());
            } else if b == 10 {
                self.diag("E013", String::from_str("unterminated string (newline reached)"),
                    Span { start: open, end: self.pos },
                    Some(String::from_str("did you forget a closing quote?")), Severity::Error);
                assert(string_step(m, quote, open as int, saw0, empty) == StrStep::Done(self@, empty));
                    assert(spec_string_body(m, quote, open as int, saw0, empty) == (self@, empty));
                return Tok::Str(String::new());
            } else if b == 92 {
                self.check_escape(quote, open, &mut saw_control_escape);
            } else if b < 0x20 {
                self.control_char_diag(b);
                self.pos += 1;
            } else {
                self.scan_run(quote, open, saw_control_escape);
            }
            assert(string_step(m, quote, open as int, saw0, empty) == StrStep::Next(self@, saw_control_escape, empty));
        }
    }

    /// A `\u` escape in a decoded string; the lexer stands after the `u`.
    fn u_escape_decode(&mut self, out: &mut String)
        requires
            old(self)@.valid(),
        ensures
            final(self)@ == spec_u_escape(old(self)@).0,
            final(out)@ == old(out)@ + spec_u_escape(old(self)@).1,
    {
        let ghost m = self@;
        let cp = self.lex_hex4();
        match cp {
            Some(hi) => {
                if 0xD800 <= hi && hi <= 0xDBFF {
                    // expect a low surrogate
                    if self.peek() == Some(92u8) && self.at(self.pos + 1) == Some(117u8) {
                        self.pos += 2;
                        match self.lex_hex4() {
                            Some(lo) => {
                                if 0xDC00 <= lo && lo <= 0xDFFF {
                                    let c: u32 = 0x10000 + (hi - 0xD800) * 1024 + (lo - 0xDC00);
                                    let ch = match char_from_u32(c) {
                                        Some(ch) => ch,
                                        None => '\u{FFFD}',
                                    };
                                    push_char(out, ch);
                                } else {
                                    // Rust strings cannot hold lone surrogates: U+FFFD stands in.
                                    self.surrogate_diag();
                                    push_char(out, '\u{FFFD}');
                                    let ch = match char_from_u32(lo) {
                                        Some(ch) => ch,
                                        None => '\u{FFFD}',
                                    };
                                    push_char(out, ch);
                                }
                            },
                            None => {
                                self.bad_hex();
                                push_char(out, '\u{FFFD}');
                            },
                        }
                    } else {
                        self.surrogate_diag();
                        push_char(out, '\u{FFFD}');
                    }
                } else {
                    if 0xDC00 <= hi && hi <= 0xDFFF {
                        self.surrogate_diag();
                    }
                    let ch = match char_from_u32(hi) {
                        Some(ch) => ch,
                        None => '\u{FFFD}',
                    };
                    push_char(out, ch);
                }
            },
            None => {
                self.bad_hex();
            },
        }
        proof {
            assert(out@ =~= old(out)@ + spec_u_escape(m).1);
        }
    }

    /// A `\u` escape in a scanned string; the lexer stands after the `u`.
    fn u_escape_check(&mut self)
        requires
            old(self)@.valid(),
        ensures
            final(self)@ == spec_u_escape(old(self)@).0,
    {
        match self.lex_hex4() {
            Some(hi) => {
                if 0xD800 <= hi && hi <= 0xDBFF {
                    if self.peek() == Some(92u8) && self.at(self.pos + 1) == Some(117u8) {
                        self.pos += 2;
                        match self.lex_hex4() {
                            Some(lo) => {
                                if !(0xDC00 <= lo && lo <= 0xDFFF) {
                                    self.surrogate_diag();
                                }
                            },
                            None => {
                                self.bad_hex();
                            },
                        }
                    } else {
                        self.surrogate_diag();
                    }
                } else if 0xDC00 <= hi && hi <= 0xDFFF {
                    self.surrogate_diag();
                }
            },
            None => {
                self.bad_hex();
            },
        }
    }

    fn bad_hex(&mut self)
        ensures
            final(self)@ == bad_hex_diag(old(self)@),
    {
        let start = if self.pos >= 2 { self.pos - 2 } else { 0 };
        self.diag("E014", String::from_str("invalid \\u escape"), Span { start, end: self.pos },
            Some(String::from_str("expected four hex digits, e.g. \\u00e9")), Severity::Error);
    }

    fn bad_escape(&mut self, open: usize, esc: Option<u8>)
        requires
            old(self)@.valid(),
            open < old(self)@.len(),
        ensures
            final(self)@ == bad_escape_diag(old(self)@, open as int, esc),
    {
        let hint = if self.is_win_path_string(open) {
            Some(String::from_str("this looks like a Windows path — double every backslash: C:\\\\Users\\\\..."))
        } else {
            None
        };
        let mut msg = String::from_str("invalid escape sequence '\\");
        let c = match esc {
            Some(c) => char_of_byte(c),
            None => '?',
        };
        push_char(&mut msg, c);
        msg.append("'");
        assert(msg@ =~= "invalid escape sequence '\\"@ + seq![c] + "'"@);
        let start = if self.pos >= 2 { self.pos - 2 } else { 0 };
        self.diag("E015", msg, Span { start, end: self.pos }, hint, Severity::Error);
    }

    /// Invalid UTF-8 inside a string (pasted Latin-1 and the like).
    fn utf8_diag(&mut self, at: usize, byte: u8)
        requires
            at + 1 <= usize::MAX,
        ensures
            final(self)@ == utf8_diag(old(self)@, at as int, byte),
    {
        let mut msg = String::from_str("invalid UTF-8 byte (0x");
        push_hex2_upper(&mut msg, byte);
        msg.append(") in string");
        self.diag("E027", msg, Span { start: at, end: at + 1 },
            Some(String::from_str("this often means Latin-1/Windows-1252 text was pasted in — re-encode the input as UTF-8")),
            Severity::Error);
    }

    /// `"C:\temp"` is valid JSON in which `\t` silently becomes a TAB.
    fn win_path_check(&mut self, open: usize)
        requires
            old(self)@.valid(),
            open < old(self)@.len(),
        ensures
            final(self)@ == win_path_check(old(self)@, open as int),
    {
        let s = self.src;
        if open + 3 < s.len() && is_alpha(s[open + 1]) && s[open + 2] == 58 {
            self.diag("W051", String::from_str("control escape in what looks like a Windows path"),
                Span { start: open, end: self.pos },
                Some(String::from_str("\\t here is a TAB character, not a backslash + t — double every backslash: C:\\\\temp")),
                Severity::Warning);
        }
    }

    fn is_win_path_string(&self, open: usize) -> (r: bool)
        requires
            self@.valid(),
            open < self@.len(),
        ensures
            r == is_win_path(self@.src, open as int),
    {
        let s = self.src;
        open + 3 < s.len() && is_alpha(s[open + 1]) && s[open + 2] == 58 && s[open + 3] == 92
    }

    fn control_char_diag(&mut self, b: u8)
        requires
            old(self)@.valid(),
        ensures
            final(self)@ == control_char_diag(old(self)@, b),
    {
        let (name, esc) = if b == 9 {
            ("tab character", "\\t")
        } else if b == 0x0B {
            ("vertical tab", "\\u000b")
        } else if b == 0x0C {
            ("form feed", "\\f")
        } else {
            ("control character", "\\u0000-style escape")
        };
        let mut msg = String::from_str("unescaped ");
        msg.append(name);
        msg.append(" in string (0x");
        push_hex2_upper(&mut msg, b);
        msg.append(")");
        let mut hint = String::from_str("replace it with ");
        hint.append(esc);
        self.diag("E016", msg, Span { start: self.pos, end: self.pos + 1 }, Some(hint), Severity::Error);
    }

    fn surrogate_diag(&mut self)
        ensures
            final(self)@ == surrogate_diag(old(self)@),
    {
        let start = if self.pos >= 6 { self.pos - 6 } else { 0 };
        self.diag("W017", String::from_str("lone surrogate in \\u escape"), Span { start, end: self.pos },
            Some(String::from_str("JSON.parse accepts this, but the string will contain an unpaired surrogate — many systems will corrupt or reject it")),
            Severity::Warning);
    }

    /// Four ASCII hex digits at the current offset, as a number; malformed hex
    /// leaves the offset where it was.
    fn lex_hex4(&mut self) -> (r: Option<u32>)
        requires
            old(self)@.valid(),
        ensures
            r == hex4(old(self)@.src, old(self)@.pos),
            final(self)@ == (if r is Some { old(self)@.at_pos(old(self)@.pos + 4) } else { old(self)@ }),
    {
        if self.pos + 4 > self.src.len() {
            return None;
        }
        let p = self.pos;
        let h0 = hex_digit(self.src[p]);
        let h1 = hex_digit(self.src[p + 1]);
        let h2 = hex_digit(self.src[p + 2]);
        let h3 = hex_digit(self.src[p + 3]);
        let v = match (h0, h1, h2, h3) {
            (Some(d0), Some(d1), Some(d2), Some(d3)) => d0 * 4096 + d1 * 256 + d2 * 16 + d3,
            _ => return None,
        };
        self.pos += 4;
        Some(v)
    }

    fn lex_number(&mut self) -> (t: Tok)
        requires
            old(self)@.valid(),
            0 <= old(self)@.pos <= old(self)@.len(),
        ensures
            (final(self)@, t@) == spec_lex_number(old(self)@),
    {
        let start = self.pos;
        proof { lemma_number_parts(self@, start as int); }
        let int_len = self.number_int();
        proof { lemma_number_parts(self@, start as int); }
        let has_frac = self.number_frac(start);
        proof { lemma_number_parts(self@, start as int); }
        let has_exp = self.number_exp(start);
        // Integer wider than 2^53: silently corrupts through IEEE-754 doubles
        // (the classic "pasted a tweet/Discord ID" bug).
        if int_len > 15 && !has_frac && !has_exp {
            self.precision_check(start);
        }
        Tok::Num(Span { start, end: self.pos })
    }

    fn number_int(&mut self) -> (int_len: usize)
        requires
            old(self)@.valid(),
            0 <= old(self)@.pos <= old(self)@.len(),
        ensures
            (final(self)@, int_len as int) == spec_number_int(old(self)@),
    {
        let ghost m = self@;
        let start = self.pos;
        if self.peek() == Some(45u8) {
            self.pos += 1;
        }
        // integer part; catch leading zeros
        let int_start = self.pos;
        self.skip_digits();
        let int_len = self.pos - int_start;
        if int_len > 1 && self.src[int_start] == 48 {
            self.diag("E018", String::from_str("numbers may not have leading zeros"),
                Span { start, end: self.pos }, None, Severity::Error);
        }
        if int_len == 0 {
            self.diag("E019", String::from_str("expected digits in number"),
                Span { start, end: self.pos + 1 }, None, Severity::Error);
        }
        int_len
    }

    fn number_frac(&mut self, start: usize) -> (has_frac: bool)
        requires
            old(self)@.valid(),
            0 <= old(self)@.pos <= old(self)@.len(),
        ensures
            (final(self)@, has_frac) == spec_number_frac(old(self)@, start as int),
    {
        if self.peek() == Some(46u8) {
            self.pos += 1;
            let frac_start = self.pos;
            self.skip_digits();
            if self.pos == frac_start {
                self.diag("E019", String::from_str("expected digit after decimal point"),
                    Span { start, end: self.pos }, None, Severity::Error);
            }
            true
        } else {
            false
        }
    }

    fn number_exp(&mut self, start: usize) -> (has_exp: bool)
        requires
            old(self)@.valid(),
            0 <= old(self)@.pos <= old(self)@.len(),
        ensures
            (final(self)@, has_exp) == spec_number_exp(old(self)@, start as int),
    {
        if self.peek() == Some(101u8) || self.peek() == Some(69u8) {
            self.pos += 1;
            if self.peek() == Some(43u8) || self.peek() == Some(45u8) {
                self.pos += 1;
            }
            let exp_start = self.pos;
            self.skip_digits();
            if self.pos == exp_start {
                self.diag("E019", String::from_str("expected digit in exponent"),
                    Span { start, end: self.pos }, None, Severity::Error);
            }
            true
        } else {
            false
        }
    }

    /// An integer numeral of more than 15 digits from `start` to here: warn when
    /// the double nearest to it is a different integer.
    fn precision_check(&mut self, start: usize)
        requires
            old(self)@.valid(),
            start <= old(self)@.pos <= old(self)@.len(),
        ensures
            final(self)@ == precision_check(old(self)@, start as int),
    {
        let r = precision_message(self.src, start, self.pos);
        assert(opt_view(r) == crate::lex_spec::precision_msg(self@.src.subrange(start as int, self.pos as int)));
        if let Some(msg) = r {
            self.diag("W050", msg, Span { start, end: self.pos },
                Some(String::from_str("store large IDs as strings, or parse with a lossless-number option")),
                Severity::Warning);
        }
    }

    fn skip_digits(&mut self)
        requires
            old(self)@.valid(),
            0 <= old(self)@.pos <= old(self)@.len(),
        ensures
            final(self)@ == old(self)@.at_pos(digits_end(old(self)@.src, old(self)@.pos)),
            old(self)@.pos <= final(self)@.pos <= old(self)@.len(),
    {
        let ghost m = self@;
        proof { lemma_digits_end(m.src, m.pos); }
        while self.pos < self.src.len() && 48 <= self.src[self.pos] && self.src[self.pos] <= 57
            invariant
                m.pos <= self.pos <= self.src@.len(),
                self@ == m.at_pos(self.pos as int),
                digits_end(m.src, self.pos as int) == digits_end(m.src, m.pos),
            decreases self.src@.len() - self.pos,
        {
            self.pos += 1;
        }
    }

    fn lex_ident(&mut self) -> (t: Tok)
        requires
            old(self)@.valid(),
            0 <= old(self)@.pos <= old(self)@.len(),
        ensures
            (final(self)@, t@) == spec_lex_ident(old(self)@),
    {
        let ghost m = self@;
        let start = self.pos;
        proof { lemma_ident_end(m.src, start as int); }
        while self.pos < self.src.len() && (is_alpha(self.src[self.pos]) || (48 <= self.src[self.pos]
            && self.src[self.pos] <= 57) || self.src[self.pos] == 95 || self.src[self.pos] == 36)
            invariant
                start <= self.pos <= self.src@.len(),
                self@ == m.at_pos(self.pos as int),
                ident_end(m.src, self.pos as int) == ident_end(m.src, start as int),
            decreases self.src@.len() - self.pos,
        {
            self.pos += 1;
        }
        let end = self.pos;
        assert(self@ == m.at_pos(ident_end(m.src, start as int)));
        let sp1 = Span { start, end };
        if self.word_is(start, end, "true") {
            Tok::True
        } else if self.word_is(start, end, "false") {
            Tok::False
        } else if self.word_is(start, end, "null") {
            Tok::Null
        } else if self.word_is(start, end, "True") {
            self.diag("E030", String::from_str("'True' is not valid JSON"), sp1,
                Some(String::from_str("this looks like a Python literal — use 'true'")), Severity::Error);
            Tok::True
        } else if self.word_is(start, end, "False") {
            self.diag("E030", String::from_str("'False' is not valid JSON"), sp1,
                Some(String::from_str("this looks like a Python literal — use 'false'")), Severity::Error);
            Tok::False
        } else if self.word_is(start, end, "None") {
            self.diag("E030", String::from_str("'None' is not valid JSON"), sp1,
                Some(String::from_str("this looks like a Python literal — use 'null'")), Severity::Error);
            Tok::Null
        } else if self.word_is(start, end, "NaN") {
            self.diag("E031", String::from_str("'NaN' is not valid JSON"), sp1,
                Some(String::from_str("valid in JSON5 only; JSON has no representation for it")), Severity::Error);
            Tok::Num(sp1)
        } else if self.word_is(start, end, "Infinity") {
            self.diag("E031", String::from_str("'Infinity' is not valid JSON"), sp1,
                Some(String::from_str("valid in JSON5 only; JSON has no representation for it")), Severity::Error);
            Tok::Num(sp1)
        } else if self.word_is(start, end, "undefined") {
            self.diag("E030", String::from_str("'undefined' is not valid JSON"), sp1,
                Some(String::from_str("use 'null'")), Severity::Error);
            Tok::Null
        } else {
            let mut w = String::new();
            let mut i = start;
            while i < end
                invariant
                    start <= i <= end <= self.src@.len(),
                    w@ == ascii_text(self@.src.subrange(start as int, i as int)),
                decreases end - i,
            {
                push_char(&mut w, char_of_byte(self.src[i]));
                i += 1;
                proof {
                    assert(ascii_text(self@.src.subrange(start as int, i as int))
                        =~= ascii_text(self@.src.subrange(start as int, i - 1)).push(byte_char_at(self@.src, i - 1)));
                }
            }
            Tok::Ident(w)
        }
    }

    /// The bytes `start..end` spell the word `lit`.
    fn word_is(&self, start: usize, end: usize, lit: &str) -> (r: bool)
        requires
            start <= end <= self@.len(),
        ensures
            r == (ascii_text(self@.src.subrange(start as int, end as int)) == lit@),
    {
        let n = lit.unicode_len();
        if n != end - start {
            return false;
        }
        let mut i: usize = 0;
        while i < n
            invariant
                n == lit@.len(),
                n == end - start,
                start <= end <= self@.len(),
                i <= n,
                forall|k: int| 0 <= k < i ==> ascii_text(self@.src.subrange(start as int, end as int))[k] == lit@[k],
            decreases n - i,
        {
            if char_of_byte(self.src[start + i]) != lit.get_char(i) {
                proof {
                    assert(ascii_text(self@.src.subrange(start as int, end as int))[i as int] != lit@[i as int]);
                }
                return false;
            }
            i += 1;
        }
        proof {
            assert(ascii_text(self@.src.subrange(start as int, end as int)) =~= lit@);
        }
        true
    }
}

pub open spec fn is_run_stop_byte(b: u8, quote: u8) -> bool {
    b == quote || b == 92u8 || b < 32u8
}

pub open spec fn byte_char_at(src: Seq<u8>, i: int) -> char {
    crate::text::byte_char(src[i])
}

pub open spec fn char_of_byte_spec(b: u8) -> char {
    crate::text::byte_char(b)
}

} // verus!
