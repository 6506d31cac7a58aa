//! Laws of string escapes and block comments: each standard escape decodes
//! to the character it names, and a block comment ends at the first `*/`.
use vstd::prelude::*;
use crate::lex_spec::{
    block_end, line_end, spec_next_token, spec_skip_trivia, spec_string_body, string_step, LexModel, Mode, StrStep, TokModel,
};

verus! {

/// The character that a standard JSON escape `\e` names, for the byte `e`
/// after the backslash: `\"`, `\\`, `\/`, `\b`, `\f`, `\n`, `\r` and `\t`.
pub open spec fn standard_escape(e: u8) -> Option<char> {
    if e == 34u8 {
        Some('"')
    } else if e == 92u8 {
        Some('\\')
    } else if e == 47u8 {
        Some('/')
    } else if e == 98u8 {
        Some('\u{8}')
    } else if e == 102u8 {
        Some('\u{C}')
    } else if e == 110u8 {
        Some('\n')
    } else if e == 114u8 {
        Some('\r')
    } else if e == 116u8 {
        Some('\t')
    } else {
        None
    }
}

/// Decoding a string, the lexer reads a standard escape as one step: it moves
/// past the two bytes and appends exactly the character the escape names. A
/// control escape (`\b`, `\f`, `\n`, `\r`, `\t`) is remembered for the
/// Windows-path check at the end of the string.
pub proof fn law_standard_escape_step(m: LexModel, quote: u8, open: int, saw: bool, out: Seq<char>)
    requires
        m.keep,
        quote == 34u8 || quote == 39u8,
        0 <= m.pos,
        m.pos + 1 < m.len(),
        m.src[m.pos] == 92u8,
        standard_escape(m.src[m.pos + 1]) is Some,
    ensures
        ({
            let e = m.src[m.pos + 1];
            string_step(m, quote, open, saw, out) == StrStep::Next(
                m.at_pos(m.pos + 2),
                saw || !(e == 34u8 || e == 92u8 || e == 47u8),
                out.push(standard_escape(e)->0),
            )
        }),
{
    let e = m.src[m.pos + 1];
    assert(m.peek() == Some(92u8));
    assert(m.at(m.pos + 1) == Some(e));
    if e == 34u8 {
        assert(crate::text::byte_char(34u8) == '"');
    } else if e == 92u8 {
        assert(crate::text::byte_char(92u8) == '\\');
    } else if e == 47u8 {
        assert(crate::text::byte_char(47u8) == '/');
    }
}

/// The short escape the standard gives a character, as bytes: a backslash,
/// then a letter or the character itself.
pub open spec fn short_escape(c: char) -> Seq<u8> {
    if c == '"' {
        seq![92u8, 34u8]
    } else if c == '\\' {
        seq![92u8, 92u8]
    } else if c == '/' {
        seq![92u8, 47u8]
    } else if c == '\u{8}' {
        seq![92u8, 98u8]
    } else if c == '\u{C}' {
        seq![92u8, 102u8]
    } else if c == '\n' {
        seq![92u8, 110u8]
    } else if c == '\r' {
        seq![92u8, 114u8]
    } else {
        seq![92u8, 116u8]
    }
}

/// The characters that have a short escape.
pub open spec fn has_short_escape(c: char) -> bool {
    c == '"' || c == '\\' || c == '/' || c == '\u{8}' || c == '\u{C}' || c == '\n' || c == '\r' || c == '\t'
}

/// Every character of `s`, written with its short escape.
pub open spec fn short_escaped(s: Seq<char>) -> Seq<u8>
    decreases s.len(),
{
    if s.len() == 0 {
        Seq::empty()
    } else {
        short_escape(s[0]) + short_escaped(s.drop_first())
    }
}

proof fn lemma_short_escaped_len(s: Seq<char>)
    ensures
        short_escaped(s).len() == 2 * s.len(),
    decreases s.len(),
{
    if s.len() > 0 {
        lemma_short_escaped_len(s.drop_first());
    }
}

/// Short escapes of `t`, then a closing quote, read with decoding on: the
/// body reads back `t` and ends past the quote.
proof fn lemma_short_body(m: LexModel, open: int, saw: bool, out: Seq<char>, t: Seq<char>)
    requires
        m.valid(),
        m.keep,
        0 <= m.pos,
        forall|i: int| 0 <= i < t.len() ==> has_short_escape(#[trigger] t[i]),
        m.pos + 2 * t.len() < m.len(),
        m.src.subrange(m.pos, m.pos + 2 * t.len()) == short_escaped(t),
        m.src[m.pos + 2 * t.len()] == 34u8,
    ensures
        spec_string_body(m, 34u8, open, saw, out).1 == out + t,
        spec_string_body(m, 34u8, open, saw, out).0.pos == m.pos + 2 * t.len() + 1,
    decreases t.len(),
{
    crate::lex_spec::lemma_string_step(m, 34u8, open, saw, out);
    if t.len() == 0 {
        assert(m.peek() == Some(34u8));
        assert(out + t =~= out);
    } else {
        let c = t[0];
        let rest = t.drop_first();
        assert(has_short_escape(c));
        lemma_short_escaped_len(rest);
        let se = short_escape(c);
        assert(short_escaped(t) == se + short_escaped(rest));
        assert(m.src[m.pos] == m.src.subrange(m.pos, m.pos + 2 * t.len())[0]);
        assert(m.src[m.pos + 1] == m.src.subrange(m.pos, m.pos + 2 * t.len())[1]);
        assert(m.src[m.pos] == 92u8);
        assert(standard_escape(m.src[m.pos + 1]) == Some(c));
        law_standard_escape_step(m, 34u8, open, saw, out);
        let m1 = m.at_pos(m.pos + 2);
        let s1 = saw || !(m.src[m.pos + 1] == 34u8 || m.src[m.pos + 1] == 92u8 || m.src[m.pos + 1] == 47u8);
        assert(m1.src.subrange(m1.pos, m1.pos + 2 * rest.len()) =~= short_escaped(rest)) by {
            assert forall|k: int| 0 <= k < 2 * rest.len() implies m1.src.subrange(m1.pos, m1.pos + 2 * rest.len())[k]
                == short_escaped(rest)[k] by {
                assert(m.src.subrange(m.pos, m.pos + 2 * t.len())[k + 2] == short_escaped(t)[k + 2]);
            }
        }
        assert forall|i: int| 0 <= i < rest.len() implies has_short_escape(#[trigger] rest[i]) by {
            assert(rest[i] == t[i + 1]);
        }
        lemma_short_body(m1, open, s1, out.push(c), rest);
        assert(out.push(c) + rest =~= out + t);
    }
}

/// Short escapes round-trip: a JSON string literal holding only short
/// escapes (`\"`, `\\`, `\/`, `\b`, `\f`, `\n`, `\r`, `\t`) is read, with
/// decoding on, as one string token that holds exactly the characters they
/// name, spanning the whole literal.
pub proof fn law_short_escapes_read_back(s: Seq<char>, mode: Mode, diags: Seq<crate::diag::DiagModel>)
    requires
        forall|i: int| 0 <= i < s.len() ==> has_short_escape(#[trigger] s[i]),
        2 * s.len() + 2 + 16 <= usize::MAX,
    ensures
        ({
            let src = seq![34u8] + short_escaped(s) + seq![34u8];
            let m = LexModel { src, mode, keep: true, pos: 0, diags };
            let (m1, tok) = spec_next_token(m);
            &&& tok.tok == TokModel::Str(s)
            &&& tok.span.start == 0 && tok.span.end == src.len()
            &&& m1.pos == src.len()
        }),
{
    let body = short_escaped(s);
    lemma_short_escaped_len(s);
    let src = seq![34u8] + body + seq![34u8];
    let m = LexModel { src, mode, keep: true, pos: 0, diags };
    let n = body.len() as int;
    assert(src[0] == 34u8);
    assert(src.subrange(1, 1 + n) =~= body);
    assert(src[1 + n] == 34u8);
    assert(spec_skip_trivia(m) == m);
    assert(crate::lex_spec::starts_token(m));
    let mb = m.at_pos(1);
    lemma_short_body(mb, 0, false, Seq::empty(), s);
    assert(Seq::<char>::empty() + s =~= s);
}

/// A block comment ends at the first `*/` after its opening: if `*/` starts
/// at `j` and at no offset from `i` up to `j`, the comment whose body starts
/// at `i` is closed and ends just past that `*/`, whatever the body holds
/// (a `*` not followed by `/`, such as the first of `**/`, included).
pub proof fn law_block_comment_ends_at_first_close(src: Seq<u8>, i: int, j: int)
    requires
        0 <= i <= j,
        j + 1 < src.len(),
        src[j] == 42u8,
        src[j + 1] == 47u8,
        forall|k: int| i <= k < j ==> !(src[k] == 42u8 && #[trigger] src[k + 1] == 47u8),
    ensures
        block_end(src, i) == (j + 2, true),
    decreases j - i,
{
    if i < j {
        assert(!(src[i] == 42u8 && src[i + 1] == 47u8));
        law_block_comment_ends_at_first_close(src, i + 1, j);
    }
}

/// A block comment with no `*/` after its opening runs to the end of the
/// input and is not closed.
pub proof fn law_block_comment_unclosed(src: Seq<u8>, i: int)
    requires
        0 <= i <= src.len(),
        forall|k: int| i <= k && k + 1 < src.len() ==> !(src[k] == 42u8 && #[trigger] src[k + 1] == 47u8),
    ensures
        block_end(src, i) == (src.len() as int, false),
    decreases src.len() - i,
{
    if i < src.len() {
        if i + 1 < src.len() {
            assert(!(src[i] == 42u8 && src[i + 1] == 47u8));
        }
        law_block_comment_unclosed(src, i + 1);
    }
}

/// In JSONC, a closed block comment is trivia: skipping from its `/*` goes
/// on exactly as skipping from just past its first `*/`, with no diagnostic.
pub proof fn law_jsonc_skips_block_comment(m: LexModel, j: int)
    requires
        m.valid(),
        m.mode == Mode::Jsonc,
        0 <= m.pos,
        m.pos + 2 <= j,
        j + 1 < m.len(),
        m.src[m.pos] == 47u8,
        m.src[m.pos + 1] == 42u8,
        m.src[j] == 42u8,
        m.src[j + 1] == 47u8,
        forall|k: int| m.pos + 2 <= k < j ==> !(m.src[k] == 42u8 && #[trigger] m.src[k + 1] == 47u8),
    ensures
        spec_skip_trivia(m) == spec_skip_trivia(m.at_pos(j + 2)),
{
    law_block_comment_ends_at_first_close(m.src, m.pos + 2, j);
    assert(!crate::lex_spec::is_ws(m.src[m.pos]));
}

/// A block comment that is never closed runs to the end of the input and is
/// reported as E020, spanning from its `/*` to the end, in either dialect.
pub proof fn law_unclosed_block_comment_reported(m: LexModel)
    requires
        m.valid(),
        0 <= m.pos,
        m.pos + 1 < m.len(),
        m.src[m.pos] == 47u8,
        m.src[m.pos + 1] == 42u8,
        forall|k: int| m.pos + 2 <= k && k + 1 < m.len() ==> !(m.src[k] == 42u8 && #[trigger] m.src[k + 1] == 47u8),
        m.diags.len() < crate::diag::MAX_DIAGNOSTICS,
    ensures
        spec_skip_trivia(m).pos == m.len(),
        spec_skip_trivia(m).diags.len() > m.diags.len(),
        spec_skip_trivia(m).diags.take(m.diags.len() as int) == m.diags,
        spec_skip_trivia(m).diags[m.diags.len() as int].code == "E020"@,
        spec_skip_trivia(m).diags[m.diags.len() as int].span.start == m.pos,
        spec_skip_trivia(m).diags[m.diags.len() as int].span.end == m.len(),
{
    law_block_comment_unclosed(m.src, m.pos + 2);
    assert(!crate::lex_spec::is_ws(m.src[m.pos]));
    let e = m.len();
    let m2 = m.at_pos(e).diag(crate::lex_spec::dm("E020"@, "unterminated block comment"@, crate::lex_spec::sp(m.pos, e),
        None, crate::diag::Severity::Error));
    let m3 = crate::lex_spec::comment_diag(m2, m.pos);
    assert(spec_skip_trivia(m) == spec_skip_trivia(m3));
    assert(spec_skip_trivia(m3) == m3);
    assert(m3.diags.take(m.diags.len() as int) =~= m.diags);
}

/// A line comment runs up to the first `\n` after its `//`, or to the end of
/// the input when none follows.
pub proof fn law_line_comment_ends_at_newline(src: Seq<u8>, i: int)
    requires
        0 <= i <= src.len(),
    ensures
        i <= line_end(src, i) <= src.len(),
        line_end(src, i) < src.len() ==> src[line_end(src, i)] == 10u8,
        forall|k: int| i <= k < line_end(src, i) ==> #[trigger] src[k] != 10u8,
    decreases src.len() - i,
{
    if i < src.len() && src[i] != 10u8 {
        law_line_comment_ends_at_newline(src, i + 1);
    }
}

} // verus!
