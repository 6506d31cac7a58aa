//! What strict validation accepts is JSON text: a run that reports no error
//! (and caps none of its diagnostics) has read a document of the grammar.
use vstd::prelude::*;
use vstd::utf8::*;
use crate::diag::{DiagModel, Severity, MAX_DIAGNOSTICS};
use crate::grammar::{
    exp_end, false_bytes, frac_end, int_end, is_json_text, is_short_escape, lemma_ws_end, literal_at, null_bytes,
    number_end, string_body_end, string_end, true_bytes, value_at, ws_end,
};
use crate::lex_spec::{
    block_end, check_run, comment_diag, digits_end, dm, hex4, ident_end, is_control_escape, is_digit,
    is_high_surrogate, is_ident_byte, is_plain_escape, is_token_end, is_ws, lemma_block_end, lemma_digits_end,
    lemma_ident_end, lemma_line_end, lemma_lex_token, lemma_next_token, lemma_number_parts, lemma_run_end,
    lemma_skip_trivia, lemma_string_step, lemma_u_escape, line_end, punct, run_end, skip_bad_byte, sp,
    spec_lex_ident, spec_lex_number, spec_lex_string, spec_lex_token, spec_next_token, spec_number_exp,
    spec_number_frac, spec_number_int, spec_skip_trivia, spec_string_body, spec_u_escape, starts_token,
    string_step, LexModel, Mode, StrStep, TokModel, TokenModel, ascii_text,
};

verus! {

// ------------------------------------------------------------ bookkeeping

pub open spec fn prefix_of(a: Seq<DiagModel>, b: Seq<DiagModel>) -> bool {
    a.len() <= b.len() && b.take(a.len() as int) == a
}

/// Nothing was dropped for the cap, and everything from index `n` on is a warning.
pub open spec fn clean_since(d: Seq<DiagModel>, n: int) -> bool {
    &&& d.len() < MAX_DIAGNOSTICS
    &&& forall|k: int| n <= k < d.len() ==> #[trigger] d[k].severity == Severity::Warning
}

/// `m2` continues `m`: same input and dialect, and its diagnostics extend those of `m`.
pub open spec fn lext(m: LexModel, m2: LexModel) -> bool {
    &&& m2.src == m.src
    &&& m2.mode == m.mode
    &&& m2.keep == m.keep
    &&& prefix_of(m.diags, m2.diags)
}

proof fn lemma_lext_trans(a: LexModel, b: LexModel, c: LexModel)
    requires
        lext(a, b),
        lext(b, c),
    ensures
        lext(a, c),
{
    assert(c.diags.take(a.diags.len() as int) =~= c.diags.take(b.diags.len() as int).take(a.diags.len() as int));
}

pub(crate) proof fn lemma_clean_back(a: Seq<DiagModel>, b: Seq<DiagModel>, n: int)
    requires
        prefix_of(a, b),
        clean_since(b, n),
        0 <= n,
    ensures
        clean_since(a, n),
{
    assert forall|k: int| n <= k < a.len() implies #[trigger] a[k].severity == Severity::Warning by {
        assert(b.take(a.len() as int)[k] == b[k]);
        assert(b[k].severity == Severity::Warning);
    }
}

proof fn lemma_diag_ext(m: LexModel, d: DiagModel)
    ensures
        lext(m, m.diag(d)),
        m.diags.len() < MAX_DIAGNOSTICS ==> m.diag(d).diags == m.diags.push(d),
{
    assert(m.diags.push(d).take(m.diags.len() as int) =~= m.diags);
    assert(m.diags.take(m.diags.len() as int) =~= m.diags);
}

proof fn lemma_lext_refl(m: LexModel, p: int)
    ensures
        lext(m, m),
        lext(m, m.at_pos(p)),
{
    assert(m.diags.take(m.diags.len() as int) =~= m.diags);
}

/// A diagnostic recorded on the way to a clean state is a warning.
proof fn lemma_diag_in_clean(m: LexModel, d: DiagModel, fin: LexModel, n: int)
    requires
        lext(m.diag(d), fin),
        clean_since(fin.diags, n),
        0 <= n <= m.diags.len(),
    ensures
        d.severity == Severity::Warning,
{
    lemma_diag_ext(m, d);
    lemma_clean_back(m.diag(d).diags, fin.diags, n);
    lemma_clean_back(m.diags, m.diag(d).diags, n);
    assert(m.diags.len() < MAX_DIAGNOSTICS);
    assert(m.diag(d).diags[m.diags.len() as int] == d);
}

// ------------------------------------------------------------ the lexer

/// The token `t`, lexed from offset `from`, is what the grammar reads after
/// the whitespace there.
pub open spec fn token_sound(src: Seq<u8>, from: int, t: TokenModel) -> bool {
    &&& t.span.start as int == ws_end(src, from)
    &&& token_kind_sound(src, t)
}

/// The bytes of token `t` are what the grammar reads at its start.
pub open spec fn token_kind_sound(src: Seq<u8>, t: TokenModel) -> bool {
    let s = t.span.start as int;
    let e = t.span.end as int;
    match t.tok {
        TokModel::Eof => s == src.len(),
        TokModel::Str(_) => string_end(src, s) == Some(e),
        TokModel::Num(_) => number_end(src, s) == Some(e),
        TokModel::True => literal_at(src, s, true_bytes()) && e == s + 4,
        TokModel::False => literal_at(src, s, false_bytes()) && e == s + 5,
        TokModel::Null => literal_at(src, s, null_bytes()) && e == s + 4,
        TokModel::Ident(_) => true,
        _ => 0 <= s < src.len() && is_token_end(src[s]) && t.tok == punct(src[s]) && e == s + 1,
    }
}

/// Strict mode: trivia that raise no error are whitespace.
proof fn lemma_trivia_sound(m: LexModel)
    requires
        m.valid(),
        m.mode == Mode::Strict,
    ensures
        lext(m, spec_skip_trivia(m)),
        clean_since(spec_skip_trivia(m).diags, m.diags.len() as int) ==> spec_skip_trivia(m).pos == ws_end(m.src, m.pos),
    decreases m.len() - m.pos,
{
    let fin = spec_skip_trivia(m);
    lemma_lext_refl(m, m.pos);
    if 0 <= m.pos < m.len() {
        let b = m.src[m.pos];
        if is_ws(b) {
            lemma_trivia_sound(m.at_pos(m.pos + 1));
            lemma_lext_refl(m, m.pos + 1);
            lemma_lext_trans(m, m.at_pos(m.pos + 1), fin);
        } else if b == 47u8 && m.pos + 1 < m.len() && m.src[m.pos + 1] == 47u8 {
            lemma_line_end(m.src, m.pos + 2);
            let e = line_end(m.src, m.pos + 2);
            let m1 = comment_diag(m.at_pos(e), m.pos);
            let d = dm("E021"@, "comments are not allowed in strict JSON"@, sp(m.pos, e), Some(crate::lex_spec::comment_hint()), Severity::Error);
            assert(m1 == m.at_pos(e).diag(d));
            lemma_trivia_sound(m1);
            lemma_diag_ext(m.at_pos(e), d);
            lemma_lext_refl(m, e);
            lemma_lext_trans(m, m.at_pos(e), m1);
            lemma_lext_trans(m, m1, fin);
            if clean_since(fin.diags, m.diags.len() as int) {
                lemma_diag_in_clean(m.at_pos(e), d, fin, m.diags.len() as int);
            }
        } else if b == 47u8 && m.pos + 1 < m.len() && m.src[m.pos + 1] == 42u8 {
            lemma_block_end(m.src, m.pos + 2);
            let (e, closed) = block_end(m.src, m.pos + 2);
            let m1 = m.at_pos(e);
            let d0 = dm("E020"@, "unterminated block comment"@, sp(m.pos, e), None, Severity::Error);
            let m2 = if closed { m1 } else { m1.diag(d0) };
            let d = dm("E021"@, "comments are not allowed in strict JSON"@, sp(m.pos, e), Some(crate::lex_spec::comment_hint()), Severity::Error);
            let m3 = comment_diag(m2, m.pos);
            assert(m3 == m2.diag(d));
            lemma_trivia_sound(m3);
            lemma_lext_refl(m, e);
            lemma_diag_ext(m1, d0);
            lemma_lext_refl(m1, e);
            lemma_lext_trans(m, m1, m2);
            lemma_diag_ext(m2, d);
            lemma_lext_trans(m, m2, m3);
            lemma_lext_trans(m, m3, fin);
            if clean_since(fin.diags, m.diags.len() as int) {
                lemma_diag_in_clean(m2, d, fin, m.diags.len() as int);
            }
        }
    }
}

/// Strict validation: a string body that raises no error is a string body of
/// the grammar, and ends where the grammar ends it.
proof fn lemma_body_sound(m: LexModel, quote: u8, open: int, saw: bool, out: Seq<char>)
    requires
        m.valid(),
        m.mode == Mode::Strict,
        !m.keep,
        quote == 34u8 || quote == 39u8,
        0 <= m.pos <= m.len() + 1,
    ensures
        lext(m, spec_string_body(m, quote, open, saw, out).0),
        quote == 34u8 && clean_since(spec_string_body(m, quote, open, saw, out).0.diags, m.diags.len() as int)
            ==> string_body_end(m.src, m.pos) == Some(spec_string_body(m, quote, open, saw, out).0.pos),
    decreases m.len() + 2 - m.pos, 2int,
{
    let fin = spec_string_body(m, quote, open, saw, out).0;
    let n = m.diags.len() as int;
    lemma_string_step(m, quote, open, saw, out);
    lemma_lext_refl(m, m.pos);
    match m.peek() {
        None => {
            let d = dm("E013"@, "unterminated string"@, sp(open, m.pos), None, Severity::Error);
            lemma_diag_ext(m, d);
            lemma_lext_refl(m.diag(d), 0);
            if clean_since(fin.diags, n) {
                lemma_diag_in_clean(m, d, fin, n);
            }
        },
        Some(b) => {
            if b == quote {
                let m1 = m.at_pos(m.pos + 1);
                lemma_lext_refl(m, m.pos + 1);
                if saw && crate::lex_spec::looks_like_drive(m.src, open) {
                    let d = dm("W051"@, "control escape in what looks like a Windows path"@, sp(open, m1.pos),
                        Some("\\t here is a TAB character, not a backslash + t — double every backslash: C:\\\\temp"@),
                        Severity::Warning);
                    lemma_diag_ext(m1, d);
                    lemma_lext_trans(m, m1, m1.diag(d));
                }
            } else if b == 10u8 {
                let d = dm("E013"@, "unterminated string (newline reached)"@, sp(open, m.pos),
                    Some("did you forget a closing quote?"@), Severity::Error);
                lemma_diag_ext(m, d);
                lemma_lext_refl(m.diag(d), 0);
                if clean_since(fin.diags, n) {
                    lemma_diag_in_clean(m, d, fin, n);
                }
            } else if b == 92u8 {
                lemma_escape_sound(m, quote, open, saw, out);
            } else if b < 32u8 {
                let (name, esc) = crate::lex_spec::control_name(b);
                let d = dm("E016"@, "unescaped "@ + name + " in string (0x"@ + crate::text::hex2_upper(b) + ")"@,
                    sp(m.pos, m.pos + 1), Some("replace it with "@ + esc), Severity::Error);
                let m1 = m.diag(d).at_pos(m.pos + 1);
                lemma_diag_ext(m, d);
                lemma_lext_refl(m.diag(d), m.pos + 1);
                lemma_lext_trans(m, m.diag(d), m1);
                lemma_body_sound(m1, quote, open, saw, out);
                lemma_lext_trans(m, m1, fin);
                if clean_since(fin.diags, n) {
                    lemma_lext_trans(m.diag(d), m1, fin);
                    lemma_diag_in_clean(m, d, fin, n);
                }
            } else {
                lemma_run_end(m.src, m.pos, quote);
                let e = run_end(m.src, m.pos, quote);
                let m1 = check_run(m.at_pos(e), m.pos, e);
                lemma_lext_refl(m, e);
                let run = m.src.subrange(m.pos, e);
                if !valid_utf8(run) {
                    let d = dm("E027"@, "invalid UTF-8 byte (0x"@ + crate::text::hex2_upper(run[crate::text::valid_up_to(run)])
                        + ") in string"@, sp(m.pos + crate::text::valid_up_to(run), m.pos + crate::text::valid_up_to(run) + 1),
                        Some("this often means Latin-1/Windows-1252 text was pasted in — re-encode the input as UTF-8"@),
                        Severity::Error);
                    assert(m1 == m.at_pos(e).diag(d));
                    lemma_diag_ext(m.at_pos(e), d);
                }
                lemma_lext_trans(m, m.at_pos(e), m1);
                lemma_body_sound(m1, quote, open, saw, out);
                lemma_lext_trans(m, m1, fin);
                if clean_since(fin.diags, n) && !valid_utf8(run) {
                    let d = dm("E027"@, "invalid UTF-8 byte (0x"@ + crate::text::hex2_upper(run[crate::text::valid_up_to(run)])
                        + ") in string"@, sp(m.pos + crate::text::valid_up_to(run), m.pos + crate::text::valid_up_to(run) + 1),
                        Some("this often means Latin-1/Windows-1252 text was pasted in — re-encode the input as UTF-8"@),
                        Severity::Error);
                    lemma_diag_in_clean(m.at_pos(e), d, fin, n);
                }
            }
        },
    }
}

/// A `\u` escape whose `u` was just consumed, with no error: four hex digits
/// (a low half of a pair may follow as a second escape).
proof fn lemma_u_sound(m: LexModel)
    requires
        m.valid(),
        0 <= m.pos <= m.len(),
    ensures
        lext(m, spec_u_escape(m).0),
        spec_u_escape(m).0.pos <= m.len(),
        clean_since(spec_u_escape(m).0.diags, m.diags.len() as int) ==> hex4(m.src, m.pos) is Some && (
        spec_u_escape(m).0.pos == m.pos + 4 || (m.src[m.pos + 4] == 92u8 && m.src[m.pos + 5] == 117u8 && hex4(
            m.src,
            m.pos + 6,
        ) is Some && spec_u_escape(m).0.pos == m.pos + 10)),
{
    let p = m.pos;
    let n = m.diags.len() as int;
    let u = spec_u_escape(m).0;
    lemma_u_escape(m);
    lemma_lext_refl(m, p);
    let bad = |mm: LexModel| dm("E014"@, "invalid \\u escape"@, sp(crate::lex_spec::sat_sub(mm.pos, 2), mm.pos),
        Some("expected four hex digits, e.g. \\u00e9"@), Severity::Error);
    let sur = |mm: LexModel| dm("W017"@, "lone surrogate in \\u escape"@, sp(crate::lex_spec::sat_sub(mm.pos, 6), mm.pos),
        Some(crate::lex_spec::surrogate_hint()), Severity::Warning);
    match hex4(m.src, p) {
        None => {
            lemma_diag_ext(m, bad(m));
            if clean_since(u.diags, n) {
                lemma_lext_refl(u, 0);
                lemma_diag_in_clean(m, bad(m), u, n);
            }
        },
        Some(hi) => {
            let m1 = m.at_pos(p + 4);
            lemma_lext_refl(m, p + 4);
            lemma_diag_ext(m1, sur(m1));
            lemma_lext_trans(m, m1, m1.diag(sur(m1)));
            if is_high_surrogate(hi) && m1.at(p + 4) == Some(92u8) && m1.at(p + 5) == Some(117u8) {
                let m2 = m1.at_pos(p + 6);
                lemma_lext_refl(m, p + 6);
                match hex4(m.src, p + 6) {
                    Some(lo) => {
                        let m3 = m2.at_pos(p + 10);
                        lemma_lext_refl(m, p + 10);
                        lemma_diag_ext(m3, sur(m3));
                        lemma_lext_trans(m, m3, m3.diag(sur(m3)));
                    },
                    None => {
                        lemma_diag_ext(m2, bad(m2));
                        lemma_lext_trans(m, m2, m2.diag(bad(m2)));
                        if clean_since(u.diags, n) {
                            lemma_lext_refl(u, 0);
                            lemma_diag_in_clean(m2, bad(m2), u, n);
                        }
                    },
                }
            }
        },
    }
}

/// A backslash in a string body, with no error on the way to the end.
proof fn lemma_escape_sound(m: LexModel, quote: u8, open: int, saw: bool, out: Seq<char>)
    requires
        m.valid(),
        m.mode == Mode::Strict,
        !m.keep,
        quote == 34u8 || quote == 39u8,
        0 <= m.pos < m.len(),
        m.src[m.pos] == 92u8,
    ensures
        lext(m, spec_string_body(m, quote, open, saw, out).0),
        quote == 34u8 && clean_since(spec_string_body(m, quote, open, saw, out).0.diags, m.diags.len() as int)
            ==> string_body_end(m.src, m.pos) == Some(spec_string_body(m, quote, open, saw, out).0.pos),
    decreases m.len() + 2 - m.pos, 1int,
{
    let fin = spec_string_body(m, quote, open, saw, out).0;
    let pos = m.pos;
    lemma_string_step(m, quote, open, saw, out);
    let esc = m.at(pos + 1);
    let m1 = m.at_pos(pos + 2);
    lemma_lext_refl(m, pos + 2);
    if is_plain_escape(esc, quote) || is_control_escape(esc) {
        lemma_body_sound(m1, quote, open, if is_control_escape(esc) { true } else { saw }, out);
        lemma_lext_trans(m, m1, fin);
    } else if esc == Some(117u8) {
        lemma_u_branch(m, quote, open, saw, out);
    } else {
        lemma_bad_escape_branch(m, quote, open, saw, out);
    }
}

#[verifier::rlimit(40)]
proof fn lemma_u_branch(m: LexModel, quote: u8, open: int, saw: bool, out: Seq<char>)
    requires
        m.valid(),
        m.mode == Mode::Strict,
        !m.keep,
        quote == 34u8 || quote == 39u8,
        0 <= m.pos < m.len(),
        m.src[m.pos] == 92u8,
        m.at(m.pos + 1) == Some(117u8),
    ensures
        lext(m, spec_string_body(m, quote, open, saw, out).0),
        quote == 34u8 && clean_since(spec_string_body(m, quote, open, saw, out).0.diags, m.diags.len() as int)
            ==> string_body_end(m.src, m.pos) == Some(spec_string_body(m, quote, open, saw, out).0.pos),
    decreases m.len() + 2 - m.pos, 0int,
{
    let fin = spec_string_body(m, quote, open, saw, out).0;
    let n = m.diags.len() as int;
    let pos = m.pos;
    lemma_string_step(m, quote, open, saw, out);
    let m1 = m.at_pos(pos + 2);
    lemma_lext_refl(m, pos + 2);
    lemma_u_sound(m1);
    let u = spec_u_escape(m1).0;
    assert(spec_string_body(m, quote, open, saw, out).0 == spec_string_body(u, quote, open, saw, out).0);
    lemma_lext_trans(m, m1, u);
    lemma_body_sound(u, quote, open, saw, out);
    lemma_lext_trans(m, u, fin);
    if quote == 34u8 && clean_since(fin.diags, n) {
        lemma_lext_trans(m1, u, fin);
        lemma_clean_back(u.diags, fin.diags, n);
        assert(clean_since(u.diags, m1.diags.len() as int));
        lemma_grammar_u(m.src, pos, u.pos);
    }
}

/// The grammar reads a `\u` escape, and a second one that may follow it, as
/// the lexer does.
proof fn lemma_grammar_u(src: Seq<u8>, pos: int, upos: int)
    requires
        0 <= pos,
        pos + 1 < src.len(),
        src[pos] == 92u8,
        src[pos + 1] == 117u8,
        hex4(src, pos + 2) is Some,
        upos == pos + 6 || (src[pos + 6] == 92u8 && src[pos + 7] == 117u8 && hex4(src, pos + 8) is Some
            && upos == pos + 12),
    ensures
        string_body_end(src, pos) == string_body_end(src, upos),
{
    if upos != pos + 6 {
        assert(string_body_end(src, pos + 6) == string_body_end(src, pos + 12));
    }
    assert(string_body_end(src, pos) == string_body_end(src, pos + 6));
}

proof fn lemma_bad_escape_branch(m: LexModel, quote: u8, open: int, saw: bool, out: Seq<char>)
    requires
        m.valid(),
        m.mode == Mode::Strict,
        !m.keep,
        quote == 34u8 || quote == 39u8,
        0 <= m.pos < m.len(),
        m.src[m.pos] == 92u8,
        !is_plain_escape(m.at(m.pos + 1), quote),
        !is_control_escape(m.at(m.pos + 1)),
        m.at(m.pos + 1) != Some(117u8),
    ensures
        lext(m, spec_string_body(m, quote, open, saw, out).0),
        !clean_since(spec_string_body(m, quote, open, saw, out).0.diags, m.diags.len() as int),
    decreases m.len() + 2 - m.pos, 0int,
{
    let fin = spec_string_body(m, quote, open, saw, out).0;
    let n = m.diags.len() as int;
    let pos = m.pos;
    let esc = m.at(pos + 1);
    lemma_string_step(m, quote, open, saw, out);
    let m1 = m.at_pos(pos + 2);
    lemma_lext_refl(m, pos + 2);
    let c = match esc {
        Some(bb) => crate::text::byte_char(bb),
        None => '?',
    };
    let d = dm("E015"@, "invalid escape sequence '\\"@ + seq![c] + "'"@, sp(crate::lex_spec::sat_sub(m1.pos, 2), m1.pos),
        if crate::lex_spec::is_win_path(m1.src, open) { Some(crate::lex_spec::win_path_hint()) } else { None },
        Severity::Error);
    let m2 = m1.diag(d);
    assert(m2 == crate::lex_spec::bad_escape_diag(m1, open, esc));
    assert(spec_string_body(m, quote, open, saw, out).0 == spec_string_body(m2, quote, open, saw, out).0);
    lemma_diag_ext(m1, d);
    lemma_lext_trans(m, m1, m2);
    lemma_body_sound(m2, quote, open, saw, out);
    lemma_lext_trans(m, m2, fin);
    if clean_since(fin.diags, n) {
        lemma_diag_in_clean(m1, d, fin, n);
    }
}

/// The integer part of a number, with no error, is that of the grammar.
proof fn lemma_int_sound(m: LexModel)
    requires
        m.valid(),
        0 <= m.pos <= m.len(),
    ensures
        lext(m, spec_number_int(m).0),
        spec_number_int(m).0.pos <= m.len(),
        m.pos < m.len() && (m.src[m.pos] == 45u8 || is_digit(m.src[m.pos])) && clean_since(
            spec_number_int(m).0.diags,
            m.diags.len() as int,
        ) ==> int_end(m.src, if m.src[m.pos] == 45u8 { m.pos + 1 } else { m.pos }) == Some(spec_number_int(m).0.pos),
{
    let start = m.pos;
    let n = m.diags.len() as int;
    let src = m.src;
    let p1 = if m.peek() == Some(45u8) { start + 1 } else { start };
    lemma_digits_end(src, p1);
    let p2 = digits_end(src, p1);
    let int_len = p2 - p1;
    let m1 = m.at_pos(p2);
    let d18 = dm("E018"@, "numbers may not have leading zeros"@, sp(start, p2), None, Severity::Error);
    let m2 = if int_len > 1 && src[p1] == 48u8 { m1.diag(d18) } else { m1 };
    let d19 = dm("E019"@, "expected digits in number"@, sp(start, p2 + 1), None, Severity::Error);
    let m3 = if int_len == 0 { m2.diag(d19) } else { m2 };
    assert(spec_number_int(m).0 == m3);
    lemma_lext_refl(m, p2);
    lemma_lext_refl(m1, 0);
    lemma_diag_ext(m1, d18);
    lemma_lext_trans(m, m1, m2);
    lemma_lext_refl(m2, 0);
    lemma_diag_ext(m2, d19);
    lemma_lext_trans(m, m2, m3);
    lemma_lext_refl(m3, 0);
    if m.pos < m.len() && (src[start] == 45u8 || is_digit(src[start])) && clean_since(m3.diags, n) {
        if int_len > 1 && src[p1] == 48u8 {
            lemma_lext_trans(m1.diag(d18), m3, m3);
            lemma_diag_in_clean(m1, d18, m3, n);
        }
        if int_len == 0 {
            lemma_diag_in_clean(m2, d19, m3, n);
        }
        assert(is_digit(src[p1]));
    }
}

/// A fraction, with no error, is that of the grammar.
proof fn lemma_frac_sound(m: LexModel, start: int)
    requires
        m.valid(),
        0 <= m.pos <= m.len(),
    ensures
        lext(m, spec_number_frac(m, start).0),
        spec_number_frac(m, start).0.pos <= m.len(),
        clean_since(spec_number_frac(m, start).0.diags, m.diags.len() as int) ==> frac_end(m.src, m.pos) == Some(
            spec_number_frac(m, start).0.pos,
        ),
{
    let n = m.diags.len() as int;
    let src = m.src;
    lemma_number_parts(m, start);
    lemma_lext_refl(m, 0);
    if m.peek() == Some(46u8) {
        lemma_digits_end(src, m.pos + 1);
        let p3 = digits_end(src, m.pos + 1);
        let d = dm("E019"@, "expected digit after decimal point"@, sp(start, p3), None, Severity::Error);
        lemma_lext_refl(m, p3);
        lemma_diag_ext(m.at_pos(p3), d);
        lemma_lext_trans(m, m.at_pos(p3), m.at_pos(p3).diag(d));
        let f = spec_number_frac(m, start).0;
        if p3 == m.pos + 1 && clean_since(f.diags, n) {
            lemma_lext_refl(f, 0);
            lemma_diag_in_clean(m.at_pos(p3), d, f, n);
        }
    }
}

/// An exponent, with no error, is that of the grammar.
proof fn lemma_exp_sound(m: LexModel, start: int)
    requires
        m.valid(),
        0 <= m.pos <= m.len(),
    ensures
        lext(m, spec_number_exp(m, start).0),
        spec_number_exp(m, start).0.pos <= m.len(),
        clean_since(spec_number_exp(m, start).0.diags, m.diags.len() as int) ==> exp_end(m.src, m.pos) == Some(
            spec_number_exp(m, start).0.pos,
        ),
{
    let n = m.diags.len() as int;
    let src = m.src;
    lemma_number_parts(m, start);
    lemma_lext_refl(m, 0);
    if m.peek() == Some(101u8) || m.peek() == Some(69u8) {
        let q = m.pos + 1;
        let q1 = if m.at(q) == Some(43u8) || m.at(q) == Some(45u8) { q + 1 } else { q };
        lemma_digits_end(src, q1);
        let q2 = digits_end(src, q1);
        let d = dm("E019"@, "expected digit in exponent"@, sp(start, q2), None, Severity::Error);
        lemma_lext_refl(m, q2);
        lemma_diag_ext(m.at_pos(q2), d);
        lemma_lext_trans(m, m.at_pos(q2), m.at_pos(q2).diag(d));
        let f = spec_number_exp(m, start).0;
        if q2 == q1 && clean_since(f.diags, n) {
            lemma_lext_refl(f, 0);
            lemma_diag_in_clean(m.at_pos(q2), d, f, n);
        }
    }
}

/// A number with no error is a number of the grammar, ending where the lexer
/// stopped; whatever the first byte, the lexer's diagnostics only grow.
pub(crate) proof fn lemma_number_sound(m: LexModel)
    requires
        m.valid(),
        0 <= m.pos <= m.len(),
    ensures
        lext(m, spec_lex_number(m).0),
        spec_lex_number(m).0.pos <= m.len(),
        m.pos < m.len() && (m.src[m.pos] == 45u8 || is_digit(m.src[m.pos])) && clean_since(
            spec_lex_number(m).0.diags,
            m.diags.len() as int,
        ) ==> number_end(m.src, m.pos) == Some(spec_lex_number(m).0.pos),
{
    let start = m.pos;
    let n = m.diags.len() as int;
    lemma_number_parts(m, start);
    lemma_int_sound(m);
    let m3 = spec_number_int(m).0;
    lemma_number_parts(m3, start);
    lemma_frac_sound(m3, start);
    let m4 = spec_number_frac(m3, start).0;
    lemma_number_parts(m4, start);
    lemma_exp_sound(m4, start);
    let m5 = spec_number_exp(m4, start).0;
    let m6 = spec_lex_number(m).0;
    match crate::lex_spec::precision_msg(m5.src.subrange(start, m5.pos)) {
        Some(msg) => {
            let dw = dm("W050"@, msg, sp(start, m5.pos),
                Some("store large IDs as strings, or parse with a lossless-number option"@), Severity::Warning);
            lemma_diag_ext(m5, dw);
        },
        None => {},
    }
    lemma_lext_refl(m5, 0);
    assert(lext(m5, m6));
    lemma_lext_trans(m, m3, m4);
    lemma_lext_trans(m, m4, m5);
    lemma_lext_trans(m, m5, m6);
    if m.pos < m.len() && (m.src[start] == 45u8 || is_digit(m.src[start])) && clean_since(m6.diags, n) {
        lemma_clean_back(m5.diags, m6.diags, n);
        lemma_lext_trans(m4, m5, m6);
        lemma_clean_back(m4.diags, m6.diags, n);
        lemma_lext_trans(m3, m4, m6);
        lemma_clean_back(m3.diags, m6.diags, n);
        assert(clean_since(m4.diags, m3.diags.len() as int));
        assert(clean_since(m5.diags, m4.diags.len() as int));
    }
}

proof fn lemma_byte_char_inj(a: u8, b: u8)
    requires
        crate::text::byte_char(a) == crate::text::byte_char(b),
    ensures
        a == b,
{
    assert((a as u32) as char == (b as u32) as char);
    assert(((a as u32) as char) as u32 == a as u32);
    assert(((b as u32) as char) as u32 == b as u32);
}

/// Bytes that read as the same characters are the same bytes.
proof fn lemma_ascii_text_inj(s: Seq<u8>, w: Seq<u8>)
    requires
        ascii_text(s) == ascii_text(w),
    ensures
        s == w,
{
    assert(ascii_text(s).len() == s.len());
    assert(ascii_text(w).len() == w.len());
    assert forall|k: int| 0 <= k < s.len() implies s[k] == w[k] by {
        assert(ascii_text(s)[k] == ascii_text(w)[k]);
        assert(ascii_text(s)[k] == crate::text::byte_char(s[k]));
        assert(ascii_text(w)[k] == crate::text::byte_char(w[k]));
        lemma_byte_char_inj(s[k], w[k]);
    }
    assert(s =~= w);
}

/// A bare word with no error is `true`, `false`, `null`, or an identifier
/// the parser rejects.
pub(crate) proof fn lemma_ident_sound(m: LexModel)
    requires
        m.valid(),
        0 <= m.pos < m.len(),
    ensures
        lext(m, spec_lex_ident(m).0),
        spec_lex_ident(m).0.pos <= m.len(),
        clean_since(spec_lex_ident(m).0.diags, m.diags.len() as int) ==> match spec_lex_ident(m).1 {
            TokModel::True => literal_at(m.src, m.pos, true_bytes()) && spec_lex_ident(m).0.pos == m.pos + 4,
            TokModel::False => literal_at(m.src, m.pos, false_bytes()) && spec_lex_ident(m).0.pos == m.pos + 5,
            TokModel::Null => literal_at(m.src, m.pos, null_bytes()) && spec_lex_ident(m).0.pos == m.pos + 4,
            TokModel::Ident(_) => true,
            _ => false,
        },
{
    let start = m.pos;
    let n = m.diags.len() as int;
    lemma_ident_end(m.src, start);
    let e = ident_end(m.src, start);
    let s = m.src.subrange(start, e);
    let w = ascii_text(s);
    let m1 = m.at_pos(e);
    let (m2, t) = spec_lex_ident(m);
    lemma_lext_refl(m, e);
    lemma_lext_refl(m2, 0);
    reveal_strlit("true");
    reveal_strlit("false");
    reveal_strlit("null");
    if w == "true"@ {
        assert(ascii_text(true_bytes()) =~= "true"@);
        lemma_ascii_text_inj(s, true_bytes());
    } else if w == "false"@ {
        assert(ascii_text(false_bytes()) =~= "false"@);
        lemma_ascii_text_inj(s, false_bytes());
    } else if w == "null"@ {
        assert(ascii_text(null_bytes()) =~= "null"@);
        lemma_ascii_text_inj(s, null_bytes());
    } else if !(t is Ident) {
        let d = m2.diags[m.diags.len() as int];
        assert(m2 == m1.diag(d)) by {
            assert(m1.diags.len() < MAX_DIAGNOSTICS ==> m2.diags == m1.diags.push(d));
        }
        lemma_diag_ext(m1, d);
        lemma_lext_trans(m, m1, m2);
        if clean_since(m2.diags, n) {
            lemma_diag_in_clean(m1, d, m2, n);
        }
    }
}

/// A token with no error is what the grammar reads where it starts.
proof fn lemma_lex_token_sound(m1: LexModel)
    requires
        m1.valid(),
        m1.mode == Mode::Strict,
        !m1.keep,
        0 <= m1.pos < m1.len(),
        starts_token(m1),
    ensures
        lext(m1, spec_lex_token(m1).0),
        clean_since(spec_lex_token(m1).0.diags, m1.diags.len() as int) ==> token_kind_sound(m1.src, spec_lex_token(m1).1)
            && spec_lex_token(m1).0.pos <= m1.len(),
{
    let start = m1.pos;
    let n = m1.diags.len() as int;
    let b = m1.src[start];
    let (fin, t) = spec_lex_token(m1);
    lemma_lex_token(m1);
    lemma_lext_refl(m1, start + 1);
    lemma_lext_refl(fin, 0);
    if is_token_end(b) {
    } else if b == 34u8 {
        lemma_body_sound(m1.at_pos(start + 1), 34u8, start, false, Seq::empty());
        lemma_lext_trans(m1, m1.at_pos(start + 1), fin);
        if clean_since(fin.diags, n) {
            crate::grammar::lemma_string_body_end_bound(m1.src, start + 1);
        }
    } else if b == 39u8 {
        let d = dm("E010"@, "strings must use double quotes"@, sp(start, start + 1),
            Some("single-quoted strings are valid in JSON5 but not JSON/JSONC"@), Severity::Error);
        let m2 = m1.diag(d);
        lemma_diag_ext(m1, d);
        lemma_lext_refl(m2, start + 1);
        lemma_body_sound(m2.at_pos(start + 1), 39u8, start, false, Seq::empty());
        lemma_lext_trans(m2, m2.at_pos(start + 1), fin);
        lemma_lext_trans(m1, m2, fin);
        if clean_since(fin.diags, n) {
            lemma_diag_in_clean(m1, d, fin, n);
        }
    } else if b == 0xE2u8 {
        let d = dm("E011"@, "smart quote found where a string was expected"@, sp(start, start + 3),
            Some("this looks like text pasted from a word processor — replace “ ” with straight quotes \""@), Severity::Error);
        let m2 = m1.diag(d);
        lemma_diag_ext(m1, d);
        crate::lex_spec::lemma_smart_end(m1.src, start + 3);
        lemma_lext_refl(m2, fin.pos);
        lemma_lext_trans(m1, m2, fin);
        if clean_since(fin.diags, n) {
            lemma_diag_in_clean(m1, d, fin, n);
        }
    } else if b == 45u8 || is_digit(b) {
        lemma_number_sound(m1);
    } else if b == 43u8 || b == 46u8 {
        let d = dm("E012"@, "numbers cannot start with '"@ + seq![crate::text::byte_char(b)] + "'"@, sp(start, start + 1),
            Some("valid in JSON5, not JSON/JSONC"@), Severity::Error);
        let m2 = m1.diag(d).at_pos(start + 1);
        lemma_diag_ext(m1, d);
        lemma_lext_refl(m1.diag(d), start + 1);
        lemma_lext_trans(m1, m1.diag(d), m2);
        lemma_number_sound(m2);
        lemma_lext_trans(m1, m2, fin);
        if clean_since(fin.diags, n) {
            lemma_lext_trans(m1.diag(d), m2, fin);
            lemma_diag_in_clean(m1, d, fin, n);
        }
    } else {
        lemma_ident_sound(m1);
    }
}

/// Strict validation: a token read with no error is, after whitespace, what
/// the grammar reads.
pub(crate) proof fn lemma_next_sound(m: LexModel)
    requires
        m.valid(),
        m.mode == Mode::Strict,
        !m.keep,
    ensures
        lext(m, spec_next_token(m).0),
        m.pos <= m.len() && clean_since(spec_next_token(m).0.diags, m.diags.len() as int) ==> token_sound(
            m.src,
            m.pos,
            spec_next_token(m).1,
        ) && spec_next_token(m).0.pos <= m.len() && (spec_next_token(m).1.tok is Eof ==> spec_next_token(m).0.pos
            == m.len()),
    decreases m.len() + 2 - m.pos,
{
    let n = m.diags.len() as int;
    let (fin, t) = spec_next_token(m);
    lemma_skip_trivia(m);
    lemma_trivia_sound(m);
    let m1 = spec_skip_trivia(m);
    lemma_lext_refl(fin, 0);
    if !(0 <= m1.pos < m1.len()) {
        assert(fin == m1);
    } else if starts_token(m1) {
        lemma_lex_token_sound(m1);
        lemma_lex_token(m1);
        lemma_lext_trans(m, m1, fin);
        if clean_since(fin.diags, n) {
            lemma_clean_back(m1.diags, fin.diags, n);
            assert(clean_since(fin.diags, m1.diags.len() as int));
        }
    } else {
        let start = m1.pos;
        let sb = m1.src[start];
        let msg = if sb == 0xE2u8 { "unexpected character"@ } else { "unexpected character (0x"@ + crate::text::hex2_upper(sb) + ")"@ };
        let d = dm("E001"@, msg, sp(start, start + 1), None, Severity::Error);
        let m2 = skip_bad_byte(m1);
        assert(m2 == m1.at_pos(start + 1).diag(d));
        lemma_lext_refl(m1, start + 1);
        lemma_diag_ext(m1.at_pos(start + 1), d);
        lemma_lext_trans(m1, m1.at_pos(start + 1), m2);
        lemma_next_sound(m2);
        lemma_lext_trans(m, m1, m2);
        lemma_lext_trans(m, m2, fin);
        if clean_since(fin.diags, n) {
            lemma_diag_in_clean(m1.at_pos(start + 1), d, fin, n);
        }
    }
}

} // verus!
