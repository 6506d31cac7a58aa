//! Scanning a string (no decoding) and decoding it end at the same offset
//! with the same diagnostics, on valid UTF-8 in which no backslash is
//! followed by a byte beyond ASCII; only the decoded text differs.
use vstd::prelude::*;
use vstd::utf8::*;
use crate::keep_lex::{step_model, with_keep};
use crate::lex_spec::{
    hex4, hex_val, lemma_run_end, lemma_string_step, run_end, run_end_utf8, spec_lex_string,
    spec_string_body, spec_u_escape, string_step, LexModel, StrStep, TokModel,
};

verus! {

/// The input from `p` on is valid UTF-8 (or `p` is past its end).
pub open spec fn rest_valid(src: Seq<u8>, p: int) -> bool {
    p >= src.len() || (0 <= p && valid_utf8(src.subrange(p, src.len() as int)))
}

/// No backslash is followed by a byte beyond ASCII.
pub open spec fn ascii_after_backslash(src: Seq<u8>) -> bool {
    forall|i: int| 0 <= i < src.len() - 1 && src[i] == 92u8 ==> #[trigger] src[i + 1] < 0x80u8
}

proof fn lemma_ascii_step(src: Seq<u8>, p: int)
    requires
        rest_valid(src, p),
        0 <= p < src.len(),
        src[p] < 0x80u8,
    ensures
        rest_valid(src, p + 1),
{
    let s = src.subrange(p, src.len() as int);
    assert(s[0] == src[p]);
    assert(valid_first_scalar(s));
    assert(length_of_first_scalar(s) == 1);
    assert(pop_first_scalar(s) =~= src.subrange(p + 1, src.len() as int));
}

proof fn lemma_ascii_steps(src: Seq<u8>, p: int, q: int)
    requires
        rest_valid(src, p),
        0 <= p <= q,
        forall|i: int| p <= i < q && i < src.len() ==> #[trigger] src[i] < 0x80u8,
    ensures
        rest_valid(src, q),
    decreases q - p,
{
    if p < q && p < src.len() {
        lemma_ascii_step(src, p);
        lemma_ascii_steps(src, p + 1, q);
    }
}

/// A run that ends before an ASCII byte (or at the end) is valid UTF-8, and
/// so is the input after it.
proof fn lemma_run_valid(src: Seq<u8>, p: int, e: int)
    requires
        rest_valid(src, p),
        0 <= p <= e <= src.len(),
        e == src.len() || src[e] < 0x80u8,
    ensures
        valid_utf8(src.subrange(p, e)),
        rest_valid(src, e),
{
    if p == src.len() {
        assert(src.subrange(p, e) =~= Seq::<u8>::empty());
    } else {
        let s = src.subrange(p, src.len() as int);
        let k = e - p;
        if e == src.len() {
            is_char_boundary_start_end_of_seq(s);
        } else {
            is_char_boundary_iff_not_is_continuation_byte(s, k);
            assert(s[k] == src[e]);
        }
        valid_utf8_split(s, k);
        assert(s.subrange(0, k) =~= src.subrange(p, e));
        assert(s.subrange(k, s.len() as int) =~= src.subrange(e, src.len() as int));
    }
}

proof fn lemma_hex_ascii(b: u8)
    requires
        hex_val(b) is Some,
    ensures
        b < 0x80u8,
{
}

/// A `\u` escape reads ASCII bytes only, the same way in both runs.
proof fn lemma_u_ascii(m: LexModel, k: bool)
    ensures
        m.pos <= spec_u_escape(m).0.pos,
        forall|i: int| m.pos <= i < spec_u_escape(m).0.pos && 0 <= i < m.src.len() ==> #[trigger] m.src[i] < 0x80u8,
        spec_u_escape(with_keep(m, k)).0 == with_keep(spec_u_escape(m).0, k),
{
    let p = m.pos;
    let src = m.src;
    if hex4(src, p) is Some {
        lemma_hex_ascii(src[p]);
        lemma_hex_ascii(src[p + 1]);
        lemma_hex_ascii(src[p + 2]);
        lemma_hex_ascii(src[p + 3]);
        if hex4(src, p + 6) is Some {
            lemma_hex_ascii(src[p + 6]);
            lemma_hex_ascii(src[p + 7]);
            lemma_hex_ascii(src[p + 8]);
            lemma_hex_ascii(src[p + 9]);
        }
    }
}

/// One step through a string body, decoding (`m`) and scanning: the same
/// step, and the input after it is still valid.
proof fn lemma_step_sync(m: LexModel, quote: u8, open: int, saw: bool, o1: Seq<char>, o2: Seq<char>)
    requires
        m.valid(),
        m.keep,
        quote < 0x80u8,
        rest_valid(m.src, m.pos),
        ascii_after_backslash(m.src),
    ensures
        ({
            let sa = string_step(m, quote, open, saw, o1);
            let sb = string_step(with_keep(m, false), quote, open, saw, o2);
            &&& (sa is Done <==> sb is Done)
            &&& step_model(sb) == with_keep(step_model(sa), false)
            &&& (sa is Done ==> sb->Done_1 == o2)
            &&& (sa is Next ==> sb->Next_1 == sa->Next_1 && sb->Next_2 == o2 && rest_valid(
                m.src,
                step_model(sa).pos,
            ))
        }),
{
    let f = with_keep(m, false);
    let src = m.src;
    let p = m.pos;
    lemma_string_step(m, quote, open, saw, o1);
    match m.peek() {
        None => {},
        Some(b) => {
            if b == quote || b == 10u8 {
            } else if b == 92u8 {
                let m1 = m.at_pos(p + 2);
                lemma_ascii_step(src, p);
                if p + 1 < src.len() {
                    assert(src[p + 1] < 0x80u8);
                    lemma_ascii_step(src, p + 1);
                }
                let esc = m.at(p + 1);
                if esc == Some(117u8) && !crate::lex_spec::is_plain_escape(esc, quote)
                    && !crate::lex_spec::is_control_escape(esc) {
                    lemma_u_ascii(m1, false);
                    lemma_ascii_steps(src, p + 2, spec_u_escape(m1).0.pos);
                }
            } else if b < 32u8 {
                lemma_ascii_step(src, p);
            } else {
                lemma_run_end(src, p, quote);
                let e0 = run_end(src, p, quote);
                if e0 < src.len() {
                    crate::keep_lex::lemma_run_end_stop(src, p, quote);
                }
                lemma_run_valid(src, p, e0);
                crate::keep_lex::lemma_valid_run(src, p, quote);
                assert(run_end_utf8(src, p, quote) == e0);
                assert(crate::lex_spec::check_run(f.at_pos(e0), p, e0) == f.at_pos(e0));
            }
        },
    }
}

/// A whole string body, decoding and scanning: the same end and the same
/// diagnostics; the scan decodes nothing.
pub proof fn lemma_body_sync(m: LexModel, quote: u8, open: int, saw: bool, o1: Seq<char>, o2: Seq<char>)
    requires
        m.valid(),
        m.keep,
        quote < 0x80u8,
        rest_valid(m.src, m.pos),
        ascii_after_backslash(m.src),
    ensures
        spec_string_body(with_keep(m, false), quote, open, saw, o2) == (
            with_keep(spec_string_body(m, quote, open, saw, o1).0, false),
            o2,
        ),
    decreases m.len() + 2 - m.pos,
{
    lemma_step_sync(m, quote, open, saw, o1, o2);
    lemma_string_step(m, quote, open, saw, o1);
    let f = with_keep(m, false);
    assert(f.valid());
    match string_step(m, quote, open, saw, o1) {
        StrStep::Next(a1, s1, oa) => {
            lemma_body_sync(a1, quote, open, s1, oa, o2);
        },
        _ => {},
    }
}

/// Scanning a string and decoding it, at the same opening quote of an input
/// that is valid UTF-8 with no backslash before a byte beyond ASCII: the two
/// end at the same offset with the same diagnostics, and the scan's string
/// is empty; only the decoded text differs.
pub proof fn law_scan_matches_decode(m: LexModel, quote: u8)
    requires
        m.valid(),
        m.keep,
        quote == 34u8 || quote == 39u8,
        0 <= m.pos < m.len(),
        m.src[m.pos] == quote,
        valid_utf8(m.src),
        ascii_after_backslash(m.src),
    ensures
        spec_lex_string(with_keep(m, false), quote) == (
            with_keep(spec_lex_string(m, quote).0, false),
            TokModel::Str(Seq::empty()),
        ),
{
    let src = m.src;
    is_char_boundary_iff_not_is_continuation_byte(src, m.pos);
    valid_utf8_split(src, m.pos);
    assert(rest_valid(src, m.pos));
    lemma_ascii_step(src, m.pos);
    let mb = m.at_pos(m.pos + 1);
    assert(with_keep(m, false).at_pos(m.pos + 1) == with_keep(mb, false));
    lemma_body_sync(mb, quote, m.pos, false, Seq::empty(), Seq::empty());
}

/// The next token, decoding and scanning, on valid UTF-8 with no backslash
/// before a byte beyond ASCII: the same lexer state after it, and tokens
/// alike but for string text.
pub proof fn lemma_next_sync(m: LexModel)
    requires
        m.keep,
        valid_utf8(m.src),
        ascii_after_backslash(m.src),
    ensures
        ({
            let (a, t) = crate::lex_spec::spec_next_token(m);
            let (b, u) = crate::lex_spec::spec_next_token(with_keep(m, false));
            b == with_keep(a, false) && crate::keep_lex::tsim(t, u)
        }),
    decreases m.len() + 2 - m.pos,
{
    let mb = with_keep(m, false);
    if m.valid() {
        crate::lex_spec::lemma_skip_trivia(m);
        crate::keep_lex::lemma_trivia_keep(m, false);
        let m1 = crate::lex_spec::spec_skip_trivia(m);
        if 0 <= m1.pos < m1.len() {
            if crate::lex_spec::starts_token(m1) {
                lemma_token_sync(m1);
            } else {
                let m2 = crate::lex_spec::skip_bad_byte(m1);
                assert(crate::lex_spec::skip_bad_byte(with_keep(m1, false)) == with_keep(m2, false));
                lemma_next_sync(m2);
            }
        }
    }
}

proof fn lemma_token_sync(m: LexModel)
    requires
        m.valid(),
        m.keep,
        0 <= m.pos < m.len(),
        crate::lex_spec::starts_token(m),
        valid_utf8(m.src),
        ascii_after_backslash(m.src),
    ensures
        ({
            let (a, t) = crate::lex_spec::spec_lex_token(m);
            let (b, u) = crate::lex_spec::spec_lex_token(with_keep(m, false));
            b == with_keep(a, false) && crate::keep_lex::tsim(t, u)
        }),
{
    let mb = with_keep(m, false);
    let start = m.pos;
    let b = m.src[start];
    if crate::lex_spec::is_token_end(b) {
    } else if b == 34u8 {
        law_scan_matches_decode(m, 34u8);
    } else if b == 39u8 {
        let d = crate::lex_spec::dm("E010"@, "strings must use double quotes"@, crate::lex_spec::sp(start, start + 1),
            Some("single-quoted strings are valid in JSON5 but not JSON/JSONC"@), crate::diag::Severity::Error);
        let m1 = m.diag(d);
        assert(mb.diag(d) == with_keep(m1, false));
        law_scan_matches_decode(m1, 39u8);
    } else if b == 0xE2u8 {
        let r = crate::lex_spec::spec_smart_string(m).0;
        assert(crate::lex_spec::spec_smart_string(mb).0 == with_keep(r, false));
    } else if b == 45u8 || crate::lex_spec::is_digit(b) {
        crate::keep_lex::lemma_number_keep(m, false);
    } else if b == 43u8 || b == 46u8 {
        crate::keep_lex::lemma_signed_number_keep(m, false);
    } else {
        crate::keep_lex::lemma_ident_keep(m, false);
    }
}

} // verus!
