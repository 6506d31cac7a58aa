//! The lexer with and without decoded string contents: both runs stay in step
//! (same offsets, same diagnostics, tokens that differ only in string text)
//! until a string holds invalid UTF-8, and from there on both runs have
//! recorded an error, or both have reached the cap.
use vstd::prelude::*;
use vstd::utf8::*;
use crate::conformance::prefix_of;
use crate::diag::{DiagModel, Severity, MAX_DIAGNOSTICS};
use crate::lex_spec::{
    check_run, is_run_stop, lemma_next_token, lemma_run_end, lemma_run_end_utf8, lemma_skip_trivia,
    lemma_string_body, lemma_string_step, run_end, run_end_utf8, skip_bad_byte, spec_lex_ident, spec_lex_number,
    spec_lex_string, spec_lex_token, spec_next_token, spec_skip_trivia, spec_smart_string, spec_string_body,
    spec_u_escape, starts_token, string_step, utf8_diag, utf8_len, LexModel, StrStep, TokenModel,
};
use crate::parse_spec::no_errors;

verus! {

/// `m` with string decoding switched to `k`.
pub open spec fn with_keep(m: LexModel, k: bool) -> LexModel {
    LexModel { src: m.src, mode: m.mode, keep: k, pos: m.pos, diags: m.diags }
}

/// Diagnostics that hold an error, or that reached the cap.
pub open spec fn spoiled(d: Seq<DiagModel>) -> bool {
    !no_errors(d) || d.len() >= MAX_DIAGNOSTICS
}

/// Two tokens alike but for the text of a string.
pub open spec fn tsim(t: TokenModel, u: TokenModel) -> bool {
    t.span == u.span && (t.tok == u.tok || (t.tok is Str && u.tok is Str))
}

pub proof fn lemma_prefix_refl(a: Seq<DiagModel>)
    ensures
        prefix_of(a, a),
{
    assert(a.take(a.len() as int) =~= a);
}

pub proof fn lemma_prefix_trans(a: Seq<DiagModel>, b: Seq<DiagModel>, c: Seq<DiagModel>)
    requires
        prefix_of(a, b),
        prefix_of(b, c),
    ensures
        prefix_of(a, c),
{
    assert(c.take(a.len() as int) =~= c.take(b.len() as int).take(a.len() as int));
}

/// Spoiled diagnostics stay spoiled as they grow.
pub proof fn lemma_spoiled_grows(a: Seq<DiagModel>, b: Seq<DiagModel>)
    requires
        prefix_of(a, b),
        spoiled(a),
    ensures
        spoiled(b),
{
    if !no_errors(a) {
        let i = choose|i: int| 0 <= i < a.len() && a[i].severity != Severity::Warning;
        assert(b.take(a.len() as int)[i] == b[i]);
        assert(b[i].severity != Severity::Warning);
    }
}

proof fn lemma_diag_prefix(m: LexModel, d: DiagModel)
    ensures
        prefix_of(m.diags, m.diag(d).diags),
        m.diags.len() < MAX_DIAGNOSTICS ==> m.diag(d).diags.last() == d,
{
    lemma_prefix_refl(m.diags);
    assert(m.diags.push(d).take(m.diags.len() as int) =~= m.diags);
}

// ------------------------------------------------------------ UTF-8 runs

proof fn lemma_run_end_stable(src: Seq<u8>, i: int, j: int, quote: u8)
    requires
        0 <= i <= j <= run_end(src, i, quote),
    ensures
        run_end(src, j, quote) == run_end(src, i, quote),
    decreases j - i,
{
    if i < j {
        lemma_run_end_stable(src, i + 1, j, quote);
    }
}

/// A run that ends inside the input ends at a stop byte.
pub(crate) proof fn lemma_run_end_stop(src: Seq<u8>, i: int, quote: u8)
    requires
        0 <= i <= src.len(),
        run_end(src, i, quote) < src.len(),
    ensures
        is_run_stop(src[run_end(src, i, quote)], quote),
    decreases src.len() - i,
{
    if i < src.len() && !is_run_stop(src[i], quote) {
        lemma_run_end_stop(src, i + 1, quote);
    }
}

/// Stepping by lead bytes never stops short of the byte-by-byte end.
proof fn lemma_run_end_le_utf8(src: Seq<u8>, i: int, quote: u8)
    requires
        0 <= i <= src.len(),
    ensures
        run_end(src, i, quote) <= run_end_utf8(src, i, quote),
    decreases src.len() + 4 - i,
{
    if i < src.len() && !is_run_stop(src[i], quote) {
        let l = utf8_len(src[i]);
        lemma_run_end(src, i, quote);
        lemma_run_end(src, i + 1, quote);
        if i + l <= run_end(src, i, quote) {
            lemma_run_end_stable(src, i, i + l, quote);
            lemma_run_end_le_utf8(src, i + l, quote);
        } else {
            lemma_run_end_utf8(src, i + l, quote);
        }
    }
}

/// A well-formed first scalar is as long as its lead byte announces.
proof fn lemma_first_len(bytes: Seq<u8>)
    requires
        valid_first_scalar(bytes),
    ensures
        length_of_first_scalar(bytes) == utf8_len(bytes[0]),
        length_of_first_scalar(bytes) <= bytes.len(),
        forall|j: int| 0 < j < length_of_first_scalar(bytes) ==> is_continuation_byte(#[trigger] bytes[j]),
{
}

/// Over a valid run, stepping by lead bytes ends where the byte-by-byte scan does.
pub(crate) proof fn lemma_valid_run(src: Seq<u8>, i: int, quote: u8)
    requires
        0 <= i <= src.len(),
        valid_utf8(src.subrange(i, run_end(src, i, quote))),
    ensures
        run_end_utf8(src, i, quote) == run_end(src, i, quote),
    decreases run_end(src, i, quote) - i,
{
    lemma_run_end(src, i, quote);
    let e = run_end(src, i, quote);
    if i < e {
        let bytes = src.subrange(i, e);
        lemma_first_len(bytes);
        let l = length_of_first_scalar(bytes);
        assert(pop_first_scalar(bytes) =~= src.subrange(i + l, e));
        lemma_run_end_stable(src, i, i + l, quote);
        lemma_valid_run(src, i + l, quote);
    }
}

/// A valid sequence followed by an ASCII byte: the part before it is valid.
proof fn lemma_valid_before_ascii(x: Seq<u8>, y: Seq<u8>)
    requires
        valid_utf8(x + y),
        y.len() > 0,
        y[0] < 0x80u8,
    ensures
        valid_utf8(x),
    decreases x.len(),
{
    if x.len() > 0 {
        let xy = x + y;
        lemma_first_len(xy);
        let l = length_of_first_scalar(xy);
        if l > x.len() {
            assert(xy[x.len() as int] == y[0]);
            assert(is_continuation_byte(xy[x.len() as int]));
        }
        assert forall|j: int| 0 <= j < l implies #[trigger] x[j] == xy[j] by {}
        assert(valid_first_scalar(x));
        assert(length_of_first_scalar(x) == l);
        assert(pop_first_scalar(xy) =~= pop_first_scalar(x) + y);
        lemma_valid_before_ascii(pop_first_scalar(x), y);
    }
}

/// An invalid run stays invalid when stepping by lead bytes runs past its end.
proof fn lemma_invalid_run(src: Seq<u8>, i: int, quote: u8)
    requires
        0 <= i <= src.len(),
        quote < 0x80u8,
        !valid_utf8(src.subrange(i, run_end(src, i, quote))),
    ensures
        ({
            let r = run_end_utf8(src, i, quote);
            !valid_utf8(src.subrange(i, if r > src.len() { src.len() as int } else { r }))
        }),
{
    lemma_run_end(src, i, quote);
    lemma_run_end_le_utf8(src, i, quote);
    let e0 = run_end(src, i, quote);
    let r = run_end_utf8(src, i, quote);
    let e1 = if r > src.len() { src.len() as int } else { r };
    if e1 > e0 && valid_utf8(src.subrange(i, e1)) {
        let x = src.subrange(i, e0);
        let y = src.subrange(e0, e1);
        assert(x + y =~= src.subrange(i, e1));
        assert(y[0] == src[e0]);
        lemma_run_end_stop(src, i, quote);
        lemma_valid_before_ascii(x, y);
    }
}

// ------------------------------------------------------------ strings

pub open spec fn step_model(s: StrStep) -> LexModel {
    match s {
        StrStep::Done(m, _) => m,
        StrStep::Next(m, _, _) => m,
    }
}

/// A run of plain bytes, decoded (`t`) and only checked (`f`).
proof fn lemma_plain_keep(t: LexModel, f: LexModel, quote: u8, open: int, saw: bool, o1: Seq<char>, o2: Seq<char>)
    requires
        t.valid(),
        t.keep,
        f == with_keep(t, false),
        quote < 0x80u8,
        0 <= t.pos < t.len(),
        !is_run_stop(t.src[t.pos], quote),
        t.src[t.pos] != 10u8,
    ensures
        string_step(t, quote, open, saw, o1) is Next,
        string_step(f, quote, open, saw, o2) is Next,
        string_step(t, quote, open, saw, o1)->Next_1 == saw,
        string_step(f, quote, open, saw, o2)->Next_1 == saw,
        ({
            let a = step_model(string_step(t, quote, open, saw, o1));
            let b = step_model(string_step(f, quote, open, saw, o2));
            &&& a.keep && !b.keep
            &&& b == with_keep(a, false) || (spoiled(a.diags) && spoiled(b.diags))
            &&& prefix_of(t.diags, a.diags)
            &&& prefix_of(f.diags, b.diags)
        }),
{
    let p = t.pos;
    lemma_run_end(t.src, p, quote);
    let e0 = run_end(t.src, p, quote);
    let r = run_end_utf8(t.src, p, quote);
    let e = if r > t.len() { t.len() } else { r };
    let run = t.src.subrange(p, e);
    let r0 = t.src.subrange(p, e0);
    lemma_prefix_refl(t.diags);
    if valid_utf8(r0) {
        lemma_valid_run(t.src, p, quote);
        assert(run == r0);
    } else {
        lemma_invalid_run(t.src, p, quote);
        let k = crate::text::valid_up_to(run);
        let k0 = crate::text::valid_up_to(r0);
        let a = utf8_diag(t.at_pos(e), p + k, run[k]);
        let b = utf8_diag(f.at_pos(e0), p + k0, r0[k0]);
        let da = a.diags.last();
        let db = b.diags.last();
        lemma_diag_prefix(t.at_pos(e), da);
        lemma_diag_prefix(f.at_pos(e0), db);
        assert(check_run(f.at_pos(e0), p, e0) == b);
        if t.diags.len() < MAX_DIAGNOSTICS {
            assert(a.diags[a.diags.len() - 1].severity == Severity::Error);
            assert(b.diags[b.diags.len() - 1].severity == Severity::Error);
        }
    }
}

/// One step through a string body in the two runs.
proof fn lemma_step_keep(m: LexModel, k: bool, quote: u8, open: int, saw: bool, o1: Seq<char>, o2: Seq<char>)
    requires
        m.valid(),
        quote < 0x80u8,
    ensures
        ({
            let sa = string_step(m, quote, open, saw, o1);
            let sb = string_step(with_keep(m, k), quote, open, saw, o2);
            let a = step_model(sa);
            let b = step_model(sb);
            &&& (sa is Done <==> sb is Done)
            &&& (sa is Next ==> sa->Next_1 == sb->Next_1)
            &&& b == with_keep(a, k) || (spoiled(a.diags) && spoiled(b.diags))
            &&& prefix_of(m.diags, a.diags)
            &&& prefix_of(m.diags, b.diags)
        }),
{
    let mb = with_keep(m, k);
    lemma_prefix_refl(m.diags);
    match m.peek() {
        None => {
            lemma_diag_prefix(m, string_step(m, quote, open, saw, o1)->Done_0.diags.last());
        },
        Some(b) => {
            if b == quote {
                let m1 = m.at_pos(m.pos + 1);
                let w = crate::lex_spec::win_path_check(m1, open);
                if w != m1 {
                    lemma_diag_prefix(m1, w.diags.last());
                }
            } else if b == 10u8 {
                let n = crate::lex_spec::newline_in_string(m, open);
                lemma_diag_prefix(m, n.diags.last());
            } else if b == 92u8 {
                let esc = m.at(m.pos + 1);
                let m1 = m.at_pos(m.pos + 2);
                if crate::lex_spec::is_plain_escape(esc, quote) || crate::lex_spec::is_control_escape(esc) {
                } else if esc == Some(117u8) {
                    let u = spec_u_escape(m1).0;
                    lemma_u_prefix(m1);
                    assert(spec_u_escape(with_keep(m1, k)).0 == with_keep(u, k));
                } else {
                    let x = crate::lex_spec::bad_escape_diag(m1, open, esc);
                    lemma_diag_prefix(m1, x.diags.last());
                }
            } else if b < 32u8 {
                let x = crate::lex_spec::control_char_diag(m, b);
                lemma_diag_prefix(m, x.diags.last());
            } else if m.keep == k {
                assert(mb == m);
                lemma_string_step(m, quote, open, saw, o1);
                lemma_plain_prefix(m, quote, open, saw, o1);
            } else if m.keep {
                lemma_plain_keep(m, mb, quote, open, saw, o1, o2);
            } else {
                lemma_plain_keep(mb, m, quote, open, saw, o2, o1);
            }
        },
    }
}

proof fn lemma_u_prefix(m: LexModel)
    ensures
        prefix_of(m.diags, spec_u_escape(m).0.diags),
{
    lemma_prefix_refl(m.diags);
    let r = spec_u_escape(m).0;
    if r.diags != m.diags {
        lemma_diag_prefix(m.at_pos(r.pos), r.diags.last());
        assert(r == m.at_pos(r.pos).diag(r.diags.last()));
    }
}

/// A plain run in a single run adds at most one diagnostic.
proof fn lemma_plain_prefix(m: LexModel, quote: u8, open: int, saw: bool, o: Seq<char>)
    requires
        m.valid(),
        0 <= m.pos < m.len(),
        !is_run_stop(m.src[m.pos], quote),
        m.src[m.pos] != 10u8,
    ensures
        prefix_of(m.diags, step_model(string_step(m, quote, open, saw, o)).diags),
{
    let a = step_model(string_step(m, quote, open, saw, o));
    lemma_prefix_refl(m.diags);
    if a.diags != m.diags {
        lemma_diag_prefix(m.at_pos(a.pos), a.diags.last());
        assert(a == m.at_pos(a.pos).diag(a.diags.last()));
    }
}

/// A whole string body in the two runs.
proof fn lemma_body_keep(m: LexModel, k: bool, quote: u8, open: int, saw: bool, o1: Seq<char>, o2: Seq<char>)
    requires
        m.valid(),
        quote < 0x80u8,
    ensures
        ({
            let a = spec_string_body(m, quote, open, saw, o1).0;
            let b = spec_string_body(with_keep(m, k), quote, open, saw, o2).0;
            &&& b == with_keep(a, k) || (spoiled(a.diags) && spoiled(b.diags))
            &&& prefix_of(m.diags, a.diags)
            &&& prefix_of(m.diags, b.diags)
        }),
    decreases m.len() + 2 - m.pos,
{
    let mb = with_keep(m, k);
    lemma_string_step(m, quote, open, saw, o1);
    lemma_string_step(mb, quote, open, saw, o2);
    lemma_step_keep(m, k, quote, open, saw, o1, o2);
    match (string_step(m, quote, open, saw, o1), string_step(mb, quote, open, saw, o2)) {
        (StrStep::Next(a1, s1, oa), StrStep::Next(b1, s2, ob)) => {
            let a = spec_string_body(a1, quote, open, s1, oa).0;
            let b = spec_string_body(b1, quote, open, s2, ob).0;
            if b1 == with_keep(a1, k) {
                lemma_body_keep(a1, k, quote, open, s1, oa, ob);
            } else {
                lemma_body_keep(a1, a1.keep, quote, open, s1, oa, oa);
                lemma_body_keep(b1, b1.keep, quote, open, s2, ob, ob);
                assert(with_keep(a1, a1.keep) == a1);
                assert(with_keep(b1, b1.keep) == b1);
                lemma_spoiled_grows(a1.diags, a.diags);
                lemma_spoiled_grows(b1.diags, b.diags);
            }
            lemma_prefix_trans(m.diags, a1.diags, a.diags);
            lemma_prefix_trans(m.diags, b1.diags, b.diags);
        },
        _ => {},
    }
}

// ------------------------------------------------------------ tokens

proof fn lemma_quoted_keep(m: LexModel, k: bool)
    requires
        m.valid(),
        0 <= m.pos < m.len(),
        m.src[m.pos] == 39u8,
    ensures
        ({
            let (a, t) = spec_lex_token(m);
            let (b, u) = spec_lex_token(with_keep(m, k));
            &&& (b == with_keep(a, k) && tsim(t, u)) || (spoiled(a.diags) && spoiled(b.diags))
            &&& prefix_of(m.diags, a.diags)
            &&& prefix_of(m.diags, b.diags)
        }),
{
    let mb = with_keep(m, k);
    let start = m.pos;
    let d = crate::lex_spec::dm("E010"@, "strings must use double quotes"@, crate::lex_spec::sp(start, start + 1),
        Some("single-quoted strings are valid in JSON5 but not JSON/JSONC"@), Severity::Error);
    lemma_diag_prefix(m, d);
    let m1 = m.diag(d);
    assert(mb.diag(d) == with_keep(m1, k));
    lemma_body_keep(m1.at_pos(start + 1), k, 39u8, start, false, Seq::empty(), Seq::empty());
    lemma_prefix_trans(m.diags, m1.diags, spec_lex_token(m).0.diags);
    lemma_prefix_trans(m.diags, m1.diags, spec_lex_token(mb).0.diags);
}

pub(crate) proof fn lemma_signed_number_keep(m: LexModel, k: bool)
    requires
        m.valid(),
        0 <= m.pos < m.len(),
        m.src[m.pos] == 43u8 || m.src[m.pos] == 46u8,
    ensures
        ({
            let (a, t) = spec_lex_token(m);
            let (b, u) = spec_lex_token(with_keep(m, k));
            &&& b == with_keep(a, k) && t == u
            &&& prefix_of(m.diags, a.diags)
        }),
{
    let mb = with_keep(m, k);
    let start = m.pos;
    let b = m.src[start];
    let d = crate::lex_spec::dm("E012"@, "numbers cannot start with '"@ + seq![crate::text::byte_char(b)] + "'"@,
        crate::lex_spec::sp(start, start + 1), Some("valid in JSON5, not JSON/JSONC"@), Severity::Error);
    let m2 = m.diag(d).at_pos(start + 1);
    lemma_diag_prefix(m, d);
    crate::conformance::lemma_number_sound(m2);
    assert(mb.diag(d).at_pos(start + 1) == with_keep(m2, k));
    lemma_number_keep(m2, k);
    lemma_prefix_trans(m.diags, m2.diags, spec_lex_number(m2).0.diags);
}

pub(crate) proof fn lemma_number_keep(m: LexModel, k: bool)
    ensures
        spec_lex_number(with_keep(m, k)) == (with_keep(spec_lex_number(m).0, k), spec_lex_number(m).1),
{
    let mb = with_keep(m, k);
    let start = m.pos;
    let (m3, n3) = crate::lex_spec::spec_number_int(m);
    assert(crate::lex_spec::spec_number_int(mb) == (with_keep(m3, k), n3));
    let (m4, f4) = crate::lex_spec::spec_number_frac(m3, start);
    assert(crate::lex_spec::spec_number_frac(with_keep(m3, k), start) == (with_keep(m4, k), f4));
    let (m5, f5) = crate::lex_spec::spec_number_exp(m4, start);
    assert(crate::lex_spec::spec_number_exp(with_keep(m4, k), start) == (with_keep(m5, k), f5));
    assert(crate::lex_spec::precision_check(with_keep(m5, k), start) == with_keep(
        crate::lex_spec::precision_check(m5, start),
        k,
    ));
}

pub(crate) proof fn lemma_ident_keep(m: LexModel, k: bool)
    ensures
        spec_lex_ident(with_keep(m, k)) == (with_keep(spec_lex_ident(m).0, k), spec_lex_ident(m).1),
{
}

proof fn lemma_token_keep(m: LexModel, k: bool)
    requires
        m.valid(),
        0 <= m.pos < m.len(),
        starts_token(m),
    ensures
        ({
            let (a, t) = spec_lex_token(m);
            let (b, u) = spec_lex_token(with_keep(m, k));
            &&& (b == with_keep(a, k) && tsim(t, u)) || (spoiled(a.diags) && spoiled(b.diags))
            &&& prefix_of(m.diags, a.diags)
            &&& prefix_of(m.diags, b.diags)
        }),
{
    let mb = with_keep(m, k);
    let start = m.pos;
    let b = m.src[start];
    lemma_prefix_refl(m.diags);
    if crate::lex_spec::is_token_end(b) {
    } else if b == 34u8 {
        lemma_body_keep(m.at_pos(start + 1), k, 34u8, start, false, Seq::empty(), Seq::empty());
    } else if b == 39u8 {
        lemma_quoted_keep(m, k);
    } else if b == 0xE2u8 {
        let r = spec_smart_string(m).0;
        lemma_diag_prefix(m, r.diags.last());
        assert(spec_smart_string(mb).0 == with_keep(r, k));
    } else if b == 45u8 || crate::lex_spec::is_digit(b) {
        crate::conformance::lemma_number_sound(m);
        lemma_number_keep(m, k);
    } else if b == 43u8 || b == 46u8 {
        lemma_signed_number_keep(m, k);
    } else {
        crate::conformance::lemma_ident_sound(m);
        lemma_ident_keep(m, k);
    }
}

pub(crate) proof fn lemma_trivia_keep(m: LexModel, k: bool)
    requires
        m.valid(),
    ensures
        spec_skip_trivia(with_keep(m, k)) == with_keep(spec_skip_trivia(m), k),
        prefix_of(m.diags, spec_skip_trivia(m).diags),
    decreases m.len() - m.pos,
{
    lemma_prefix_refl(m.diags);
    let fin = spec_skip_trivia(m);
    if 0 <= m.pos < m.len() {
        let b = m.src[m.pos];
        if crate::lex_spec::is_ws(b) {
            lemma_trivia_keep(m.at_pos(m.pos + 1), k);
        } else if b == 47u8 && m.pos + 1 < m.len() && m.src[m.pos + 1] == 47u8 {
            crate::lex_spec::lemma_line_end(m.src, m.pos + 2);
            let e = crate::lex_spec::line_end(m.src, m.pos + 2);
            let m1 = crate::lex_spec::comment_diag(m.at_pos(e), m.pos);
            if m1 != m.at_pos(e) {
                lemma_diag_prefix(m.at_pos(e), m1.diags.last());
            }
            lemma_trivia_keep(m1, k);
            lemma_prefix_trans(m.diags, m1.diags, fin.diags);
        } else if b == 47u8 && m.pos + 1 < m.len() && m.src[m.pos + 1] == 42u8 {
            crate::lex_spec::lemma_block_end(m.src, m.pos + 2);
            let (e, closed) = crate::lex_spec::block_end(m.src, m.pos + 2);
            let m1 = m.at_pos(e);
            let m2 = if closed {
                m1
            } else {
                m1.diag(crate::lex_spec::dm("E020"@, "unterminated block comment"@, crate::lex_spec::sp(m.pos, e), None,
                    Severity::Error))
            };
            let m3 = crate::lex_spec::comment_diag(m2, m.pos);
            lemma_prefix_refl(m1.diags);
            lemma_prefix_refl(m2.diags);
            if m2 != m1 {
                lemma_diag_prefix(m1, m2.diags.last());
            }
            if m3 != m2 {
                lemma_diag_prefix(m2, m3.diags.last());
            }
            lemma_prefix_trans(m.diags, m2.diags, m3.diags);
            lemma_trivia_keep(m3, k);
            lemma_prefix_trans(m.diags, m3.diags, fin.diags);
        }
    }
}

/// The next token in the two runs: in step, or both spoiled; and neither run
/// loses a diagnostic.
pub proof fn lemma_next_keep(m: LexModel, k: bool)
    ensures
        ({
            let (a, t) = spec_next_token(m);
            let (b, u) = spec_next_token(with_keep(m, k));
            &&& (b == with_keep(a, k) && tsim(t, u)) || (spoiled(a.diags) && spoiled(b.diags))
            &&& prefix_of(m.diags, a.diags)
            &&& prefix_of(m.diags, b.diags)
        }),
    decreases m.len() + 2 - m.pos,
{
    let mb = with_keep(m, k);
    lemma_prefix_refl(m.diags);
    if m.valid() {
        lemma_skip_trivia(m);
        lemma_trivia_keep(m, k);
        let m1 = spec_skip_trivia(m);
        let (a, t) = spec_next_token(m);
        lemma_prefix_refl(m1.diags);
        if 0 <= m1.pos < m1.len() {
            if starts_token(m1) {
                lemma_token_keep(m1, k);
            } else {
                let m2 = skip_bad_byte(m1);
                lemma_diag_prefix(m1.at_pos(m1.pos + 1), m2.diags.last());
                assert(skip_bad_byte(with_keep(m1, k)) == with_keep(m2, k));
                lemma_next_keep(m2, k);
                lemma_prefix_trans(m1.diags, m2.diags, a.diags);
                lemma_prefix_trans(m1.diags, m2.diags, spec_next_token(with_keep(m2, k)).0.diags);
            }
        }
        lemma_prefix_trans(m.diags, m1.diags, a.diags);
        lemma_prefix_trans(m.diags, m1.diags, spec_next_token(mb).0.diags);
    }
}

} // verus!
