//! Strict validation accepts every JSON text that fits its limits: the lexer
//! reads each token of such a document with at most warnings.
use vstd::prelude::*;
use vstd::utf8::*;
use crate::conformance::{lext, prefix_of, token_kind_sound};
use crate::diag::{DiagModel, Severity, MAX_DIAGNOSTICS};
use crate::grammar::{
    exp_end, false_bytes, follows_ok, frac_end, int_end, is_short_escape, lemma_ws_end, literal_at, null_bytes,
    number_end, string_body_end, string_end, true_bytes, ws_end,
};
use crate::lex_spec::{
    check_run, digits_end, dm, hex4, ident_end, is_control_escape, is_digit, is_high_surrogate, is_ident_byte,
    is_plain_escape, is_token_end, is_ws, lemma_digits_end, lemma_ident_end, lemma_lex_token, lemma_next_token,
    lemma_number_parts, lemma_run_end, lemma_skip_trivia, lemma_string_step, lemma_u_escape, punct, run_end, sp,
    spec_lex_ident, spec_lex_number, spec_lex_token, spec_next_token, spec_number_exp, spec_number_frac,
    spec_number_int, spec_skip_trivia, spec_string_body, spec_u_escape, starts_token, string_step, ascii_text,
    LexModel, Mode, StrStep, TokModel,
};

verus! {

/// Every diagnostic from index `n` on is a warning.
pub open spec fn warn_since(d: Seq<DiagModel>, n: int) -> bool {
    forall|k: int| n <= k < d.len() ==> #[trigger] d[k].severity == Severity::Warning
}

/// `m2` continues `m` with warnings only.
pub open spec fn lwarn(m: LexModel, m2: LexModel) -> bool {
    lext(m, m2) && warn_since(m2.diags, m.diags.len() as int)
}

pub proof fn lemma_lwarn_refl(m: LexModel, p: int)
    ensures
        lwarn(m, m),
        lwarn(m, m.at_pos(p)),
{
    assert(m.diags.take(m.diags.len() as int) =~= m.diags);
}

pub proof fn lemma_lwarn_trans(a: LexModel, b: LexModel, c: LexModel)
    requires
        lwarn(a, b),
        lwarn(b, c),
    ensures
        lwarn(a, c),
{
    assert(c.diags.take(a.diags.len() as int) =~= c.diags.take(b.diags.len() as int).take(a.diags.len() as int));
    assert forall|k: int| a.diags.len() <= k < c.diags.len() implies #[trigger] c.diags[k].severity == Severity::Warning by {
        if k < b.diags.len() {
            assert(c.diags.take(b.diags.len() as int)[k] == c.diags[k]);
            assert(b.diags[k].severity == Severity::Warning);
        }
    }
}

/// A warning keeps a continuation warning-only.
pub proof fn lemma_lwarn_diag(m: LexModel, d: DiagModel)
    requires
        d.severity == Severity::Warning,
    ensures
        lwarn(m, m.diag(d)),
{
    assert(m.diags.push(d).take(m.diags.len() as int) =~= m.diags);
    assert(m.diags.take(m.diags.len() as int) =~= m.diags);
}

/// Whitespace up to a token that is not `/` is skipped, nothing else happens.
proof fn lemma_trivia_complete(m: LexModel)
    requires
        m.valid(),
        0 <= m.pos <= m.len(),
        ws_end(m.src, m.pos) < m.len() ==> m.src[ws_end(m.src, m.pos)] != 47u8,
    ensures
        spec_skip_trivia(m) == m.at_pos(ws_end(m.src, m.pos)),
    decreases m.len() - m.pos,
{
    if m.pos < m.len() && is_ws(m.src[m.pos]) {
        lemma_trivia_complete(m.at_pos(m.pos + 1));
        assert(m.at_pos(m.pos + 1).at_pos(ws_end(m.src, m.pos)) == m.at_pos(ws_end(m.src, m.pos)));
    } else {
        assert(m.at_pos(m.pos) == m);
    }
}

/// A `\u` escape of the grammar (the `u` just consumed): warnings at most,
/// and the grammar goes on from where the lexer does.
proof fn lemma_u_complete(m: LexModel)
    requires
        m.valid(),
        0 <= m.pos <= m.len(),
        hex4(m.src, m.pos) is Some,
        string_body_end(m.src, m.pos + 4) is Some,
    ensures
        lwarn(m, spec_u_escape(m).0),
        string_body_end(m.src, spec_u_escape(m).0.pos) == string_body_end(m.src, m.pos + 4),
        spec_u_escape(m).0.pos <= m.len(),
{
    let p = m.pos;
    let src = m.src;
    lemma_u_escape(m);
    let hi = hex4(src, p)->0;
    let m1 = m.at_pos(p + 4);
    lemma_lwarn_refl(m, p + 4);
    let sur = |mm: LexModel| dm("W017"@, "lone surrogate in \\u escape"@, sp(crate::lex_spec::sat_sub(mm.pos, 6), mm.pos),
        Some(crate::lex_spec::surrogate_hint()), Severity::Warning);
    lemma_lwarn_diag(m1, sur(m1));
    lemma_lwarn_trans(m, m1, m1.diag(sur(m1)));
    if is_high_surrogate(hi) && m1.at(p + 4) == Some(92u8) && m1.at(p + 5) == Some(117u8) {
        assert(!is_short_escape(117u8));
        assert(hex4(src, p + 6) is Some);
        let m3 = m1.at_pos(p + 10);
        lemma_lwarn_refl(m, p + 10);
        lemma_lwarn_diag(m3, sur(m3));
        lemma_lwarn_trans(m, m3, m3.diag(sur(m3)));
        assert(string_body_end(src, p + 4) == string_body_end(src, p + 10));
    }
}

/// A string body of the grammar is lexed to its end with warnings at most.
#[verifier::rlimit(50)]
#[verifier::spinoff_prover]
proof fn lemma_body_complete(m: LexModel, open: int, saw: bool, out: Seq<char>)
    requires
        m.valid(),
        !m.keep,
        0 <= m.pos <= m.len(),
        string_body_end(m.src, m.pos) is Some,
    ensures
        lwarn(m, spec_string_body(m, 34u8, open, saw, out).0),
        string_body_end(m.src, m.pos) == Some(spec_string_body(m, 34u8, open, saw, out).0.pos),
    decreases m.len() + 2 - m.pos,
{
    let src = m.src;
    let pos = m.pos;
    let fin = spec_string_body(m, 34u8, open, saw, out).0;
    lemma_string_step(m, 34u8, open, saw, out);
    lemma_lwarn_refl(m, pos + 1);
    let b = src[pos];
    if b == 34u8 {
        let m1 = m.at_pos(pos + 1);
        if saw && crate::lex_spec::looks_like_drive(src, open) {
            let d = dm("W051"@, "control escape in what looks like a Windows path"@, sp(open, m1.pos),
                Some("\\t here is a TAB character, not a backslash + t — double every backslash: C:\\\\temp"@),
                Severity::Warning);
            lemma_lwarn_diag(m1, d);
            lemma_lwarn_trans(m, m1, m1.diag(d));
        }
    } else if b == 92u8 {
        let esc = src[pos + 1];
        let m1 = m.at_pos(pos + 2);
        lemma_lwarn_refl(m, pos + 2);
        if is_short_escape(esc) {
            assert(is_plain_escape(m.at(pos + 1), 34u8) || is_control_escape(m.at(pos + 1)));
            lemma_body_complete(m1, open, if is_control_escape(m.at(pos + 1)) { true } else { saw }, out);
            lemma_lwarn_trans(m, m1, fin);
        } else {
            assert(esc == 117u8);
            lemma_u_complete(m1);
            let u = spec_u_escape(m1).0;
            lemma_lwarn_trans(m, m1, u);
            assert(fin == spec_string_body(u, 34u8, open, saw, out).0);
            lemma_body_complete(u, open, saw, out);
            lemma_lwarn_trans(m, u, fin);
        }
    } else {
        lemma_run_end(src, pos, 34u8);
        let e = run_end(src, pos, 34u8);
        assert(valid_utf8(src.subrange(pos, e)));
        assert(check_run(m.at_pos(e), pos, e) == m.at_pos(e));
        lemma_lwarn_refl(m, e);
        lemma_body_complete(m.at_pos(e), open, saw, out);
        lemma_lwarn_trans(m, m.at_pos(e), fin);
    }
}

/// The grammar's integer part ends where the lexer's digits do, when what
/// comes after it cannot be a digit.
proof fn lemma_int_complete(m: LexModel)
    requires
        m.valid(),
        0 <= m.pos < m.len(),
        m.src[m.pos] == 45u8 || is_digit(m.src[m.pos]),
        int_end(m.src, if m.src[m.pos] == 45u8 { m.pos + 1 } else { m.pos }) matches Some(b) && (b >= m.len()
            || !is_digit(m.src[b])),
    ensures
        lwarn(m, spec_number_int(m).0),
        int_end(m.src, if m.src[m.pos] == 45u8 { m.pos + 1 } else { m.pos }) == Some(spec_number_int(m).0.pos),
{
    let src = m.src;
    let start = m.pos;
    let p1 = if m.peek() == Some(45u8) { start + 1 } else { start };
    lemma_digits_end(src, p1);
    if src[p1] == 48u8 {
        lemma_digits_end(src, p1 + 1);
        assert(digits_end(src, p1) == p1 + 1) by {
            assert(digits_end(src, p1) == digits_end(src, p1 + 1));
        }
    }
    assert(spec_number_int(m).0 == m.at_pos(digits_end(src, p1)));
    lemma_lwarn_refl(m, digits_end(src, p1));
}

proof fn lemma_frac_complete(m: LexModel, start: int)
    requires
        m.valid(),
        0 <= m.pos <= m.len(),
        frac_end(m.src, m.pos) is Some,
    ensures
        lwarn(m, spec_number_frac(m, start).0),
        frac_end(m.src, m.pos) == Some(spec_number_frac(m, start).0.pos),
{
    lemma_lwarn_refl(m, digits_end(m.src, m.pos + 1));
}

proof fn lemma_exp_complete(m: LexModel, start: int)
    requires
        m.valid(),
        0 <= m.pos <= m.len(),
        exp_end(m.src, m.pos) is Some,
    ensures
        lwarn(m, spec_number_exp(m, start).0),
        exp_end(m.src, m.pos) == Some(spec_number_exp(m, start).0.pos),
{
    let q = m.pos + 1;
    let q1 = if m.at(q) == Some(43u8) || m.at(q) == Some(45u8) { q + 1 } else { q };
    lemma_lwarn_refl(m, digits_end(m.src, q1));
}

/// A number of the grammar, followed by what may follow it, is lexed with
/// warnings at most.
proof fn lemma_number_complete(m: LexModel)
    requires
        m.valid(),
        0 <= m.pos < m.len(),
        m.src[m.pos] == 45u8 || is_digit(m.src[m.pos]),
        number_end(m.src, m.pos) is Some,
        follows_ok(m.src, number_end(m.src, m.pos)->0),
    ensures
        lwarn(m, spec_lex_number(m).0),
        number_end(m.src, m.pos) == Some(spec_lex_number(m).0.pos),
{
    let src = m.src;
    let start = m.pos;
    let a = if src[start] == 45u8 { start + 1 } else { start };
    let b = int_end(src, a)->0;
    let c = frac_end(src, b)->0;
    let e = exp_end(src, c)->0;
    crate::grammar::lemma_number_end_bound(src, start);
    assert(b >= src.len() || !is_digit(src[b])) by {
        if b < src.len() && is_digit(src[b]) {
            assert(c == b);
            assert(e == c);
        }
    }
    lemma_number_parts(m, start);
    lemma_int_complete(m);
    let m3 = spec_number_int(m).0;
    lemma_number_parts(m3, start);
    lemma_frac_complete(m3, start);
    let m4 = spec_number_frac(m3, start).0;
    lemma_number_parts(m4, start);
    lemma_exp_complete(m4, start);
    let m5 = spec_number_exp(m4, start).0;
    let m6 = spec_lex_number(m).0;
    lemma_lwarn_trans(m, m3, m4);
    lemma_lwarn_trans(m, m4, m5);
    match crate::lex_spec::precision_msg(m5.src.subrange(start, m5.pos)) {
        Some(msg) => {
            let dw = dm("W050"@, msg, sp(start, m5.pos),
                Some("store large IDs as strings, or parse with a lossless-number option"@), Severity::Warning);
            lemma_lwarn_diag(m5, dw);
        },
        None => {},
    }
    lemma_lwarn_refl(m5, 0);
    assert(lwarn(m5, m6));
    lemma_lwarn_trans(m, m5, m6);
}

/// A literal of the grammar, followed by what may follow it, is lexed as that
/// literal.
proof fn lemma_ident_complete(m: LexModel)
    requires
        m.valid(),
        0 <= m.pos < m.len(),
        (literal_at(m.src, m.pos, true_bytes()) && follows_ok(m.src, m.pos + 4)) || (literal_at(m.src, m.pos, false_bytes())
            && follows_ok(m.src, m.pos + 5)) || (literal_at(m.src, m.pos, null_bytes()) && follows_ok(m.src, m.pos + 4)),
    ensures
        lwarn(m, spec_lex_ident(m).0),
        literal_at(m.src, m.pos, true_bytes()) ==> spec_lex_ident(m).1 is True && spec_lex_ident(m).0.pos == m.pos + 4,
        literal_at(m.src, m.pos, false_bytes()) ==> spec_lex_ident(m).1 is False && spec_lex_ident(m).0.pos == m.pos + 5,
        literal_at(m.src, m.pos, null_bytes()) ==> spec_lex_ident(m).1 is Null && spec_lex_ident(m).0.pos == m.pos + 4,
{
    let src = m.src;
    let s = m.pos;
    reveal_strlit("true");
    reveal_strlit("false");
    reveal_strlit("null");
    let n: int = if literal_at(src, s, true_bytes()) { 4 } else if literal_at(src, s, false_bytes()) { 5 } else { 4 };
    let w = if literal_at(src, s, true_bytes()) { true_bytes() } else if literal_at(src, s, false_bytes()) { false_bytes() } else { null_bytes() };
    assert(literal_at(src, s, w) && follows_ok(src, s + n));
    assert(src.subrange(s, s + n) == w);
    assert forall|k: int| s <= k < s + n implies is_ident_byte(src[k]) by {
        assert(src[k] == w[k - s]);
    }
    lemma_ident_end_at(src, s, s + n);
    assert(ident_end(src, s) == s + n);
    assert(ascii_text(true_bytes()) =~= "true"@);
    assert(ascii_text(false_bytes()) =~= "false"@);
    assert(ascii_text(null_bytes()) =~= "null"@);
    assert("null"@[0] != "true"@[0]);
    assert("null"@ != "true"@);
    assert("null"@ != "false"@);
    assert("false"@ != "true"@);
    lemma_lwarn_refl(m, s + n);
}

/// Bare-word bytes from `i` up to `e`, and none at `e`: the word ends at `e`.
proof fn lemma_ident_end_at(src: Seq<u8>, i: int, e: int)
    requires
        0 <= i <= e,
        forall|k: int| i <= k < e ==> is_ident_byte(#[trigger] src[k]),
        e <= src.len(),
        e == src.len() || !is_ident_byte(src[e]),
    ensures
        ident_end(src, i) == e,
    decreases e - i,
{
    if i < e {
        lemma_ident_end_at(src, i + 1, e);
    }
}

/// A token of the grammar starts at `t` (or the input ends there), followed
/// by what may follow it.
pub open spec fn token_at_ok(src: Seq<u8>, t: int) -> bool {
    ||| t == src.len()
    ||| 0 <= t < src.len() && (is_token_end(src[t]) || (src[t] == 34u8 && string_end(src, t) is Some) || ((src[t] == 45u8
        || is_digit(src[t])) && number_end(src, t) is Some && follows_ok(src, number_end(src, t)->0)) || (literal_at(
        src,
        t,
        true_bytes(),
    ) && follows_ok(src, t + 4)) || (literal_at(src, t, false_bytes()) && follows_ok(src, t + 5)) || (literal_at(
        src,
        t,
        null_bytes(),
    ) && follows_ok(src, t + 4)))
}

/// The token that starts at `t` is lexed as the grammar reads it, with
/// warnings at most.
pub proof fn lemma_next_complete(m: LexModel)
    requires
        m.valid(),
        !m.keep,
        0 <= m.pos <= m.len(),
        token_at_ok(m.src, ws_end(m.src, m.pos)),
    ensures
        lwarn(m, spec_next_token(m).0),
        spec_next_token(m).1.span.start as int == ws_end(m.src, m.pos),
        token_kind_sound(m.src, spec_next_token(m).1),
        !(spec_next_token(m).1.tok is Ident),
        spec_next_token(m).0.pos <= m.len(),
        spec_next_token(m).1.tok is Eof ==> ws_end(m.src, m.pos) == m.len() && spec_next_token(m).0.pos == m.len(),
        !(spec_next_token(m).1.tok is Eof) ==> spec_next_token(m).0.pos == spec_next_token(m).1.span.end,
{
    let src = m.src;
    let t = ws_end(src, m.pos);
    lemma_ws_end(src, m.pos);
    if t < src.len() {
        assert(src[t] != 47u8) by {
            if literal_at(src, t, true_bytes()) { assert(src[t] == src.subrange(t, t + 4)[0]); }
            if literal_at(src, t, false_bytes()) { assert(src[t] == src.subrange(t, t + 5)[0]); }
            if literal_at(src, t, null_bytes()) { assert(src[t] == src.subrange(t, t + 4)[0]); }
        }
    }
    lemma_trivia_complete(m);
    lemma_skip_trivia(m);
    let m1 = m.at_pos(t);
    lemma_lwarn_refl(m, t);
    if t < src.len() {
        let b = src[t];
        if literal_at(src, t, true_bytes()) { assert(b == src.subrange(t, t + 4)[0]); }
        if literal_at(src, t, false_bytes()) { assert(b == src.subrange(t, t + 5)[0]); }
        if literal_at(src, t, null_bytes()) { assert(b == src.subrange(t, t + 4)[0]); }
        assert(starts_token(m1));
        lemma_lex_token(m1);
        let (fin, tok) = spec_lex_token(m1);
        if is_token_end(b) {
            lemma_lwarn_refl(m1, t + 1);
        } else if b == 34u8 {
            lemma_body_complete(m1.at_pos(t + 1), t, false, Seq::empty());
            crate::grammar::lemma_string_body_end_bound(src, t + 1);
            lemma_lwarn_refl(m1, t + 1);
            lemma_lwarn_trans(m1, m1.at_pos(t + 1), fin);
        } else if b == 45u8 || is_digit(b) {
            lemma_number_complete(m1);
            crate::grammar::lemma_number_end_bound(src, t);
        } else {
            lemma_ident_complete(m1);
        }
        lemma_lwarn_trans(m, m1, fin);
    }
}

} // verus!
