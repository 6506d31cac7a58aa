//! Escaping round-trips: the lexer reads the JSON string literal that the
//! report writes for a text back as that same text, with no error.
use vstd::prelude::*;
use vstd::utf8::*;
use crate::completeness::{lemma_lwarn_diag, lemma_lwarn_refl, lemma_lwarn_trans, lwarn};
use crate::lex_spec::{
    hex4, hex_val, is_run_stop, run_end, run_end_utf8, spec_string_body, spec_u_escape, string_step,
    LexModel, StrStep,
};
use crate::report::{esc_body, esc_char, quoted};
use crate::report_law::{
    lemma_encode_ascii, lemma_encode_ascii_seq, lemma_encode_concat, lemma_encode_high, lemma_encode_one,
    lemma_esc_cons, lemma_run_end_extends, plain,
};
use crate::text::{hex2_lower, hex_lower};

verus! {

/// A character that the report writes as it is.
pub open spec fn is_plain_char(c: char) -> bool {
    (c as u32) >= 0x20 && c != '"' && c != '\\'
}

/// The bytes of a text with nothing to escape hold no byte that ends a run.
proof fn lemma_plain_bytes(t: Seq<char>)
    requires
        plain(t),
    ensures
        forall|k: int| 0 <= k < encode_utf8(t).len() ==> !is_run_stop(#[trigger] encode_utf8(t)[k], 34u8),
    decreases t.len(),
{
    if t.len() > 0 {
        let c = t[0];
        let rest = t.drop_first();
        assert(t =~= seq![c] + rest);
        assert(plain(rest)) by {
            assert forall|i: int| 0 <= i < rest.len() implies (#[trigger] rest[i] as u32) >= 0x20 && rest[i] != '"'
                && rest[i] != '\\' by {
                assert(rest[i] == t[i + 1]);
            }
        }
        lemma_plain_bytes(rest);
        lemma_encode_concat(seq![c], rest);
        lemma_encode_one(c);
        let bc = encode_utf8(seq![c]);
        assert(is_plain_char(c)) by {
            assert(t[0] == c);
        }
        if (c as u32) < 0x80 {
            lemma_encode_ascii(c);
            assert(bc == seq![(c as u32) as u8]);
            let v = c as u32;
            assert(v < 0x80 ==> (v as u8) as u32 == v) by (bit_vector);
            assert(v != 34 && v != 92) by {
                assert(c != '"' && c != '\\');
                char_u32_cast(c, v);
                if v == 34 {
                    assert((v as char) == (34u32 as char));
                    assert('"' as u32 == 34u32);
                    char_u32_cast('"', 34u32);
                }
                if v == 92 {
                    assert('\\' as u32 == 92u32);
                    char_u32_cast('\\', 92u32);
                }
            }
        } else {
            lemma_encode_high(c);
        }
        let all = encode_utf8(t);
        assert(all == bc + encode_utf8(rest));
        assert forall|k: int| 0 <= k < all.len() implies !is_run_stop(#[trigger] all[k], 34u8) by {
            if k < bc.len() {
                assert(all[k] == bc[k]);
            } else {
                assert(all[k] == encode_utf8(rest)[k - bc.len()]);
            }
        }
    }
}

/// A run of plain bytes before a stop byte: both scans end at the stop, and
/// the run decodes to the text it encodes.
proof fn lemma_plain_run(src: Seq<u8>, j: int, t: Seq<char>)
    requires
        plain(t),
        0 <= j,
        j + encode_utf8(t).len() < src.len(),
        src.subrange(j, j + encode_utf8(t).len()) == encode_utf8(t),
        is_run_stop(src[j + encode_utf8(t).len()], 34u8),
    ensures
        run_end(src, j, 34u8) == j + encode_utf8(t).len(),
        run_end_utf8(src, j, 34u8) == j + encode_utf8(t).len(),
        valid_utf8(src.subrange(j, j + encode_utf8(t).len())),
        decode_utf8(src.subrange(j, j + encode_utf8(t).len())) == t,
{
    let n = encode_utf8(t).len() as int;
    lemma_plain_bytes(t);
    assert forall|k: int| j <= k < j + n implies !is_run_stop(#[trigger] src[k], 34u8) by {
        assert(src[k] == src.subrange(j, j + n)[k - j]);
    }
    lemma_run_end_extends(src, j, j + n, 34u8);
    encode_utf8_valid_utf8(t);
    encode_utf8_decode_utf8(t);
    crate::keep_lex::lemma_valid_run(src, j, 34u8);
}

/// A character that the report escapes: its escape begins with a backslash,
/// and the lexer reads the escape back as the character.
proof fn lemma_escape_decodes(m: LexModel, open: int, saw: bool, out: Seq<char>, c: char)
    requires
        m.valid(),
        m.keep,
        !is_plain_char(c),
        0 <= m.pos,
        m.pos + encode_utf8(esc_char(c)).len() < m.len(),
        m.src.subrange(m.pos, m.pos + encode_utf8(esc_char(c)).len()) == encode_utf8(esc_char(c)),
    ensures
        encode_utf8(esc_char(c))[0] == 92u8,
        string_step(m, 34u8, open, saw, out) is Next,
        string_step(m, 34u8, open, saw, out)->Next_0 == m.at_pos(m.pos + encode_utf8(esc_char(c)).len()),
        string_step(m, 34u8, open, saw, out)->Next_2 == out.push(c),
{
    let v = c as u32;
    let e = esc_char(c);
    let j = m.pos;
    reveal_strlit("\\\"");
    reveal_strlit("\\\\");
    reveal_strlit("\\n");
    reveal_strlit("\\r");
    reveal_strlit("\\t");
    reveal_strlit("\\u00");
    assert(forall|i: int| 0 <= i < e.len() ==> (#[trigger] e[i] as u32) < 0x80) by {
        if v < 0x20 && !(c == '\n' || c == '\r' || c == '\t') {
            let b = v as u8;
            assert(e == "\\u00"@ + hex2_lower(b));
            assert(e.len() == 6);
        }
    }
    lemma_encode_ascii_seq(e);
    let be = encode_utf8(e);
    let src = m.src;
    assert forall|k: int| 0 <= k < be.len() implies src[j + k] == #[trigger] be[k] by {
        assert(src.subrange(j, j + be.len())[k] == src[j + k]);
    }
    assert(e[0] == '\\');
    assert(be[0] == (e[0] as u32) as u8);
    assert(src[j + 0] == be[0]);
    assert(src[j] == 92u8);
    assert(src[j + 1] == be[1]);
    assert(be[1] == (e[1] as u32) as u8);
    if v < 0x20 && !(c == '\n' || c == '\r' || c == '\t') {
        let b = v as u8;
        assert(e == "\\u00"@ + hex2_lower(b));
        assert(e[1] == 'u' && e[2] == '0' && e[3] == '0');
        assert(e[4] == hex_lower(b / 16) && e[5] == hex_lower(b % 16));
        assert(src[j + 2] == be[2] && be[2] == (e[2] as u32) as u8);
        assert(src[j + 3] == be[3] && be[3] == (e[3] as u32) as u8);
        assert(src[j + 4] == be[4] && be[4] == (e[4] as u32) as u8);
        assert(src[j + 5] == be[5] && be[5] == (e[5] as u32) as u8);
        assert(src[j + 1] == 117u8);
        assert(src[j + 2] == 48u8 && src[j + 3] == 48u8);
        assert(b / 16 < 2);
        assert(hex_val(src[j + 4]) == Some((b / 16) as u32));
        assert(hex_val(src[j + 5]) == Some((b % 16) as u32));
        assert(hex4(src, j + 2) == Some(v));
        let m1 = m.at_pos(j + 2);
        assert(crate::text::is_scalar_value(v)) by {
            assert(v < 0xD800);
        }
        assert(spec_u_escape(m1) == (m1.at_pos(j + 6), seq![c]));
        assert(out + seq![c] =~= out.push(c));
    }
}

/// How many characters at the front of `t` the report writes as they are.
pub open spec fn plain_run_len(t: Seq<char>) -> nat
    decreases t.len(),
{
    if t.len() > 0 && is_plain_char(t[0]) {
        1 + plain_run_len(t.drop_first())
    } else {
        0
    }
}

proof fn lemma_plain_run_len(t: Seq<char>)
    ensures
        plain_run_len(t) <= t.len(),
        plain(t.take(plain_run_len(t) as int)),
        plain_run_len(t) < t.len() ==> !is_plain_char(t[plain_run_len(t) as int]),
        t.len() > 0 && is_plain_char(t[0]) ==> plain_run_len(t) >= 1,
    decreases t.len(),
{
    if t.len() > 0 && is_plain_char(t[0]) {
        let r = t.drop_first();
        lemma_plain_run_len(r);
        let k = plain_run_len(t) as int;
        assert forall|i: int| 0 <= i < t.take(k).len() implies (#[trigger] t.take(k)[i] as u32) >= 0x20 && t.take(
            k,
        )[i] != '"' && t.take(k)[i] != '\\' by {
            if i > 0 {
                assert(t.take(k)[i] == r.take(k - 1)[i - 1]);
            }
        }
        if k < t.len() {
            assert(t[k] == r[k - 1]);
        }
    } else {
        assert(t.take(0) =~= Seq::<char>::empty());
    }
}

proof fn lemma_esc_concat(a: Seq<char>, b: Seq<char>)
    ensures
        esc_body(a + b) == esc_body(a) + esc_body(b),
    decreases b.len(),
{
    if b.len() == 0 {
        assert(a + b =~= a);
        assert(esc_body(a) + esc_body(b) =~= esc_body(a));
    } else {
        assert((a + b).drop_last() =~= a + b.drop_last());
        assert((a + b).last() == b.last());
        lemma_esc_concat(a, b.drop_last());
        assert(esc_body(a + b) =~= esc_body(a) + esc_body(b));
    }
}

/// The escaped text of `t`, then a closing quote, read by the lexer with
/// decoding on: it reads back `t`, ends past the quote, and adds warnings
/// at most.
pub proof fn lemma_body_decodes(m: LexModel, open: int, saw: bool, out: Seq<char>, t: Seq<char>)
    requires
        m.valid(),
        m.keep,
        0 <= m.pos,
        m.pos + encode_utf8(esc_body(t)).len() < m.len(),
        m.src.subrange(m.pos, m.pos + encode_utf8(esc_body(t)).len()) == encode_utf8(esc_body(t)),
        m.src[m.pos + encode_utf8(esc_body(t)).len()] == 34u8,
    ensures
        spec_string_body(m, 34u8, open, saw, out).1 == out + t,
        spec_string_body(m, 34u8, open, saw, out).0.pos == m.pos + encode_utf8(esc_body(t)).len() + 1,
        lwarn(m, spec_string_body(m, 34u8, open, saw, out).0),
    decreases t.len(), 1int,
{
    if t.len() == 0 {
        lemma_body_end(m, open, saw, out, t);
    } else if !is_plain_char(t[0]) {
        lemma_body_escape(m, open, saw, out, t);
    } else {
        lemma_body_plain(m, open, saw, out, t);
    }
}

proof fn lemma_body_end(m: LexModel, open: int, saw: bool, out: Seq<char>, t: Seq<char>)
    requires
        m.valid(),
        m.keep,
        0 <= m.pos,
        m.pos + encode_utf8(esc_body(t)).len() < m.len(),
        m.src.subrange(m.pos, m.pos + encode_utf8(esc_body(t)).len()) == encode_utf8(esc_body(t)),
        m.src[m.pos + encode_utf8(esc_body(t)).len()] == 34u8,
        t.len() == 0,
    ensures
        spec_string_body(m, 34u8, open, saw, out).1 == out + t,
        spec_string_body(m, 34u8, open, saw, out).0.pos == m.pos + encode_utf8(esc_body(t)).len() + 1,
        lwarn(m, spec_string_body(m, 34u8, open, saw, out).0),
{
    let j = m.pos;
    let n = encode_utf8(esc_body(t)).len() as int;
    crate::lex_spec::lemma_string_step(m, 34u8, open, saw, out);
    assert(esc_body(t) =~= Seq::<char>::empty());
    assert(encode_utf8(Seq::<char>::empty()) =~= Seq::<u8>::empty());
    let m1 = m.at_pos(j + 1);
    lemma_lwarn_refl(m, j + 1);
    if saw && crate::lex_spec::looks_like_drive(m.src, open) {
        let w = crate::lex_spec::win_path_check(m1, open);
        if m1.diags.len() < crate::diag::MAX_DIAGNOSTICS {
            lemma_lwarn_diag(m1, crate::lex_spec::dm("W051"@, "control escape in what looks like a Windows path"@,
                crate::lex_spec::sp(open, m1.pos), Some(
                "\\t here is a TAB character, not a backslash + t — double every backslash: C:\\\\temp"@,
            ), crate::diag::Severity::Warning));
        }
        lemma_lwarn_trans(m, m1, w);
    }
    assert(out + t =~= out);
}

#[verifier::spinoff_prover]
#[verifier::rlimit(50)]
proof fn lemma_body_escape(m: LexModel, open: int, saw: bool, out: Seq<char>, t: Seq<char>)
    requires
        m.valid(),
        m.keep,
        0 <= m.pos,
        m.pos + encode_utf8(esc_body(t)).len() < m.len(),
        m.src.subrange(m.pos, m.pos + encode_utf8(esc_body(t)).len()) == encode_utf8(esc_body(t)),
        m.src[m.pos + encode_utf8(esc_body(t)).len()] == 34u8,
        t.len() > 0,
        !is_plain_char(t[0]),
    ensures
        spec_string_body(m, 34u8, open, saw, out).1 == out + t,
        spec_string_body(m, 34u8, open, saw, out).0.pos == m.pos + encode_utf8(esc_body(t)).len() + 1,
        lwarn(m, spec_string_body(m, 34u8, open, saw, out).0),
    decreases t.len(), 0int,
{
    let j = m.pos;
    let n = encode_utf8(esc_body(t)).len() as int;
    crate::lex_spec::lemma_string_step(m, 34u8, open, saw, out);
    let c = t[0];
    let rest = t.drop_first();
    assert(t =~= seq![c] + rest);
    lemma_esc_cons(c, rest);
    let be = encode_utf8(esc_char(c));
    let br = encode_utf8(esc_body(rest));
    lemma_encode_concat(esc_char(c), esc_body(rest));
    crate::report_law::lemma_split(m.src, j, be, br);
    lemma_escape_decodes(m, open, saw, out, c);
    let st = string_step(m, 34u8, open, saw, out);
    let m2 = m.at_pos(j + be.len());
    let saw2 = st->Next_1;
    assert(m2.valid());
    assert(st == StrStep::Next(m2, saw2, out.push(c)));
    assert(spec_string_body(m, 34u8, open, saw, out) == spec_string_body(m2, 34u8, open, saw2, out.push(c)));
    lemma_body_decodes(m2, open, saw2, out.push(c), rest);
    lemma_lwarn_refl(m, j + be.len());
    lemma_lwarn_trans(m, m2, spec_string_body(m2, 34u8, open, saw2, out.push(c)).0);
    assert(out.push(c) + rest =~= out + t);
}

/// One step over a run of plain characters.
proof fn lemma_plain_step(m: LexModel, open: int, saw: bool, out: Seq<char>, block: Seq<char>)
    requires
        m.valid(),
        m.keep,
        plain(block),
        block.len() > 0,
        0 <= m.pos,
        m.pos + encode_utf8(block).len() < m.len(),
        m.src.subrange(m.pos, m.pos + encode_utf8(block).len()) == encode_utf8(block),
        is_run_stop(m.src[m.pos + encode_utf8(block).len()], 34u8),
    ensures
        string_step(m, 34u8, open, saw, out) == StrStep::Next(m.at_pos(m.pos + encode_utf8(block).len()), saw, out
            + block),
{
    let j = m.pos;
    let bb = encode_utf8(block);
    lemma_plain_run(m.src, j, block);
    lemma_plain_bytes(block);
    assert(bb.len() > 0) by {
        assert(encode_scalar(block[0] as u32).len() >= 1);
    }
    assert(m.src[j] == m.src.subrange(j, j + bb.len())[0]);
    assert(!is_run_stop(bb[0], 34u8));
}

/// What follows a run of plain characters in the escaped text stops the run.
proof fn lemma_stop_after(m: LexModel, j: int, rest: Seq<char>)
    requires
        0 <= j,
        j + encode_utf8(esc_body(rest)).len() < m.len(),
        m.src.subrange(j, j + encode_utf8(esc_body(rest)).len()) == encode_utf8(esc_body(rest)),
        m.src[j + encode_utf8(esc_body(rest)).len()] == 34u8,
        rest.len() > 0 ==> !is_plain_char(rest[0]),
        m.valid(),
        m.keep,
    ensures
        is_run_stop(m.src[j], 34u8),
{
    if rest.len() > 0 {
        let c2 = rest[0];
        let r2 = rest.drop_first();
        assert(rest =~= seq![c2] + r2);
        lemma_esc_cons(c2, r2);
        lemma_encode_concat(esc_char(c2), esc_body(r2));
        crate::report_law::lemma_split(m.src, j, encode_utf8(esc_char(c2)), encode_utf8(esc_body(r2)));
        let m3 = m.at_pos(j);
        lemma_escape_decodes(m3, 0, false, Seq::empty(), c2);
        assert(m.src[j] == m.src.subrange(j, j + encode_utf8(esc_char(c2)).len())[0]);
    } else {
        assert(esc_body(rest) =~= Seq::<char>::empty());
        assert(encode_utf8(Seq::<char>::empty()) =~= Seq::<u8>::empty());
    }
}

proof fn lemma_body_plain(m: LexModel, open: int, saw: bool, out: Seq<char>, t: Seq<char>)
    requires
        m.valid(),
        m.keep,
        0 <= m.pos,
        m.pos + encode_utf8(esc_body(t)).len() < m.len(),
        m.src.subrange(m.pos, m.pos + encode_utf8(esc_body(t)).len()) == encode_utf8(esc_body(t)),
        m.src[m.pos + encode_utf8(esc_body(t)).len()] == 34u8,
        t.len() > 0,
        is_plain_char(t[0]),
    ensures
        spec_string_body(m, 34u8, open, saw, out).1 == out + t,
        spec_string_body(m, 34u8, open, saw, out).0.pos == m.pos + encode_utf8(esc_body(t)).len() + 1,
        lwarn(m, spec_string_body(m, 34u8, open, saw, out).0),
    decreases t.len(), 0int,
{
    let j = m.pos;
    lemma_plain_run_len(t);
    let k = plain_run_len(t) as int;
    let block = t.take(k);
    let rest = t.skip(k);
    assert(t =~= block + rest);
    lemma_esc_concat(block, rest);
    crate::report_law::lemma_plain_esc(block);
    let bb = encode_utf8(block);
    let br = encode_utf8(esc_body(rest));
    lemma_encode_concat(block, esc_body(rest));
    crate::report_law::lemma_split(m.src, j, bb, br);
    let nb = bb.len() as int;
    let m3 = m.at_pos(j + nb);
    if rest.len() > 0 {
        assert(rest[0] == t[k]);
    }
    lemma_stop_after(m, j + nb, rest);
    lemma_plain_step(m, open, saw, out, block);
    crate::lex_spec::lemma_string_step(m, 34u8, open, saw, out);
    lemma_body_decodes(m3, open, saw, out + block, rest);
    lemma_lwarn_refl(m, j + nb);
    lemma_lwarn_trans(m, m3, spec_string_body(m3, 34u8, open, saw, out + block).0);
    assert(out + block + rest =~= out + t);
}

/// Escaping round-trips: the lexer, decoding strings, reads the JSON string
/// literal that the report writes for any text `s` as one string token that
/// holds exactly `s`, spans the whole literal, and adds no error.
pub proof fn law_quoted_reads_back(s: Seq<char>, mode: crate::lex_spec::Mode, diags: Seq<crate::diag::DiagModel>)
    requires
        encode_utf8(quoted(s)).len() + 16 <= usize::MAX,
    ensures
        ({
            let src = encode_utf8(quoted(s));
            let m = LexModel { src, mode, keep: true, pos: 0, diags };
            let (m1, tok) = crate::lex_spec::spec_next_token(m);
            &&& tok.tok == crate::lex_spec::TokModel::Str(s)
            &&& tok.span.start == 0 && tok.span.end == src.len()
            &&& m1.pos == src.len()
            &&& crate::completeness::warn_since(m1.diags, diags.len() as int)
        }),
{
    let src = encode_utf8(quoted(s));
    let m = LexModel { src, mode, keep: true, pos: 0, diags };
    reveal_strlit("\"");
    let q = "\""@;
    let eb = esc_body(s);
    lemma_encode_concat(q, eb);
    lemma_encode_concat(q + eb, q);
    lemma_encode_one('"');
    lemma_encode_ascii('"');
    assert(q =~= seq!['"']);
    let n = encode_utf8(eb).len() as int;
    assert(src == seq![34u8] + encode_utf8(eb) + seq![34u8]);
    assert(src.len() == n + 2);
    assert(src[0] == 34u8);
    assert(src.subrange(1, 1 + n) =~= encode_utf8(eb));
    assert(src[1 + n] == 34u8);
    assert(crate::lex_spec::spec_skip_trivia(m) == m);
    assert(crate::lex_spec::starts_token(m));
    let mb = m.at_pos(1);
    lemma_body_decodes(mb, 0, false, Seq::empty(), s);
    assert(Seq::<char>::empty() + s =~= s);
}

proof fn lemma_insert_warnings(s: Seq<crate::diag::DiagModel>, d: crate::diag::DiagModel)
    requires
        crate::completeness::warn_since(s, 0),
        d.severity == crate::diag::Severity::Warning,
    ensures
        crate::completeness::warn_since(crate::parse_spec::insert_by_start(s, d), 0),
    decreases s.len(),
{
    if !(s.len() == 0 || s.last().span.start <= d.span.start) {
        lemma_insert_warnings(s.drop_last(), d);
        let t = crate::parse_spec::insert_by_start(s.drop_last(), d);
        assert forall|k: int| 0 <= k < t.push(s.last()).len() implies #[trigger] t.push(s.last())[k].severity
            == crate::diag::Severity::Warning by {
            if k < t.len() {
                assert(t.push(s.last())[k] == t[k]);
            }
        }
    }
}

proof fn lemma_sort_warnings(s: Seq<crate::diag::DiagModel>)
    requires
        crate::completeness::warn_since(s, 0),
    ensures
        crate::completeness::warn_since(crate::parse_spec::sort_by_start(s), 0),
    decreases s.len(),
{
    if s.len() > 0 {
        assert(crate::completeness::warn_since(s.drop_last(), 0));
        lemma_sort_warnings(s.drop_last());
        lemma_insert_warnings(crate::parse_spec::sort_by_start(s.drop_last()), s.last());
    }
}

/// The escape of one character is printable bytes only: none below 0x20.
proof fn lemma_esc_char_printable(c: char)
    ensures
        forall|k: int| 0 <= k < encode_utf8(esc_char(c)).len() ==> #[trigger] encode_utf8(esc_char(c))[k] >= 0x20u8,
{
    let v = c as u32;
    let e = esc_char(c);
    if is_plain_char(c) {
        assert(e == seq![c]);
        assert(plain(seq![c])) by {
            assert(seq![c][0] == c);
        }
        lemma_plain_bytes(seq![c]);
    } else {
        reveal_strlit("\\\"");
        reveal_strlit("\\\\");
        reveal_strlit("\\n");
        reveal_strlit("\\r");
        reveal_strlit("\\t");
        reveal_strlit("\\u00");
        assert(forall|i: int| 0 <= i < e.len() ==> 0x20 <= (#[trigger] e[i] as u32) < 0x80) by {
            if v < 0x20 && !(c == '\n' || c == '\r' || c == '\t') {
                let b = v as u8;
                assert(e == "\\u00"@ + hex2_lower(b));
                assert(b / 16 < 2);
                assert(e[4] == hex_lower(b / 16));
                assert(e[5] == hex_lower(b % 16));
                assert forall|i: int| 0 <= i < e.len() implies 0x20 <= (#[trigger] e[i] as u32) < 0x80 by {
                    if i == 4 {
                    } else if i == 5 {
                        assert(b % 16 < 16);
                    }
                }
            }
        }
        lemma_encode_ascii_seq(e);
        assert forall|k: int| 0 <= k < encode_utf8(e).len() implies #[trigger] encode_utf8(e)[k] >= 0x20u8 by {
            let x = e[k] as u32;
            assert(encode_utf8(e)[k] == x as u8);
            assert(0x20 <= x < 0x80 ==> (x as u8) >= 0x20u8) by (bit_vector);
        }
    }
}

/// The escaped text of any text is printable bytes only: none below 0x20.
pub proof fn lemma_esc_printable(t: Seq<char>)
    ensures
        forall|k: int| 0 <= k < encode_utf8(esc_body(t)).len() ==> #[trigger] encode_utf8(esc_body(t))[k] >= 0x20u8,
    decreases t.len(),
{
    if t.len() > 0 {
        let c = t[0];
        let rest = t.drop_first();
        assert(t =~= seq![c] + rest);
        lemma_esc_cons(c, rest);
        lemma_esc_printable(rest);
        lemma_esc_char_printable(c);
        lemma_encode_concat(esc_char(c), esc_body(rest));
        let x = encode_utf8(esc_char(c));
        let y = encode_utf8(esc_body(rest));
        assert forall|k: int| 0 <= k < (x + y).len() implies #[trigger] (x + y)[k] >= 0x20u8 by {
            if k < x.len() {
                assert((x + y)[k] == x[k]);
            } else {
                assert((x + y)[k] == y[k - x.len()]);
            }
        }
    } else {
        assert(esc_body(t) =~= Seq::<char>::empty());
        assert(encode_utf8(Seq::<char>::empty()) =~= Seq::<u8>::empty());
    }
}

/// The literal for `s` starts with a quote and no zero byte follows it.
proof fn lemma_quoted_bytes(s: Seq<char>, mode: crate::lex_spec::Mode)
    requires
        encode_utf8(quoted(s)).len() + 16 <= usize::MAX,
    ensures
        encode_utf8(quoted(s)).len() >= 2,
        encode_utf8(quoted(s))[0] == 34u8,
        encode_utf8(quoted(s))[1] != 0u8,
{
    let src = encode_utf8(quoted(s));
    reveal_strlit("\"");
    let q = "\""@;
    let eb = esc_body(s);
    lemma_encode_concat(q, eb);
    lemma_encode_concat(q + eb, q);
    lemma_encode_one('"');
    lemma_encode_ascii('"');
    assert(q =~= seq!['"']);
    let n = encode_utf8(eb).len() as int;
    assert(src == seq![34u8] + encode_utf8(eb) + seq![34u8]);
    // the second byte is a quote, a backslash or a plain byte: never zero
    assert(src[1] != 0u8) by {
        if n == 0 {
            assert(src[1] == 34u8);
        } else {
            assert(src.subrange(1, 1 + n) =~= encode_utf8(eb));
            assert(s.len() > 0) by {
                if s.len() == 0 {
                    assert(eb =~= Seq::<char>::empty());
                    assert(encode_utf8(Seq::<char>::empty()) =~= Seq::<u8>::empty());
                }
            }
            let c = s[0];
            let rest = s.drop_first();
            assert(s =~= seq![c] + rest);
            lemma_esc_cons(c, rest);
            lemma_encode_concat(esc_char(c), esc_body(rest));
            let m = LexModel { src, mode, keep: true, pos: 1, diags: Seq::empty() };
            crate::report_law::lemma_split(src, 1, encode_utf8(esc_char(c)), encode_utf8(esc_body(rest)));
            if is_plain_char(c) {
                crate::report_law::lemma_plain_esc(seq![c]);
                assert(esc_body(seq![c]) == seq![c]);
                assert(esc_char(c) == seq![c]) by {
                    assert(seq![c].drop_last() =~= Seq::<char>::empty());
                }
                assert(plain(seq![c])) by {
                    assert(seq![c][0] == c);
                }
                lemma_plain_bytes(seq![c]);
                assert(encode_scalar(c as u32).len() >= 1);
                assert(src[1] == encode_utf8(seq![c])[0]);
            } else {
                lemma_escape_decodes(m, 0, false, Seq::empty(), c);
                assert(src[1] == encode_utf8(esc_char(c))[0]);
            }
        }
    }
}

proof fn lemma_quoted_printable(s: Seq<char>)
    ensures
        forall|k: int| 0 <= k < encode_utf8(quoted(s)).len() ==> #[trigger] encode_utf8(quoted(s))[k] >= 0x20u8,
{
    reveal_strlit("\"");
    let q = "\""@;
    let eb = esc_body(s);
    lemma_encode_concat(q, eb);
    lemma_encode_concat(q + eb, q);
    lemma_encode_one('"');
    lemma_encode_ascii('"');
    assert(q =~= seq!['"']);
    lemma_esc_printable(s);
    let src = encode_utf8(quoted(s));
    let x = encode_utf8(eb);
    assert(src == seq![34u8] + x + seq![34u8]);
    assert forall|k: int| 0 <= k < src.len() implies #[trigger] src[k] >= 0x20u8 by {
        if k == 0 {
        } else if k <= x.len() {
            assert(src[k] == x[k - 1]);
        } else {
            assert(src[k] == 34u8);
        }
    }
}

/// Escaping round-trips through a whole parse: the JSON string literal that
/// `esc` appends for any text `s` holds no byte below 0x20, and parsed with
/// strings decoded it yields exactly one string event holding `s`, and no
/// error, whatever the mode and duplicate-key policy, when the depth limit
/// admits a value at all.
#[verifier::rlimit(40)]
pub proof fn law_quoted_parses_back(s: Seq<char>, o: crate::parse_spec::ParseOptions)
    requires
        o.max_depth >= 1,
        encode_utf8(quoted(s)).len() + 16 <= usize::MAX,
    ensures
        crate::parse_spec::spec_events(encode_utf8(quoted(s)), o, true) == seq![crate::parse_spec::EventModel::Str(s)],
        crate::parse_spec::no_errors(crate::parse_spec::spec_diagnostics(encode_utf8(quoted(s)), o, true)),
        forall|k: int| 0 <= k < encode_utf8(quoted(s)).len() ==> #[trigger] encode_utf8(quoted(s))[k] >= 0x20u8,
{
    let src = encode_utf8(quoted(s));
    law_quoted_reads_back(s, o.mode, Seq::empty());
    lemma_quoted_bytes(s, o.mode);
    lemma_quoted_printable(s);
    let p0 = crate::parse_spec::initial_parser(src, o, true);
    assert(!crate::lex_spec::is_wide_encoding(src));
    assert(!crate::lex_spec::has_utf8_bom(src));
    assert(p0.lex == LexModel { src, mode: o.mode, keep: true, pos: 0, diags: Seq::empty() });
    let p1 = p0.bump();
    crate::parse_spec::lemma_bump(p0);
    assert(p1.tok.tok == crate::lex_spec::TokModel::Str(s));
    crate::parse_spec::lemma_bump(p1);
    let p2 = crate::parse_spec::spec_value(o, p1);
    assert(p2 == crate::parse_spec::spec_scalar(p1));
    let pe = p1.emit(crate::parse_spec::EventModel::Str(s));
    assert(crate::lex_spec::spec_skip_trivia(pe.lex) == pe.lex);
    assert(p2 == pe.bump());
    assert(p2.tok.tok is Eof);
    assert(p2.lex.diags == p1.lex.diags);
    assert(crate::parse_spec::spec_parse_state(src, o, true) == p2);
    assert(p2.events =~= seq![crate::parse_spec::EventModel::Str(s)]);
    let all = p2.lex.diags + p2.extra;
    assert(p2.extra =~= Seq::<crate::diag::DiagModel>::empty());
    assert(all =~= p2.lex.diags);
    lemma_sort_warnings(all);
    let sorted = crate::parse_spec::sort_by_start(all);
    if sorted.len() > crate::diag::MAX_DIAGNOSTICS {
        assert forall|k: int| 0 <= k < crate::parse_spec::cap(sorted).len() implies #[trigger] crate::parse_spec::cap(
            sorted,
        )[k].severity == crate::diag::Severity::Warning by {
            assert(crate::parse_spec::cap(sorted)[k] == sorted[k]);
        }
    }
}

} // verus!
