//! The diagnostics report is JSON text: its UTF-8 bytes read, by the
//! grammar of `grammar`, as one object.
use vstd::prelude::*;
use vstd::utf8::*;
use crate::grammar::{
    arr_after_member, arr_after_open, elements_at, frac_end, int_end, is_json_text, lemma_ws_end, members_at,
    number_end, obj_after_member, obj_after_open, string_body_end, string_end, value_at, ws_end, exp_end,
};
use crate::lex_spec::{digits_end, is_digit, is_ws};
use crate::lex_spec::{is_run_stop, run_end};
use crate::diag::{DiagModel, Severity, Span};
use crate::line_index::line_col_of;
use crate::report::{
    diag_head, diag_json, diags_json, esc_body, esc_char, hint_json, quoted, related_json, report_spec, severity_name,
};
use crate::text::{decimal, digit_char, hex2_lower};

verus! {

pub proof fn lemma_encode_concat(a: Seq<char>, b: Seq<char>)
    ensures
        encode_utf8(a + b) == encode_utf8(a) + encode_utf8(b),
    decreases a.len(),
{
    if a.len() == 0 {
        assert(a + b =~= b);
        assert(encode_utf8(a) + encode_utf8(b) =~= encode_utf8(b));
    } else {
        assert((a + b).drop_first() =~= a.drop_first() + b);
        assert((a + b)[0] == a[0]);
        lemma_encode_concat(a.drop_first(), b);
        assert(encode_utf8(a + b) =~= encode_utf8(a) + encode_utf8(b));
    }
}

pub(crate) proof fn lemma_encode_one(c: char)
    ensures
        encode_utf8(seq![c]) == encode_scalar(c as u32),
{
    assert(seq![c].drop_first() =~= Seq::<char>::empty());
    assert(seq![c][0] == c);
    assert(encode_utf8(Seq::<char>::empty()) =~= Seq::<u8>::empty());
    assert(encode_scalar(c as u32) + Seq::<u8>::empty() =~= encode_scalar(c as u32));
}

/// The bytes of a character beyond ASCII are all at least 0x80.
pub(crate) proof fn lemma_encode_high(c: char)
    requires
        (c as u32) >= 0x80,
    ensures
        forall|k: int| 0 <= k < encode_scalar(c as u32).len() ==> #[trigger] encode_scalar(c as u32)[k] >= 0x80u8,
        encode_scalar(c as u32).len() >= 1,
{
    let v = c as u32;
    broadcast use char_is_scalar;
    assert(0xC0u8 | ((v >> 6u32) & 0x1Fu32) as u8 >= 0x80u8) by (bit_vector);
    assert(0xE0u8 | ((v >> 12u32) & 0x0Fu32) as u8 >= 0x80u8) by (bit_vector);
    assert(0xF0u8 | ((v >> 18u32) & 0x7u32) as u8 >= 0x80u8) by (bit_vector);
    assert(0x80u8 | (v & 0x3Fu32) as u8 >= 0x80u8) by (bit_vector);
    assert(0x80u8 | ((v >> 6u32) & 0x3Fu32) as u8 >= 0x80u8) by (bit_vector);
    assert(0x80u8 | ((v >> 12u32) & 0x3Fu32) as u8 >= 0x80u8) by (bit_vector);
}

/// A text of ASCII characters is its own bytes.
pub(crate) proof fn lemma_encode_ascii_seq(s: Seq<char>)
    requires
        forall|i: int| 0 <= i < s.len() ==> (#[trigger] s[i] as u32) < 0x80,
    ensures
        encode_utf8(s).len() == s.len(),
        forall|i: int| 0 <= i < s.len() ==> #[trigger] encode_utf8(s)[i] == (s[i] as u32) as u8,
    decreases s.len(),
{
    if s.len() > 0 {
        lemma_encode_ascii(s[0]);
        assert(forall|i: int| 0 <= i < s.drop_first().len() ==> #[trigger] s.drop_first()[i] == s[i + 1]);
        lemma_encode_ascii_seq(s.drop_first());
        assert forall|i: int| 0 <= i < s.len() implies #[trigger] encode_utf8(s)[i] == (s[i] as u32) as u8 by {
            if i > 0 {
                assert(encode_utf8(s)[i] == encode_utf8(s.drop_first())[i - 1]);
            }
        }
    }
}

/// An ASCII character is its own byte.
pub(crate) proof fn lemma_encode_ascii(c: char)
    requires
        (c as u32) < 0x80,
    ensures
        encode_scalar(c as u32) == seq![(c as u32) as u8],
{
    let v = c as u32;
    assert(v < 0x80u32 ==> (v & 0x7Fu32) as u8 == v as u8) by (bit_vector);
}

pub proof fn lemma_esc_cons(c: char, t: Seq<char>)
    ensures
        esc_body(seq![c] + t) == esc_char(c) + esc_body(t),
    decreases t.len(),
{
    if t.len() == 0 {
        assert(seq![c] + t =~= seq![c]);
        assert(seq![c].drop_last() =~= Seq::<char>::empty());
        assert(esc_body(Seq::<char>::empty()) + esc_char(c) =~= esc_char(c) + esc_body(t));
    } else {
        assert((seq![c] + t).drop_last() =~= seq![c] + t.drop_last());
        assert((seq![c] + t).last() == t.last());
        lemma_esc_cons(c, t.drop_last());
        assert(esc_char(c) + esc_body(t.drop_last()) + esc_char(t.last()) =~= esc_char(c) + esc_body(t));
    }
}

pub(crate) proof fn lemma_run_end_extends(src: Seq<u8>, j: int, m: int, quote: u8)
    requires
        0 <= j <= m <= src.len(),
        forall|k: int| j <= k < m ==> !is_run_stop(#[trigger] src[k], quote),
    ensures
        run_end(src, j, quote) == run_end(src, m, quote),
        m <= run_end(src, m, quote) <= src.len(),
    decreases m - j,
{
    crate::lex_spec::lemma_run_end(src, m, quote);
    if j < m {
        lemma_run_end_extends(src, j + 1, m, quote);
    }
}

proof fn lemma_run_nonstop(src: Seq<u8>, j: int, k: int, quote: u8)
    requires
        0 <= j <= k < run_end(src, j, quote),
    ensures
        !is_run_stop(src[k], quote),
        k < src.len(),
    decreases k - j,
{
    if j < k {
        lemma_run_nonstop(src, j + 1, k, quote);
    }
}

/// Reading a string body from a character's bytes on is reading it from
/// the next character on.
proof fn lemma_plain_split(src: Seq<u8>, j: int, m: int)
    requires
        0 <= j < m < src.len(),
        forall|k: int| j <= k < m ==> !is_run_stop(#[trigger] src[k], 34u8),
        valid_utf8(src.subrange(j, m)),
    ensures
        string_body_end(src, j) == string_body_end(src, m),
{
    lemma_run_end_extends(src, j, m, 34u8);
    let e = run_end(src, j, 34u8);
    assert(!is_run_stop(src[j], 34u8));
    if m < e {
        lemma_run_nonstop(src, j, m, 34u8);
        let x = src.subrange(j, m);
        let y = src.subrange(m, e);
        let xy = src.subrange(j, e);
        assert(x + y =~= xy);
        if valid_utf8(y) {
            valid_utf8_concat(x, y);
        } else {
            assert(xy.subrange(0, m - j) =~= x);
            assert(xy.subrange(m - j, xy.len() as int) =~= y);
            partial_valid_partial_invalid_utf8(xy, m - j);
        }
    } else {
        assert(src.subrange(j, e) =~= src.subrange(j, m));
    }
}

/// The escaped text of `t` followed by a quote reads as a string body that
/// ends just past the quote.
pub proof fn lemma_body_reads(src: Seq<u8>, j: int, t: Seq<char>)
    requires
        0 <= j,
        j + encode_utf8(esc_body(t)).len() < src.len(),
        src.subrange(j, j + encode_utf8(esc_body(t)).len()) == encode_utf8(esc_body(t)),
        src[j + encode_utf8(esc_body(t)).len()] == 34u8,
    ensures
        string_body_end(src, j) == Some(j + encode_utf8(esc_body(t)).len() + 1),
    decreases t.len(),
{
    let n = encode_utf8(esc_body(t)).len() as int;
    if t.len() == 0 {
        assert(esc_body(t) =~= Seq::<char>::empty());
    } else {
        let c = t[0];
        let rest = t.drop_first();
        assert(t =~= seq![c] + rest);
        lemma_esc_cons(c, rest);
        let ec = esc_char(c);
        let er = esc_body(rest);
        lemma_encode_concat(ec, er);
        let bc = encode_utf8(ec);
        let br = encode_utf8(er);
        let m = bc.len() as int;
        assert(src.subrange(j, j + m) =~= bc) by {
            assert(src.subrange(j, j + n).subrange(0, m) =~= src.subrange(j, j + m));
        }
        assert(src.subrange(j + m, j + m + br.len()) =~= br) by {
            assert(src.subrange(j, j + n).subrange(m, n) =~= src.subrange(j + m, j + n));
        }
        assert forall|k: int| 0 <= k < m implies src[j + k] == #[trigger] bc[k] by {
            assert(src.subrange(j, j + m)[k] == src[j + k]);
        }
        lemma_body_reads(src, j + m, rest);
        lemma_escape_step(src, j, c, m);
    }
}

/// One escaped character at `j`, `m` bytes long: reading the body from `j`
/// is reading it from `j + m`.
proof fn lemma_escape_step(src: Seq<u8>, j: int, c: char, m: int)
    requires
        0 <= j,
        m == encode_utf8(esc_char(c)).len(),
        j + m < src.len(),
        forall|k: int| 0 <= k < m ==> src[j + k] == #[trigger] encode_utf8(esc_char(c))[k],
    ensures
        string_body_end(src, j) == string_body_end(src, j + m),
{
    let v = c as u32;
    if c == '"' || c == '\\' || c == '\n' || c == '\r' || c == '\t' || v < 0x20 {
        let e = esc_char(c);
        reveal_strlit("\\\"");
        reveal_strlit("\\\\");
        reveal_strlit("\\n");
        reveal_strlit("\\r");
        reveal_strlit("\\t");
        reveal_strlit("\\u00");
        lemma_encode_ascii_seq(e);
        let be = encode_utf8(e);
        assert(src[j] == be[0]);
        assert(src[j + 1] == be[1]);
        assert(e[0] == '\\');
        assert(src[j] == 92u8);
        if v < 0x20 && !(c == '\n' || c == '\r' || c == '\t') {
            let b = v as u8;
            assert(e == "\\u00"@ + hex2_lower(b));
            assert(e[1] == 'u' && e[2] == '0' && e[3] == '0');
            assert(e[4] == crate::text::hex_lower(b / 16) && e[5] == crate::text::hex_lower(b % 16));
            assert(src[j + 2] == be[2]);
            assert(src[j + 3] == be[3]);
            assert(src[j + 4] == be[4]);
            assert(src[j + 5] == be[5]);
            assert(src[j + 1] == 117u8);
            assert(crate::lex_spec::hex_val(src[j + 2]) is Some);
            assert(crate::lex_spec::hex_val(src[j + 3]) is Some);
            assert(crate::lex_spec::hex_val(src[j + 4]) is Some);
            assert(crate::lex_spec::hex_val(src[j + 5]) is Some);
            assert(crate::lex_spec::hex4(src, j + 2) is Some);
        } else {
            assert(crate::grammar::is_short_escape(src[j + 1]));
        }
    } else {
        lemma_encode_one(c);
        encode_utf8_valid_utf8(seq![c]);
        if v < 0x80 {
            lemma_encode_ascii(c);
        } else {
            lemma_encode_high(c);
        }
        assert(esc_char(c) == seq![c]);
        assert(src.subrange(j, j + m) =~= encode_utf8(seq![c]));
        assert forall|k: int| j <= k < j + m implies !is_run_stop(#[trigger] src[k], 34u8) by {
            assert(src[j + (k - j)] == encode_utf8(seq![c])[k - j]);
        }
        lemma_plain_split(src, j, j + m);
    }
}

/// A quoted text reads as a string.
pub proof fn lemma_quoted_reads(src: Seq<u8>, i: int, t: Seq<char>)
    requires
        0 <= i,
        i + encode_utf8(quoted(t)).len() <= src.len(),
        src.subrange(i, i + encode_utf8(quoted(t)).len()) == encode_utf8(quoted(t)),
    ensures
        string_end(src, i) == Some(i + encode_utf8(quoted(t)).len()),
        src[i] == 34u8,
{
    reveal_strlit("\"");
    let q = "\""@;
    let eb = esc_body(t);
    lemma_encode_concat(q, eb);
    lemma_encode_concat(q + eb, q);
    lemma_encode_one('"');
    lemma_encode_ascii('"');
    assert(q =~= seq!['"']);
    let n = encode_utf8(eb).len() as int;
    let total = encode_utf8(quoted(t)).len() as int;
    assert(encode_utf8(quoted(t)) == seq![34u8] + encode_utf8(eb) + seq![34u8]);
    assert(total == n + 2);
    assert(src[i] == src.subrange(i, i + total)[0]);
    assert(src.subrange(i + 1, i + 1 + n) =~= encode_utf8(eb)) by {
        assert(src.subrange(i, i + total).subrange(1, 1 + n) =~= src.subrange(i + 1, i + 1 + n));
    }
    assert(src[i + 1 + n] == src.subrange(i, i + total)[1 + n]);
    lemma_body_reads(src, i + 1, t);
}

// ------------------------------------------------------------ values

/// A byte that may follow a value inside an object or array.
pub open spec fn is_delim(b: u8) -> bool {
    b == 44u8 || b == 125u8 || b == 93u8
}

/// The bytes `v` read as one value wherever they stand, when what follows
/// them is a delimiter or the end of the input.
pub open spec fn standalone(v: Seq<u8>) -> bool {
    &&& v.len() > 0
    &&& !is_ws(v[0])
    &&& forall|b: Seq<u8>, p: int|
        0 <= p && p + v.len() <= b.len() && b.subrange(p, p + v.len()) == v && (p + v.len() == b.len() || is_delim(
            b[p + v.len()],
        )) ==> #[trigger] value_at(b, p) == Some(p + v.len())
}

/// Text with nothing to escape.
pub open spec fn plain(t: Seq<char>) -> bool {
    forall|i: int| 0 <= i < t.len() ==> (#[trigger] t[i] as u32) >= 0x20 && t[i] != '"' && t[i] != '\\'
}

pub proof fn lemma_plain_esc(t: Seq<char>)
    requires
        plain(t),
    ensures
        esc_body(t) == t,
    decreases t.len(),
{
    if t.len() > 0 {
        assert(plain(t.drop_last()));
        lemma_plain_esc(t.drop_last());
        let c = t.last();
        assert((c as u32) >= 0x20 && c != '"' && c != '\\');
        assert(t.drop_last().push(c) =~= t);
    }
}

pub proof fn lemma_standalone_string(t: Seq<char>)
    ensures
        standalone(encode_utf8(quoted(t))),
{
    let v = encode_utf8(quoted(t));
    assert forall|b: Seq<u8>, p: int|
        0 <= p && p + v.len() <= b.len() && b.subrange(p, p + v.len()) == v && (p + v.len() == b.len() || is_delim(
            b[p + v.len()],
        )) implies #[trigger] value_at(b, p) == Some(p + v.len()) by {
        lemma_quoted_reads(b, p, t);
    }
    let b = v;
    assert(b.subrange(0, v.len() as int) =~= v);
    lemma_quoted_reads(b, 0, t);
}

pub(crate) proof fn lemma_decimal_digits(n: nat)
    ensures
        decimal(n).len() >= 1,
        forall|i: int| 0 <= i < decimal(n).len() ==> 48 <= (#[trigger] decimal(n)[i] as u32) <= 57,
        n >= 10 ==> (decimal(n)[0] as u32) != 48,
        n < 10 ==> decimal(n).len() == 1,
    decreases n,
{
    reveal_with_fuel(decimal, 2);
    if n >= 10 {
        lemma_decimal_digits(n / 10);
        assert forall|i: int| 0 <= i < decimal(n).len() implies 48 <= (#[trigger] decimal(n)[i] as u32) <= 57 by {
            if i < decimal(n / 10).len() {
                assert(decimal(n)[i] == decimal(n / 10)[i]);
            }
        }
        if n / 10 < 10 {
            assert(decimal(n / 10)[0] == digit_char(n / 10));
        }
    }
}

proof fn lemma_digits_run(b: Seq<u8>, i: int, l: int)
    requires
        0 <= i,
        0 <= l,
        i + l <= b.len(),
        forall|k: int| i <= k < i + l ==> is_digit(#[trigger] b[k]),
        i + l == b.len() || !is_digit(b[i + l]),
    ensures
        digits_end(b, i) == i + l,
    decreases l,
{
    if l > 0 {
        lemma_digits_run(b, i + 1, l - 1);
    }
}

pub proof fn lemma_standalone_number(n: nat)
    ensures
        standalone(encode_utf8(decimal(n))),
{
    let d = decimal(n);
    lemma_decimal_digits(n);
    lemma_encode_ascii_seq(d);
    let v = encode_utf8(d);
    assert forall|b: Seq<u8>, p: int|
        0 <= p && p + v.len() <= b.len() && b.subrange(p, p + v.len()) == v && (p + v.len() == b.len() || is_delim(
            b[p + v.len()],
        )) implies #[trigger] value_at(b, p) == Some(p + v.len()) by {
        let l = v.len() as int;
        assert forall|k: int| p <= k < p + l implies is_digit(#[trigger] b[k]) by {
            assert(b.subrange(p, p + l)[k - p] == b[k]);
            assert(v[k - p] == (d[k - p] as u32) as u8);
        }
        assert(b[p] == v[0]);
        assert(v[0] == (d[0] as u32) as u8);
        assert(is_digit(b[p]));
        if n < 10 {
            if b[p] != 48u8 {
                lemma_digits_run(b, p, l);
            }
            assert(int_end(b, p) == Some(p + 1));
        } else {
            assert((d[0] as u32) != 48);
            assert(b[p] != 48u8);
            lemma_digits_run(b, p, l);
            assert(int_end(b, p) == Some(p + l));
        }
        assert(p + l == b.len() || !(b[p + l] == 46u8 || b[p + l] == 101u8 || b[p + l] == 69u8));
        assert(frac_end(b, p + l) == Some(p + l));
        assert(exp_end(b, p + l) == Some(p + l));
        assert(number_end(b, p) == Some(p + l));
    }
}

pub proof fn lemma_standalone_word(w: Seq<char>, bytes: Seq<u8>)
    requires
        bytes == crate::grammar::true_bytes() || bytes == crate::grammar::false_bytes(),
        encode_utf8(w) == bytes,
    ensures
        standalone(encode_utf8(w)),
{
    let v = bytes;
    assert forall|b: Seq<u8>, p: int|
        0 <= p && p + v.len() <= b.len() && b.subrange(p, p + v.len()) == v && (p + v.len() == b.len() || is_delim(
            b[p + v.len()],
        )) implies #[trigger] value_at(b, p) == Some(p + v.len()) by {
        assert(b[p] == v[0]);
        assert(crate::grammar::literal_at(b, p, v));
        if v == crate::grammar::false_bytes() {
            assert(!crate::grammar::literal_at(b, p, crate::grammar::true_bytes())) by {
                assert(b[p] == 102u8);
            }
        }
    }
}

// ------------------------------------------------------------ containers

/// A member: a quoted key, a colon, a value.
pub open spec fn member_chars(k: Seq<char>, v: Seq<char>) -> Seq<char> {
    quoted(k) + seq![':'] + v
}

/// Members separated by commas.
pub open spec fn members_join(ms: Seq<(Seq<char>, Seq<char>)>) -> Seq<char>
    decreases ms.len(),
{
    if ms.len() == 0 {
        Seq::empty()
    } else if ms.len() == 1 {
        member_chars(ms[0].0, ms[0].1)
    } else {
        member_chars(ms[0].0, ms[0].1) + seq![','] + members_join(ms.drop_first())
    }
}

pub open spec fn obj_chars(ms: Seq<(Seq<char>, Seq<char>)>) -> Seq<char> {
    seq!['{'] + members_join(ms) + seq!['}']
}

/// Values separated by commas.
pub open spec fn elems_join(vs: Seq<Seq<char>>) -> Seq<char>
    decreases vs.len(),
{
    if vs.len() == 0 {
        Seq::empty()
    } else if vs.len() == 1 {
        vs[0]
    } else {
        vs[0] + seq![','] + elems_join(vs.drop_first())
    }
}

pub open spec fn arr_chars(vs: Seq<Seq<char>>) -> Seq<char> {
    seq!['['] + elems_join(vs) + seq![']']
}

/// Every member has a plain key and a value that reads on its own.
pub open spec fn members_ok(ms: Seq<(Seq<char>, Seq<char>)>) -> bool {
    forall|i: int| 0 <= i < ms.len() ==> plain(#[trigger] ms[i].0) && standalone(encode_utf8(ms[i].1))
}

pub open spec fn elems_ok(vs: Seq<Seq<char>>) -> bool {
    forall|i: int| 0 <= i < vs.len() ==> standalone(encode_utf8(#[trigger] vs[i]))
}

pub(crate) proof fn lemma_split(b: Seq<u8>, j: int, x: Seq<u8>, y: Seq<u8>)
    requires
        0 <= j,
        j + x.len() + y.len() <= b.len(),
        b.subrange(j, j + x.len() + y.len()) == x + y,
    ensures
        b.subrange(j, j + x.len()) == x,
        b.subrange(j + x.len(), j + x.len() + y.len()) == y,
{
    assert(b.subrange(j, j + x.len() + y.len()).subrange(0, x.len() as int) =~= b.subrange(j, j + x.len()));
    assert((x + y).subrange(0, x.len() as int) =~= x);
    assert(b.subrange(j, j + x.len() + y.len()).subrange(x.len() as int, (x.len() + y.len()) as int) =~= b.subrange(
        j + x.len(),
        j + x.len() + y.len(),
    ));
    assert((x + y).subrange(x.len() as int, (x.len() + y.len()) as int) =~= y);
}

pub(crate) proof fn lemma_encode_ascii_char_seq(c: char)
    requires
        (c as u32) < 0x80,
    ensures
        encode_utf8(seq![c]) == seq![(c as u32) as u8],
{
    lemma_encode_one(c);
    lemma_encode_ascii(c);
}

/// Members start with the quote of their first key.
pub(crate) proof fn lemma_first_key(b: Seq<u8>, j: int, ms: Seq<(Seq<char>, Seq<char>)>)
    requires
        ms.len() >= 1,
        0 <= j,
        j + encode_utf8(members_join(ms)).len() <= b.len(),
        b.subrange(j, j + encode_utf8(members_join(ms)).len()) == encode_utf8(members_join(ms)),
    ensures
        b[j] == 34u8,
{
    let tq = encode_utf8(quoted(ms[0].0));
    lemma_encode_concat(quoted(ms[0].0), seq![':']);
    lemma_encode_concat(quoted(ms[0].0) + seq![':'], ms[0].1);
    let tm = encode_utf8(member_chars(ms[0].0, ms[0].1));
    let trest = if ms.len() == 1 { Seq::<char>::empty() } else { seq![','] + members_join(ms.drop_first()) };
    assert(members_join(ms) == member_chars(ms[0].0, ms[0].1) + trest) by {
        if ms.len() == 1 {
            assert(member_chars(ms[0].0, ms[0].1) + trest =~= member_chars(ms[0].0, ms[0].1));
        }
    }
    lemma_encode_concat(member_chars(ms[0].0, ms[0].1), trest);
    lemma_split(b, j, tm, encode_utf8(trest));
    lemma_split(b, j, tq + encode_utf8(seq![':']), encode_utf8(ms[0].1));
    lemma_split(b, j, tq, encode_utf8(seq![':']));
    lemma_quoted_reads(b, j, ms[0].0);
}

/// Members followed by `}` read as the rest of an object.
proof fn lemma_members_read(b: Seq<u8>, j: int, ms: Seq<(Seq<char>, Seq<char>)>)
    requires
        ms.len() >= 1,
        members_ok(ms),
        0 <= j,
        j + encode_utf8(members_join(ms)).len() + 1 <= b.len(),
        b.subrange(j, j + encode_utf8(members_join(ms)).len()) == encode_utf8(members_join(ms)),
        b[j + encode_utf8(members_join(ms)).len()] == 125u8,
    ensures
        members_at(b, j) == Some(j + encode_utf8(members_join(ms)).len() + 1),
    decreases ms.len(),
{
    let (k0, v0) = ms[0];
    let q = encode_utf8(quoted(k0));
    let col = encode_utf8(seq![':']);
    let bv = encode_utf8(v0);
    lemma_encode_ascii_char_seq(':');
    lemma_encode_concat(quoted(k0), seq![':']);
    lemma_encode_concat(quoted(k0) + seq![':'], v0);
    let mb = encode_utf8(member_chars(k0, v0));
    assert(mb == q + col + bv);
    let total = encode_utf8(members_join(ms));
    let rest_chars = if ms.len() == 1 { Seq::<char>::empty() } else { seq![','] + members_join(ms.drop_first()) };
    assert(members_join(ms) == member_chars(k0, v0) + rest_chars) by {
        if ms.len() == 1 {
            assert(member_chars(k0, v0) + rest_chars =~= member_chars(k0, v0));
        }
    }
    lemma_encode_concat(member_chars(k0, v0), rest_chars);
    let rest = encode_utf8(rest_chars);
    assert(total == mb + rest);
    lemma_split(b, j, mb, rest);
    lemma_split(b, j, q + col, bv);
    lemma_split(b, j, q, col);
    let k = j + q.len();
    let c = k;
    let v = c + 1;
    let e = v + bv.len();
    lemma_quoted_reads(b, j, k0);
    assert(b[c] == b.subrange(k, k + 1)[0]);
    assert(b[c] == 58u8);
    assert(ws_end(b, k) == k);
    assert(plain(k0) && standalone(bv)) by {
        assert(ms[0] == (k0, v0));
    }
    assert(b[v] == b.subrange(v, e)[0]);
    assert(!is_ws(b[v]));
    assert(ws_end(b, c + 1) == v);
    if ms.len() == 1 {
        assert(rest =~= Seq::<u8>::empty()) by {
            assert(encode_utf8(Seq::<char>::empty()) =~= Seq::<u8>::empty());
        }
        assert(e == j + total.len());
        assert(is_delim(b[e]));
        assert(value_at(b, v) == Some(e));
        assert(ws_end(b, e) == e);
        assert(obj_after_member(b, e) == Some(e + 1));
    } else {
        let tail = ms.drop_first();
        let comma = encode_utf8(seq![',']);
        lemma_encode_ascii_char_seq(',');
        lemma_encode_concat(seq![','], members_join(tail));
        let tb = encode_utf8(members_join(tail));
        assert(rest == comma + tb);
        lemma_split(b, e, comma, tb);
        assert(b[e] == b.subrange(e, e + 1)[0]);
        assert(b[e] == 44u8);
        assert(value_at(b, v) == Some(e));
        assert(ws_end(b, e) == e);
        assert(members_ok(tail)) by {
            assert forall|i: int| 0 <= i < tail.len() implies plain(#[trigger] tail[i].0) && standalone(
                encode_utf8(tail[i].1),
            ) by {
                assert(tail[i] == ms[i + 1]);
            }
        }
        let j2 = e + 1;
        assert(j2 + tb.len() == j + total.len());
        lemma_members_read(b, j2, tail);
        lemma_first_key(b, j2, tail);
        assert(!is_ws(b[j2]));
        assert(ws_end(b, e + 1) == j2);
        assert(obj_after_member(b, e) == members_at(b, j2));
    }
}

pub proof fn lemma_standalone_object(ms: Seq<(Seq<char>, Seq<char>)>)
    requires
        members_ok(ms),
    ensures
        standalone(encode_utf8(obj_chars(ms))),
{
    let open = encode_utf8(seq!['{']);
    let close = encode_utf8(seq!['}']);
    let body = encode_utf8(members_join(ms));
    lemma_encode_ascii_char_seq('{');
    lemma_encode_ascii_char_seq('}');
    lemma_encode_concat(seq!['{'], members_join(ms));
    lemma_encode_concat(seq!['{'] + members_join(ms), seq!['}']);
    let v = encode_utf8(obj_chars(ms));
    assert(v == open + body + close);
    assert forall|b: Seq<u8>, p: int|
        0 <= p && p + v.len() <= b.len() && b.subrange(p, p + v.len()) == v && (p + v.len() == b.len() || is_delim(
            b[p + v.len()],
        )) implies #[trigger] value_at(b, p) == Some(p + v.len()) by {
        lemma_split(b, p, open + body, close);
        lemma_split(b, p, open, body);
        assert(b[p] == b.subrange(p, p + 1)[0]);
        assert(b[p] == 123u8);
        let j = p + 1;
        let last = j + body.len();
        assert(b[last] == b.subrange(last, last + 1)[0]);
        assert(b[last] == 125u8);
        if ms.len() == 0 {
            assert(members_join(ms) =~= Seq::<char>::empty());
            assert(body =~= Seq::<u8>::empty()) by {
                assert(encode_utf8(Seq::<char>::empty()) =~= Seq::<u8>::empty());
            }
            assert(ws_end(b, j) == j);
        } else {
            lemma_members_read(b, j, ms);
            lemma_first_key(b, j, ms);
            assert(!is_ws(b[j]));
            assert(ws_end(b, j) == j);
        }
    }
}

/// Values followed by `]` read as the rest of an array.
proof fn lemma_elems_read(b: Seq<u8>, j: int, vs: Seq<Seq<char>>)
    requires
        vs.len() >= 1,
        elems_ok(vs),
        0 <= j,
        j + encode_utf8(elems_join(vs)).len() + 1 <= b.len(),
        b.subrange(j, j + encode_utf8(elems_join(vs)).len()) == encode_utf8(elems_join(vs)),
        b[j + encode_utf8(elems_join(vs)).len()] == 93u8,
    ensures
        elements_at(b, j) == Some(j + encode_utf8(elems_join(vs)).len() + 1),
        !is_ws(b[j]),
    decreases vs.len(),
{
    let v0 = vs[0];
    let bv = encode_utf8(v0);
    assert(standalone(bv));
    let total = encode_utf8(elems_join(vs));
    let rest_chars = if vs.len() == 1 { Seq::<char>::empty() } else { seq![','] + elems_join(vs.drop_first()) };
    assert(elems_join(vs) == v0 + rest_chars) by {
        if vs.len() == 1 {
            assert(v0 + rest_chars =~= v0);
        }
    }
    lemma_encode_concat(v0, rest_chars);
    let rest = encode_utf8(rest_chars);
    lemma_split(b, j, bv, rest);
    let e = j + bv.len();
    assert(b[j] == b.subrange(j, e)[0]);
    if vs.len() == 1 {
        assert(rest =~= Seq::<u8>::empty()) by {
            assert(encode_utf8(Seq::<char>::empty()) =~= Seq::<u8>::empty());
        }
        assert(is_delim(b[e]));
        assert(value_at(b, j) == Some(e));
        assert(ws_end(b, e) == e);
        assert(arr_after_member(b, e) == Some(e + 1));
    } else {
        let tail = vs.drop_first();
        let comma = encode_utf8(seq![',']);
        lemma_encode_ascii_char_seq(',');
        lemma_encode_concat(seq![','], elems_join(tail));
        let tb = encode_utf8(elems_join(tail));
        lemma_split(b, e, comma, tb);
        assert(b[e] == b.subrange(e, e + 1)[0]);
        assert(b[e] == 44u8);
        assert(value_at(b, j) == Some(e));
        assert(ws_end(b, e) == e);
        assert(elems_ok(tail)) by {
            assert forall|i: int| 0 <= i < tail.len() implies standalone(encode_utf8(#[trigger] tail[i])) by {
                assert(tail[i] == vs[i + 1]);
            }
        }
        let j2 = e + 1;
        lemma_elems_read(b, j2, tail);
        assert(ws_end(b, e + 1) == j2);
    }
}

/// Values written one after another start with a byte that opens a value:
/// not blank and not a closing bracket.
pub(crate) proof fn lemma_elems_starts(b: Seq<u8>, j: int, vs: Seq<Seq<char>>)
    requires
        vs.len() >= 1,
        elems_ok(vs),
        0 <= j,
        j + encode_utf8(elems_join(vs)).len() + 1 <= b.len(),
        b.subrange(j, j + encode_utf8(elems_join(vs)).len()) == encode_utf8(elems_join(vs)),
        b[j + encode_utf8(elems_join(vs)).len()] == 93u8,
    ensures
        !is_ws(b[j]),
        b[j] != 93u8,
{
    lemma_elems_read(b, j, vs);
    let v0 = vs[0];
    let bv = encode_utf8(v0);
    assert(standalone(bv));
    assert(bv.subrange(0, bv.len() as int) =~= bv);
    assert(value_at(bv, 0) == Some(bv.len() as int));
    let rest_chars = if vs.len() == 1 { Seq::<char>::empty() } else { seq![','] + elems_join(vs.drop_first()) };
    assert(elems_join(vs) == v0 + rest_chars) by {
        if vs.len() == 1 {
            assert(v0 + rest_chars =~= v0);
        }
    }
    lemma_encode_concat(v0, rest_chars);
    lemma_split(b, j, bv, encode_utf8(rest_chars));
    assert(b[j] == bv[0]);
}

pub proof fn lemma_standalone_array(vs: Seq<Seq<char>>)
    requires
        elems_ok(vs),
    ensures
        standalone(encode_utf8(arr_chars(vs))),
{
    let open = encode_utf8(seq!['[']);
    let close = encode_utf8(seq![']']);
    let body = encode_utf8(elems_join(vs));
    lemma_encode_ascii_char_seq('[');
    lemma_encode_ascii_char_seq(']');
    lemma_encode_concat(seq!['['], elems_join(vs));
    lemma_encode_concat(seq!['['] + elems_join(vs), seq![']']);
    let v = encode_utf8(arr_chars(vs));
    assert(v == open + body + close);
    assert forall|b: Seq<u8>, p: int|
        0 <= p && p + v.len() <= b.len() && b.subrange(p, p + v.len()) == v && (p + v.len() == b.len() || is_delim(
            b[p + v.len()],
        )) implies #[trigger] value_at(b, p) == Some(p + v.len()) by {
        lemma_split(b, p, open + body, close);
        lemma_split(b, p, open, body);
        assert(b[p] == b.subrange(p, p + 1)[0]);
        assert(b[p] == 91u8);
        let j = p + 1;
        let last = j + body.len();
        assert(b[last] == b.subrange(last, last + 1)[0]);
        assert(b[last] == 93u8);
        if vs.len() == 0 {
            assert(elems_join(vs) =~= Seq::<char>::empty());
            assert(body =~= Seq::<u8>::empty()) by {
                assert(encode_utf8(Seq::<char>::empty()) =~= Seq::<u8>::empty());
            }
            assert(ws_end(b, j) == j);
        } else {
            lemma_elems_read(b, j, vs);
            assert(ws_end(b, j) == j);
        }
    }
}

/// A value that reads on its own, alone in the input, is JSON text.
pub proof fn lemma_standalone_text(v: Seq<u8>)
    requires
        standalone(v),
    ensures
        is_json_text(v),
{
    assert(v.subrange(0, v.len() as int) =~= v);
    assert(ws_end(v, 0) == 0);
    assert(value_at(v, 0) == Some(v.len() as int));
}

// ------------------------------------------------------------ the report

proof fn lemma_elems_push(vs: Seq<Seq<char>>, x: Seq<char>)
    ensures
        elems_join(vs.push(x)) == if vs.len() == 0 { x } else { elems_join(vs) + seq![','] + x },
    decreases vs.len(),
{
    assert(vs.push(x)[vs.len() as int] == x);
    if vs.len() == 0 {
        assert(vs.push(x).len() == 1);
        assert(vs.push(x)[0] == x);
    } else if vs.len() == 1 {
        assert(vs.push(x).drop_first() =~= seq![x]);
        assert(vs.push(x)[0] == vs[0]);
        assert(seq![x][0] == x);
        assert(elems_join(seq![x]) == x);
        assert(elems_join(vs) == vs[0]);
    } else {
        assert(vs.push(x).drop_first() =~= vs.drop_first().push(x));
        assert(vs.push(x)[0] == vs[0]);
        lemma_elems_push(vs.drop_first(), x);
        assert(elems_join(vs.push(x)) =~= elems_join(vs) + seq![','] + x);
    }
}

pub open spec fn diag_objects(src: Seq<u8>, ds: Seq<DiagModel>) -> Seq<Seq<char>> {
    Seq::new(ds.len(), |i: int| diag_json(src, ds[i]))
}

#[verifier::rlimit(50)]
proof fn lemma_diags_join(src: Seq<u8>, ds: Seq<DiagModel>)
    ensures
        diags_json(src, ds) == elems_join(diag_objects(src, ds)),
    decreases ds.len(),
{
    let objs = diag_objects(src, ds);
    if ds.len() == 1 {
        assert(objs.len() == 1);
        assert(objs[0] == diag_json(src, ds[0]));
        assert(elems_join(objs) == objs[0]);
    } else if ds.len() > 1 {
        let init = ds.drop_last();
        lemma_diags_join(src, init);
        let o2 = diag_objects(src, init);
        assert(objs =~= o2.push(diag_json(src, ds.last())));
        lemma_elems_push(o2, diag_json(src, ds.last()));
        assert(diags_json(src, ds) == diags_json(src, init) + ","@ + diag_json(src, ds.last()));
        reveal_strlit(",");
        assert(","@ =~= seq![',']);
    } else {
        assert(elems_join(objs) =~= Seq::<char>::empty());
    }
}

proof fn lemma_members_concat(a: Seq<(Seq<char>, Seq<char>)>, b: Seq<(Seq<char>, Seq<char>)>)
    requires
        a.len() >= 1,
        b.len() >= 1,
    ensures
        members_join(a + b) == members_join(a) + seq![','] + members_join(b),
    decreases a.len(),
{
    if a.len() == 1 {
        assert((a + b).drop_first() =~= b);
        assert((a + b)[0] == a[0]);
    } else {
        assert((a + b).drop_first() =~= a.drop_first() + b);
        assert((a + b)[0] == a[0]);
        lemma_members_concat(a.drop_first(), b);
        assert(members_join(a + b) =~= members_join(a) + seq![','] + members_join(b));
    }
}

/// The members of a diagnostic object, in the order the report writes them.
pub open spec fn head_members(src: Seq<u8>, d: DiagModel) -> Seq<(Seq<char>, Seq<char>)> {
    let (l, c) = line_col_of(src, d.span.start as int);
    seq![
        ("code"@, quoted(d.code)),
        ("message"@, quoted(d.message)),
        ("severity"@, quoted(severity_name(d.severity))),
        ("start"@, decimal(d.span.start as nat)),
        ("end"@, decimal(d.span.end as nat)),
        ("line"@, decimal(l as nat)),
        ("column"@, decimal(c as nat)),
    ]
}

pub open spec fn related_members(src: Seq<u8>, r: Span) -> Seq<(Seq<char>, Seq<char>)> {
    let (l, c) = line_col_of(src, r.start as int);
    seq![
        ("start"@, decimal(r.start as nat)),
        ("end"@, decimal(r.end as nat)),
        ("line"@, decimal(l as nat)),
        ("column"@, decimal(c as nat)),
    ]
}

pub open spec fn tail_members(src: Seq<u8>, d: DiagModel) -> Seq<(Seq<char>, Seq<char>)> {
    (match d.hint {
        Some(h) => seq![("hint"@, quoted(h))],
        None => Seq::empty(),
    }) + (match d.related {
        Some(r) => seq![("related"@, obj_chars(related_members(src, r)))],
        None => Seq::empty(),
    })
}

pub open spec fn diag_members(src: Seq<u8>, d: DiagModel) -> Seq<(Seq<char>, Seq<char>)> {
    head_members(src, d) + tail_members(src, d)
}

pub(crate) proof fn lemma_key_literals()
    ensures
        plain("ok"@),
        plain("diagnostics"@),
        plain("code"@),
        plain("message"@),
        plain("severity"@),
        plain("start"@),
        plain("end"@),
        plain("line"@),
        plain("column"@),
        plain("hint"@),
        plain("related"@),
        plain("error"@),
        plain("warning"@),
{
    reveal_strlit("ok");
    reveal_strlit("diagnostics");
    reveal_strlit("code");
    reveal_strlit("message");
    reveal_strlit("severity");
    reveal_strlit("start");
    reveal_strlit("end");
    reveal_strlit("line");
    reveal_strlit("column");
    reveal_strlit("hint");
    reveal_strlit("related");
    reveal_strlit("error");
    reveal_strlit("warning");
}

/// A quoted plain key is the key between quotes.
pub(crate) proof fn lemma_quoted_plain(t: Seq<char>)
    requires
        plain(t),
    ensures
        quoted(t) == "\""@ + t + "\""@,
{
    lemma_plain_esc(t);
}


proof fn lemma_assoc(a: Seq<char>, b: Seq<char>, c: Seq<char>)
    ensures
        a + b + c == a + (b + c),
{
    assert(a + b + c =~= a + (b + c));
}

/// A member with a plain key behind some glue, followed by more.
proof fn lemma_glue_more(pre: Seq<char>, k: Seq<char>, v: Seq<char>, rest: Seq<char>)
    requires
        plain(k),
    ensures
        pre + (member_chars(k, v) + seq![','] + rest) == pre + "\""@ + k + "\""@ + seq![':'] + v + (seq![','] + rest),
{
    lemma_quoted_plain(k);
    assert(pre + (member_chars(k, v) + seq![','] + rest) =~= pre + "\""@ + k + "\""@ + seq![':'] + v + (seq![','] + rest));
}

/// The last member with a plain key behind some glue.
proof fn lemma_glue_last(pre: Seq<char>, k: Seq<char>, v: Seq<char>)
    requires
        plain(k),
    ensures
        pre + member_chars(k, v) == pre + "\""@ + k + "\""@ + seq![':'] + v,
{
    lemma_quoted_plain(k);
    assert(pre + member_chars(k, v) =~= pre + "\""@ + k + "\""@ + seq![':'] + v);
}

/// The glue that the report writes between the values of a diagnostic,
/// taken apart into its quotes, keys, colons and commas.
proof fn lemma_glue_literals()
    ensures
        ",\"column\":"@ == seq![','] + "\""@ + "column"@ + "\""@ + seq![':'],
        ",\"line\":"@ == seq![','] + "\""@ + "line"@ + "\""@ + seq![':'],
        ",\"end\":"@ == seq![','] + "\""@ + "end"@ + "\""@ + seq![':'],
        "\",\"start\":"@ == "\""@ + seq![','] + "\""@ + "start"@ + "\""@ + seq![':'],
        ",\"severity\":\""@ == seq![','] + "\""@ + "severity"@ + "\""@ + seq![':'] + "\""@,
        "\",\"message\":"@ == "\""@ + seq![','] + "\""@ + "message"@ + "\""@ + seq![':'],
        "{\"code\":\""@ == seq!['{'] + "\""@ + "code"@ + "\""@ + seq![':'] + "\""@,
{
    reveal_strlit("\"");
    assert(",\"column\":"@ =~= seq![','] + "\""@ + "column"@ + "\""@ + seq![':']) by {
        reveal_strlit(",\"column\":");
        reveal_strlit("column");
    }
    assert(",\"line\":"@ =~= seq![','] + "\""@ + "line"@ + "\""@ + seq![':']) by {
        reveal_strlit(",\"line\":");
        reveal_strlit("line");
    }
    assert(",\"end\":"@ =~= seq![','] + "\""@ + "end"@ + "\""@ + seq![':']) by {
        reveal_strlit(",\"end\":");
        reveal_strlit("end");
    }
    assert("\",\"start\":"@ =~= "\""@ + seq![','] + "\""@ + "start"@ + "\""@ + seq![':']) by {
        reveal_strlit("\",\"start\":");
        reveal_strlit("start");
    }
    assert(",\"severity\":\""@ =~= seq![','] + "\""@ + "severity"@ + "\""@ + seq![':'] + "\""@) by {
        reveal_strlit(",\"severity\":\"");
        reveal_strlit("severity");
    }
    assert("\",\"message\":"@ =~= "\""@ + seq![','] + "\""@ + "message"@ + "\""@ + seq![':']) by {
        reveal_strlit("\",\"message\":");
        reveal_strlit("message");
    }
    assert("{\"code\":\""@ =~= seq!['{'] + "\""@ + "code"@ + "\""@ + seq![':'] + "\""@) by {
        reveal_strlit("{\"code\":\"");
        reveal_strlit("code");
    }
}

/// Seven members, joined.
proof fn lemma_join7(ms: Seq<(Seq<char>, Seq<char>)>)
    requires
        ms.len() == 7,
    ensures
        members_join(ms) == member_chars(ms[0].0, ms[0].1) + seq![','] + (member_chars(ms[1].0, ms[1].1) + seq![',']
            + (member_chars(ms[2].0, ms[2].1) + seq![','] + (member_chars(ms[3].0, ms[3].1) + seq![','] + (
        member_chars(ms[4].0, ms[4].1) + seq![','] + (member_chars(ms[5].0, ms[5].1) + seq![',']
            + member_chars(ms[6].0, ms[6].1)))))),
{
    let t1 = ms.drop_first();
    let t2 = t1.drop_first();
    let t3 = t2.drop_first();
    let t4 = t3.drop_first();
    let t5 = t4.drop_first();
    let t6 = t5.drop_first();
    assert(t6.len() == 1 && t6[0] == ms[6]);
    assert(t5[0] == ms[5] && t4[0] == ms[4] && t3[0] == ms[3] && t2[0] == ms[2] && t1[0] == ms[1]);
    assert(members_join(t6) == member_chars(ms[6].0, ms[6].1));
    assert(members_join(t5) == member_chars(ms[5].0, ms[5].1) + seq![','] + members_join(t6));
    assert(members_join(t4) == member_chars(ms[4].0, ms[4].1) + seq![','] + members_join(t5));
    assert(members_join(t3) == member_chars(ms[3].0, ms[3].1) + seq![','] + members_join(t4));
    assert(members_join(t2) == member_chars(ms[2].0, ms[2].1) + seq![','] + members_join(t3));
    assert(members_join(t1) == member_chars(ms[1].0, ms[1].1) + seq![','] + members_join(t2));
}

/// A member whose value is a quoted plain text, behind some glue.
proof fn lemma_glue_quoted(pre: Seq<char>, k: Seq<char>, x: Seq<char>, rest: Seq<char>)
    requires
        plain(k),
        plain(x),
    ensures
        pre + (member_chars(k, quoted(x)) + seq![','] + rest) == pre + "\""@ + k + "\""@ + seq![':'] + "\""@ + x + (
        "\""@ + (seq![','] + rest)),
{
    lemma_quoted_plain(k);
    lemma_quoted_plain(x);
    assert(pre + (member_chars(k, quoted(x)) + seq![','] + rest) =~= pre + "\""@ + k + "\""@ + seq![':'] + "\""@ + x
        + ("\""@ + (seq![','] + rest)));
}

/// Fourteen pieces, joined from the left, joined from the right in pairs.
proof fn lemma_pairs7(
    a1: Seq<char>,
    b1: Seq<char>,
    a2: Seq<char>,
    b2: Seq<char>,
    a3: Seq<char>,
    b3: Seq<char>,
    a4: Seq<char>,
    b4: Seq<char>,
    a5: Seq<char>,
    b5: Seq<char>,
    a6: Seq<char>,
    b6: Seq<char>,
    a7: Seq<char>,
    b7: Seq<char>,
)
    ensures
        a1 + b1 + a2 + b2 + a3 + b3 + a4 + b4 + a5 + b5 + a6 + b6 + a7 + b7 == a1 + b1 + (a2 + b2 + (a3 + b3 + (a4
            + b4 + (a5 + b5 + (a6 + b6 + (a7 + b7)))))),
{
    let u7 = a7 + b7;
    let u6 = a6 + b6 + u7;
    let u5 = a5 + b5 + u6;
    let u4 = a4 + b4 + u5;
    let u3 = a3 + b3 + u4;
    let u2 = a2 + b2 + u3;
    lemma_assoc(a1 + b1 + a2 + b2 + a3 + b3 + a4 + b4 + a5 + b5 + a6 + b6, a7, b7);
    lemma_assoc(a1 + b1 + a2 + b2 + a3 + b3 + a4 + b4 + a5 + b5 + a6, b6, u7);
    lemma_assoc(a1 + b1 + a2 + b2 + a3 + b3 + a4 + b4 + a5 + b5, a6, b6 + u7);
    lemma_assoc(a1 + b1 + a2 + b2 + a3 + b3 + a4 + b4 + a5, b5, u6);
    lemma_assoc(a1 + b1 + a2 + b2 + a3 + b3 + a4 + b4, a5, b5 + u6);
    lemma_assoc(a1 + b1 + a2 + b2 + a3 + b3 + a4, b4, u5);
    lemma_assoc(a1 + b1 + a2 + b2 + a3 + b3, a4, b4 + u5);
    lemma_assoc(a1 + b1 + a2 + b2 + a3, b3, u4);
    lemma_assoc(a1 + b1 + a2 + b2, a3, b3 + u4);
    lemma_assoc(a1 + b1 + a2, b2, u3);
    lemma_assoc(a1 + b1, a2, b2 + u3);
}

/// The head of a diagnostic object, as the report writes it, is its first
/// seven members after an opening brace.
proof fn lemma_head_text(
    code: Seq<char>,
    qm: Seq<char>,
    sev: Seq<char>,
    d1: Seq<char>,
    d2: Seq<char>,
    d3: Seq<char>,
    d4: Seq<char>,
)
    requires
        plain(code),
        plain(sev),
    ensures
        "{\"code\":\""@ + code + "\",\"message\":"@ + qm + ",\"severity\":\""@ + sev + "\",\"start\":"@ + d1
            + ",\"end\":"@ + d2 + ",\"line\":"@ + d3 + ",\"column\":"@ + d4 == seq!['{'] + (member_chars(
            "code"@,
            quoted(code),
        ) + seq![','] + (member_chars("message"@, qm) + seq![','] + (member_chars("severity"@, quoted(sev))
            + seq![','] + (member_chars("start"@, d1) + seq![','] + (member_chars("end"@, d2) + seq![','] + (
        member_chars("line"@, d3) + seq![','] + member_chars("column"@, d4))))))),
{
    lemma_glue_literals();
    lemma_key_literals();
    let q = "\""@;
    let cm = seq![','];
    let j6 = member_chars("column"@, d4);
    let j5 = member_chars("line"@, d3) + cm + j6;
    let j4 = member_chars("end"@, d2) + cm + j5;
    let j3 = member_chars("start"@, d1) + cm + j4;
    let j2 = member_chars("severity"@, quoted(sev)) + cm + j3;
    let j1 = member_chars("message"@, qm) + cm + j2;
    let j0 = member_chars("code"@, quoted(code)) + cm + j1;
    let g7 = ",\"column\":"@;
    let g6 = ",\"line\":"@;
    let g5 = ",\"end\":"@;
    let g4 = "\",\"start\":"@;
    let g3 = ",\"severity\":\""@;
    let g2 = "\",\"message\":"@;
    let g1 = "{\"code\":\""@;
    let u7 = g7 + d4;
    lemma_glue_last(cm, "column"@, d4);
    let u6 = g6 + d3 + u7;
    lemma_glue_more(cm, "line"@, d3, j6);
    let u5 = g5 + d2 + u6;
    lemma_glue_more(cm, "end"@, d2, j5);
    let u4 = g4 + d1 + u5;
    lemma_glue_more(q + cm, "start"@, d1, j4);
    lemma_assoc(q, cm, j3);
    let u3 = g3 + sev + u4;
    lemma_glue_quoted(cm, "severity"@, sev, j3);
    let u2 = g2 + qm + u3;
    lemma_glue_more(q + cm, "message"@, qm, j2);
    lemma_assoc(q, cm, j1);
    let u1 = g1 + code + u2;
    lemma_glue_quoted(seq!['{'], "code"@, code, j1);
    assert(seq!['{'] + j0 == u1);
    lemma_pairs7(g1, code, g2, qm, g3, sev, g4, d1, g5, d2, g6, d3, g7, d4);
}

/// The members of a diagnostic up to its column, written out.
proof fn lemma_head_object(src: Seq<u8>, d: DiagModel)
    requires
        plain(d.code),
    ensures
        diag_head(src, d) == seq!['{'] + members_join(head_members(src, d)),
{
    let (l, c) = line_col_of(src, d.span.start as int);
    let ms = head_members(src, d);
    lemma_join7(ms);
    lemma_key_literals();
    let sev = severity_name(d.severity);
    assert(plain(sev));
    lemma_head_text(
        d.code,
        quoted(d.message),
        sev,
        decimal(d.span.start as nat),
        decimal(d.span.end as nat),
        decimal(l as nat),
        decimal(c as nat),
    );
}

/// Four members, joined.
proof fn lemma_join4(ms: Seq<(Seq<char>, Seq<char>)>)
    requires
        ms.len() == 4,
    ensures
        members_join(ms) == member_chars(ms[0].0, ms[0].1) + seq![','] + (member_chars(ms[1].0, ms[1].1) + seq![',']
            + (member_chars(ms[2].0, ms[2].1) + seq![','] + member_chars(ms[3].0, ms[3].1))),
{
    let t1 = ms.drop_first();
    let t2 = t1.drop_first();
    let t3 = t2.drop_first();
    assert(t3.len() == 1 && t3[0] == ms[3]);
    assert(t2[0] == ms[2] && t1[0] == ms[1]);
    assert(members_join(t3) == member_chars(ms[3].0, ms[3].1));
    assert(members_join(t2) == member_chars(ms[2].0, ms[2].1) + seq![','] + members_join(t3));
    assert(members_join(t1) == member_chars(ms[1].0, ms[1].1) + seq![','] + members_join(t2));
}

proof fn lemma_related_literals()
    ensures
        ",\"related\":{\"start\":"@ == seq![','] + "\""@ + "related"@ + "\""@ + seq![':'] + seq!['{'] + "\""@
            + "start"@ + "\""@ + seq![':'],
        "}"@ == seq!['}'],
        ",\"hint\":"@ == seq![','] + "\""@ + "hint"@ + "\""@ + seq![':'],
{
    reveal_strlit("\"");
    reveal_strlit("}");
    assert("}"@ =~= seq!['}']);
    assert(",\"related\":{\"start\":"@ =~= seq![','] + "\""@ + "related"@ + "\""@ + seq![':'] + seq!['{'] + "\""@
        + "start"@ + "\""@ + seq![':']) by {
        reveal_strlit(",\"related\":{\"start\":");
        reveal_strlit("related");
        reveal_strlit("start");
    }
    assert(",\"hint\":"@ =~= seq![','] + "\""@ + "hint"@ + "\""@ + seq![':']) by {
        reveal_strlit(",\"hint\":");
        reveal_strlit("hint");
    }
}

/// The related span, as the report writes it, is a comma and a member
/// whose value is an object of four members.
proof fn lemma_related_text(d1: Seq<char>, d2: Seq<char>, d3: Seq<char>, d4: Seq<char>)
    ensures
        ",\"related\":{\"start\":"@ + d1 + ",\"end\":"@ + d2 + ",\"line\":"@ + d3 + ",\"column\":"@ + d4 + "}"@
            == seq![','] + member_chars(
            "related"@,
            seq!['{'] + (member_chars("start"@, d1) + seq![','] + (member_chars("end"@, d2) + seq![','] + (
            member_chars("line"@, d3) + seq![','] + member_chars("column"@, d4)))) + seq!['}'],
        ),
{
    lemma_glue_literals();
    lemma_related_literals();
    lemma_key_literals();
    let cm = seq![','];
    let j3 = member_chars("column"@, d4);
    let j2 = member_chars("line"@, d3) + cm + j3;
    let j1 = member_chars("end"@, d2) + cm + j2;
    let j0 = member_chars("start"@, d1) + cm + j1;
    let g0 = ",\"related\":{\"start\":"@;
    let g1 = ",\"end\":"@;
    let g2 = ",\"line\":"@;
    let g3 = ",\"column\":"@;
    lemma_glue_last(cm, "column"@, d4);
    lemma_glue_more(cm, "line"@, d3, j3);
    lemma_glue_more(cm, "end"@, d2, j2);
    let pre = seq![','] + "\""@ + "related"@ + "\""@ + seq![':'] + seq!['{'];
    lemma_glue_more(pre, "start"@, d1, j1);
    lemma_quoted_plain("related"@);
    let u3 = g3 + d4;
    let u2 = g2 + d3 + u3;
    let u1 = g1 + d2 + u2;
    assert(pre + j0 == g0 + d1 + u1);
    assert(seq![','] + member_chars("related"@, seq!['{'] + j0 + seq!['}']) =~= pre + j0 + seq!['}']);
    lemma_assoc(g0 + d1 + g1 + d2 + g2 + d3 + g3, d4, seq!['}']);
    lemma_assoc(g0 + d1 + g1 + d2 + g2 + d3, g3, d4 + seq!['}']);
    lemma_assoc(g0 + d1 + g1 + d2 + g2, d3, u3 + seq!['}']);
    lemma_assoc(g0 + d1 + g1 + d2, g2, d3 + (u3 + seq!['}']));
    lemma_assoc(g0 + d1 + g1, d2, u2 + seq!['}']);
    lemma_assoc(g0 + d1, g1, d2 + (u2 + seq!['}']));
    lemma_assoc(g0, d1, u1 + seq!['}']);
    assert(g3 + d4 + seq!['}'] == u3 + seq!['}']);
    assert(d3 + (u3 + seq!['}']) == d3 + u3 + seq!['}']) by {
        lemma_assoc(d3, u3, seq!['}']);
    }
    assert(g2 + (d3 + (u3 + seq!['}'])) == u2 + seq!['}']) by {
        lemma_assoc(g2, d3, u3 + seq!['}']);
        lemma_assoc(g2 + d3, u3, seq!['}']);
    }
    assert(d2 + (u2 + seq!['}']) == d2 + u2 + seq!['}']) by {
        lemma_assoc(d2, u2, seq!['}']);
    }
    assert(g1 + (d2 + (u2 + seq!['}'])) == u1 + seq!['}']) by {
        lemma_assoc(g1, d2, u2 + seq!['}']);
        lemma_assoc(g1 + d2, u2, seq!['}']);
    }
    assert(g0 + d1 + (u1 + seq!['}']) == pre + j0 + seq!['}']) by {
        lemma_assoc(g0 + d1, u1, seq!['}']);
    }
}

/// What follows the head of a diagnostic: nothing, or a comma and its
/// last members.
proof fn lemma_tail_text(src: Seq<u8>, d: DiagModel)
    ensures
        tail_members(src, d).len() == 0 ==> hint_json(d.hint) + related_json(src, d.related) == Seq::<char>::empty(),
        tail_members(src, d).len() > 0 ==> hint_json(d.hint) + related_json(src, d.related) == seq![',']
            + members_join(tail_members(src, d)),
{
    let cm = seq![','];
    let tm = tail_members(src, d);
    lemma_related_literals();
    lemma_key_literals();
    let hm = match d.hint {
        Some(h) => seq![("hint"@, quoted(h))],
        None => Seq::<(Seq<char>, Seq<char>)>::empty(),
    };
    let rm = match d.related {
        Some(r) => seq![("related"@, obj_chars(related_members(src, r)))],
        None => Seq::<(Seq<char>, Seq<char>)>::empty(),
    };
    assert(tm == hm + rm);
    let hj = hint_json(d.hint);
    let rj = related_json(src, d.related);
    if let Some(h) = d.hint {
        lemma_glue_last(cm, "hint"@, quoted(h));
        assert(hj == cm + member_chars("hint"@, quoted(h)));
    } else {
        assert(hj == Seq::<char>::empty());
    }
    if let Some(r) = d.related {
        let (l, c) = line_col_of(src, r.start as int);
        let rms = related_members(src, r);
        lemma_join4(rms);
        lemma_related_text(decimal(r.start as nat), decimal(r.end as nat), decimal(l as nat), decimal(c as nat));
        assert(rj == cm + member_chars("related"@, obj_chars(rms)));
    } else {
        assert(rj == Seq::<char>::empty());
    }
    match (d.hint, d.related) {
        (Some(h), Some(r)) => {
            let mh = member_chars("hint"@, quoted(h));
            let mr = member_chars("related"@, obj_chars(related_members(src, r)));
            assert(tm.len() == 2 && tm[0] == ("hint"@, quoted(h)));
            assert(tm.drop_first() =~= seq![("related"@, obj_chars(related_members(src, r)))]);
            assert(tm[1] == ("related"@, obj_chars(related_members(src, r))));
            assert(tm.drop_first().len() == 1 && tm.drop_first()[0] == tm[1]);
            assert(members_join(tm.drop_first()) == mr);
            assert(members_join(tm) == mh + cm + mr);
            assert(hj + rj =~= cm + (mh + cm + mr));
        },
        (Some(h), None) => {
            assert(tm =~= seq![("hint"@, quoted(h))]);
            assert(hj + rj =~= hj);
        },
        (None, Some(r)) => {
            assert(tm =~= seq![("related"@, obj_chars(related_members(src, r)))]);
            assert(hj + rj =~= rj);
        },
        (None, None) => {
            assert(hj + rj =~= Seq::<char>::empty());
        },
    }
}

/// A diagnostic, as the report writes it, is the object of its members,
/// when its code needs no escaping.
pub(crate) proof fn lemma_diag_object(src: Seq<u8>, d: DiagModel)
    requires
        plain(d.code),
    ensures
        diag_json(src, d) == obj_chars(diag_members(src, d)),
{
    lemma_head_object(src, d);
    lemma_tail_text(src, d);
    lemma_related_literals();
    let hm = head_members(src, d);
    let tm = tail_members(src, d);
    let x = hint_json(d.hint) + related_json(src, d.related);
    let jh = members_join(hm);
    assert(diag_json(src, d) == seq!['{'] + jh + x + seq!['}']) by {
        lemma_assoc(diag_head(src, d), hint_json(d.hint), related_json(src, d.related));
    }
    if tm.len() == 0 {
        assert(hm + tm =~= hm);
        assert(diag_json(src, d) =~= obj_chars(diag_members(src, d)));
    } else {
        lemma_members_concat(hm, tm);
        assert(diag_json(src, d) =~= obj_chars(diag_members(src, d)));
    }
}

/// The members of a related span have plain keys and numbers for values.
pub(crate) proof fn lemma_related_members_ok(src: Seq<u8>, r: Span)
    ensures
        members_ok(related_members(src, r)),
{
    let (l, c) = line_col_of(src, r.start as int);
    let ms = related_members(src, r);
    lemma_key_literals();
    lemma_standalone_number(r.start as nat);
    lemma_standalone_number(r.end as nat);
    lemma_standalone_number(l as nat);
    lemma_standalone_number(c as nat);
    assert forall|i: int| 0 <= i < ms.len() implies plain(#[trigger] ms[i].0) && standalone(encode_utf8(ms[i].1)) by {
        if i == 0 {
        } else if i == 1 {
        } else if i == 2 {
        } else {
        }
    }
}

/// The members of a diagnostic have plain keys and values that read on
/// their own.
pub(crate) proof fn lemma_diag_members_ok(src: Seq<u8>, d: DiagModel)
    ensures
        members_ok(diag_members(src, d)),
{
    let (l, c) = line_col_of(src, d.span.start as int);
    let hm = head_members(src, d);
    let tm = tail_members(src, d);
    let ms = diag_members(src, d);
    lemma_key_literals();
    lemma_standalone_string(d.code);
    lemma_standalone_string(d.message);
    lemma_standalone_string(severity_name(d.severity));
    lemma_standalone_number(d.span.start as nat);
    lemma_standalone_number(d.span.end as nat);
    lemma_standalone_number(l as nat);
    lemma_standalone_number(c as nat);
    if let Some(h) = d.hint {
        lemma_standalone_string(h);
    }
    if let Some(r) = d.related {
        lemma_related_members_ok(src, r);
        lemma_standalone_object(related_members(src, r));
    }
    assert(members_ok(hm)) by {
        assert forall|i: int| 0 <= i < hm.len() implies plain(#[trigger] hm[i].0) && standalone(encode_utf8(hm[i].1)) by {
            if i == 0 {
            } else if i == 1 {
            } else if i == 2 {
            } else if i == 3 {
            } else if i == 4 {
            } else if i == 5 {
            } else {
            }
        }
    }
    assert(members_ok(tm)) by {
        assert forall|i: int| 0 <= i < tm.len() implies plain(#[trigger] tm[i].0) && standalone(encode_utf8(tm[i].1)) by {
            match (d.hint, d.related) {
                (Some(h), Some(r)) => {
                    if i == 0 {
                        assert(tm[i] == ("hint"@, quoted(h)));
                    } else {
                        assert(tm[i] == ("related"@, obj_chars(related_members(src, r))));
                    }
                },
                (Some(h), None) => {
                    assert(tm[i] == ("hint"@, quoted(h)));
                },
                (None, Some(r)) => {
                    assert(tm[i] == ("related"@, obj_chars(related_members(src, r))));
                },
                (None, None) => {},
            }
        }
    }
    assert forall|i: int| 0 <= i < ms.len() implies plain(#[trigger] ms[i].0) && standalone(encode_utf8(ms[i].1)) by {
        if i < hm.len() {
            assert(ms[i] == hm[i]);
        } else {
            assert(ms[i] == tm[i - hm.len()]);
        }
    }
}

/// The verdict as the report writes it.
pub open spec fn verdict(ok: bool) -> Seq<char> {
    if ok {
        "true"@
    } else {
        "false"@
    }
}

/// The members of the report: the verdict and the array of diagnostics.
pub open spec fn report_members(src: Seq<u8>, ds: Seq<DiagModel>, ok: bool) -> Seq<(Seq<char>, Seq<char>)> {
    seq![("ok"@, verdict(ok)), ("diagnostics"@, arr_chars(diag_objects(src, ds)))]
}

proof fn lemma_report_literals()
    ensures
        "{\"ok\":"@ == seq!['{'] + "\""@ + "ok"@ + "\""@ + seq![':'],
        ",\"diagnostics\":["@ == seq![','] + "\""@ + "diagnostics"@ + "\""@ + seq![':'] + seq!['['],
        "]}"@ == seq![']'] + seq!['}'],
{
    reveal_strlit("\"");
    assert("{\"ok\":"@ =~= seq!['{'] + "\""@ + "ok"@ + "\""@ + seq![':']) by {
        reveal_strlit("{\"ok\":");
        reveal_strlit("ok");
    }
    assert(",\"diagnostics\":["@ =~= seq![','] + "\""@ + "diagnostics"@ + "\""@ + seq![':'] + seq!['[']) by {
        reveal_strlit(",\"diagnostics\":[");
        reveal_strlit("diagnostics");
    }
    assert("]}"@ =~= seq![']'] + seq!['}']) by {
        reveal_strlit("]}");
    }
}

/// The report, as written, is an object of two members.
proof fn lemma_report_text(v: Seq<char>, ej: Seq<char>)
    ensures
        "{\"ok\":"@ + v + ",\"diagnostics\":["@ + ej + "]}"@ == seq!['{'] + (member_chars("ok"@, v) + seq![',']
            + member_chars("diagnostics"@, seq!['['] + ej + seq![']'])) + seq!['}'],
{
    lemma_report_literals();
    lemma_key_literals();
    let arr = seq!['['] + ej + seq![']'];
    let r = member_chars("diagnostics"@, arr);
    lemma_glue_more(seq!['{'], "ok"@, v, r);
    lemma_glue_last(seq![','], "diagnostics"@, arr);
    let g1 = "{\"ok\":"@;
    let g2 = ",\"diagnostics\":["@;
    let g3 = "]}"@;
    assert(seq!['{'] + (member_chars("ok"@, v) + seq![','] + r) == g1 + v + (seq![','] + r));
    assert(seq![','] + r == g2.drop_last() + arr) by {
        assert(g2.drop_last() =~= seq![','] + "\""@ + "diagnostics"@ + "\""@ + seq![':']);
    }
    assert(g2.drop_last() + arr + seq!['}'] =~= g2 + ej + g3);
    lemma_assoc(g1 + v, seq![','] + r, seq!['}']);
    lemma_assoc(g1 + v, g2, ej);
    lemma_assoc(g1 + v, g2 + ej, g3);
}

pub(crate) proof fn lemma_report_object(src: Seq<u8>, ds: Seq<DiagModel>, ok: bool)
    ensures
        report_spec(src, ds, ok) == obj_chars(report_members(src, ds, ok)),
{
    let ms = report_members(src, ds, ok);
    let objs = diag_objects(src, ds);
    lemma_diags_join(src, ds);
    assert(ms.drop_first() =~= seq![("diagnostics"@, arr_chars(objs))]);
    assert(members_join(ms.drop_first()) == member_chars("diagnostics"@, arr_chars(objs)));
    assert(members_join(ms) == member_chars("ok"@, verdict(ok)) + seq![','] + member_chars(
        "diagnostics"@,
        arr_chars(objs),
    ));
    lemma_report_text(verdict(ok), elems_join(objs));
}

/// The bytes of the verdict are those of the literal the grammar reads.
pub(crate) proof fn lemma_verdict_bytes(ok: bool)
    ensures
        encode_utf8(verdict(ok)) == if ok {
            crate::grammar::true_bytes()
        } else {
            crate::grammar::false_bytes()
        },
{
    reveal_strlit("true");
    reveal_strlit("false");
    let w = verdict(ok);
    assert(forall|i: int| 0 <= i < w.len() ==> (#[trigger] w[i] as u32) < 0x80);
    lemma_encode_ascii_seq(w);
    if ok {
        assert(encode_utf8(w) =~= crate::grammar::true_bytes());
    } else {
        assert(encode_utf8(w) =~= crate::grammar::false_bytes());
    }
}

/// Every diagnostic code of `ds` needs no escaping: no quote, no backslash,
/// no control character.
pub open spec fn plain_codes(ds: Seq<DiagModel>) -> bool {
    forall|i: int| 0 <= i < ds.len() ==> plain(#[trigger] ds[i].code)
}

/// The report is JSON text: its UTF-8 bytes read as one value, an object,
/// whenever the diagnostic codes need no escaping (the report writes codes
/// as they are, and escapes messages and hints).
pub proof fn law_report_is_json(src: Seq<u8>, ds: Seq<DiagModel>, ok: bool)
    requires
        plain_codes(ds),
    ensures
        is_json_text(encode_utf8(report_spec(src, ds, ok))),
{
    let objs = diag_objects(src, ds);
    assert forall|i: int| 0 <= i < objs.len() implies standalone(encode_utf8(#[trigger] objs[i])) by {
        assert(plain(ds[i].code));
        lemma_diag_object(src, ds[i]);
        lemma_diag_members_ok(src, ds[i]);
        lemma_standalone_object(diag_members(src, ds[i]));
    }
    assert(elems_ok(objs));
    lemma_standalone_array(objs);
    lemma_verdict_bytes(ok);
    lemma_standalone_word(verdict(ok), encode_utf8(verdict(ok)));
    let ms = report_members(src, ds, ok);
    lemma_key_literals();
    assert(members_ok(ms)) by {
        assert forall|i: int| 0 <= i < ms.len() implies plain(#[trigger] ms[i].0) && standalone(encode_utf8(ms[i].1)) by {
            if i == 0 {
            } else {
            }
        }
    }
    lemma_standalone_object(ms);
    lemma_report_object(src, ds, ok);
    lemma_standalone_text(encode_utf8(report_spec(src, ds, ok)));
}

proof fn lemma_severity_words()
    ensures
        quoted("error"@) != quoted("warning"@),
{
    lemma_key_literals();
    lemma_plain_esc("error"@);
    lemma_plain_esc("warning"@);
    reveal_strlit("error");
    reveal_strlit("warning");
    assert(quoted("error"@).len() != quoted("warning"@).len());
}

proof fn lemma_severity_member(src: Seq<u8>, d: DiagModel)
    ensures
        diag_members(src, d)[2] == ("severity"@, quoted(if d.severity == Severity::Error { "error"@ } else { "warning"@ })),
        diag_members(src, d)[2].1 == quoted("error"@) <==> d.severity == Severity::Error,
{
    let hm = head_members(src, d);
    assert(hm.len() == 7);
    assert(diag_members(src, d)[2] == hm[2]);
    lemma_severity_words();
}

/// The report names each diagnostic's severity as it is: the report is the
/// object of the verdict and of one object per diagnostic, in order, and the
/// `"severity"` member of each object is the JSON string `"error"` exactly
/// for an error and `"warning"` for a warning.
pub proof fn law_report_names_severity(src: Seq<u8>, ds: Seq<DiagModel>, ok: bool)
    requires
        plain_codes(ds),
    ensures
        report_spec(src, ds, ok) == obj_chars(report_members(src, ds, ok)),
        diag_objects(src, ds).len() == ds.len(),
        forall|i: int|
            0 <= i < ds.len() ==> diag_objects(src, ds)[i] == obj_chars(#[trigger] diag_members(src, ds[i])),
        forall|i: int|
            0 <= i < ds.len() ==> (#[trigger] diag_members(src, ds[i]))[2] == (
                "severity"@,
                quoted(if ds[i].severity == Severity::Error { "error"@ } else { "warning"@ }),
            ),
        forall|i: int|
            0 <= i < ds.len() ==> ((#[trigger] diag_members(src, ds[i]))[2].1 == quoted("error"@) <==> ds[i].severity
                == Severity::Error),
{
    lemma_report_object(src, ds, ok);
    assert forall|i: int| 0 <= i < ds.len() implies diag_objects(src, ds)[i] == obj_chars(
        #[trigger] diag_members(src, ds[i]),
    ) && diag_members(src, ds[i])[2] == (
        "severity"@,
        quoted(if ds[i].severity == Severity::Error { "error"@ } else { "warning"@ }),
    ) && (diag_members(src, ds[i])[2].1 == quoted("error"@) <==> ds[i].severity == Severity::Error) by {
        assert(plain(ds[i].code));
        lemma_diag_object(src, ds[i]);
        lemma_severity_member(src, ds[i]);
    }
}

} // verus!
