//! The validator accepts the diagnostics report: the report nests no deeper
//! than a few levels and repeats no key in any of its objects.
use vstd::prelude::*;
use vstd::utf8::*;
use crate::grammar::{
    fits_arr_open, fits_elements, fits_members, fits_obj_member, fits_obj_open, fits_arr_member, fits_text,
    fits_value, string_end, value_at, ws_end,
};
use crate::lex_spec::is_ws;
use crate::diag::{DiagModel, Span};
use crate::lex_spec::Mode;
use crate::line_index::line_col_of;
use crate::parse_spec::{no_errors, spec_validate, ParseOptions};
use crate::report::{diag_json, quoted, report_spec, severity_name};
use crate::text::decimal;
use crate::validity::{law_json_text_is_accepted, uniq};
use crate::report_law::{
    elems_join, elems_ok, is_delim, lemma_encode_ascii_char_seq, lemma_encode_concat, lemma_first_key,
    lemma_quoted_plain, lemma_quoted_reads, lemma_split, member_chars, members_join, members_ok, obj_chars,
    arr_chars, plain, standalone, diag_members, diag_objects, head_members, lemma_decimal_digits,
    lemma_diag_members_ok, lemma_diag_object, lemma_encode_ascii_seq, lemma_key_literals, lemma_related_members_ok,
    lemma_report_object, lemma_standalone_array, lemma_standalone_object,
    lemma_standalone_word, lemma_verdict_bytes, law_report_is_json, plain_codes, related_members, report_members,
    tail_members, verdict,
};

verus! {

/// `v` stands in `b` at `p`, followed by a delimiter or the end.
pub open spec fn placed(b: Seq<u8>, p: int, v: Seq<u8>) -> bool {
    &&& 0 <= p
    &&& p + v.len() <= b.len()
    &&& b.subrange(p, p + v.len()) == v
    &&& (p + v.len() == b.len() || is_delim(b[p + v.len()]))
}

/// Wherever `v` stands, at a depth `d` with `d + h` within the limit, it
/// keeps the limits: it nests `h` levels at most, and none of its objects
/// repeats a key.
pub open spec fn fits_alone(v: Seq<u8>, h: int) -> bool {
    forall|b: Seq<u8>, p: int, d: int, mx: int, u: bool|
        placed(b, p, v) && 0 <= d && d + h <= mx ==> #[trigger] fits_value(b, p, d, mx, u)
}

/// No two members share a key.
pub open spec fn keys_distinct(ms: Seq<(Seq<char>, Seq<char>)>) -> bool {
    forall|i: int, j: int| 0 <= i < j < ms.len() ==> #[trigger] ms[i].0 != #[trigger] ms[j].0
}

/// Members that read, with distinct keys, and values that keep the limits
/// `h` levels deep.
pub open spec fn members_fit(ms: Seq<(Seq<char>, Seq<char>)>, h: int) -> bool {
    &&& members_ok(ms)
    &&& keys_distinct(ms)
    &&& forall|i: int| 0 <= i < ms.len() ==> fits_alone(encode_utf8(#[trigger] ms[i].1), h)
}

pub open spec fn elems_fit(vs: Seq<Seq<char>>, h: int) -> bool {
    &&& elems_ok(vs)
    &&& forall|i: int| 0 <= i < vs.len() ==> fits_alone(encode_utf8(#[trigger] vs[i]), h)
}

pub proof fn lemma_fits_higher(v: Seq<u8>, h: int, h2: int)
    requires
        fits_alone(v, h),
        h <= h2,
    ensures
        fits_alone(v, h2),
{
}

/// A value that opens no container keeps the limits one level deep.
pub proof fn lemma_scalar_fits(v: Seq<u8>)
    requires
        v.len() > 0,
        v[0] != 123u8,
        v[0] != 91u8,
    ensures
        fits_alone(v, 1),
{
    assert forall|b: Seq<u8>, p: int, d: int, mx: int, u: bool|
        placed(b, p, v) && 0 <= d && d + 1 <= mx implies #[trigger] fits_value(b, p, d, mx, u) by {
        assert(b[p] == b.subrange(p, p + v.len())[0]);
    }
}

/// Two quoted plain keys have the same bytes only when they are the same.
proof fn lemma_key_bytes_differ(a: Seq<char>, b: Seq<char>)
    requires
        plain(a),
        plain(b),
        a != b,
    ensures
        encode_utf8(quoted(a)) != encode_utf8(quoted(b)),
{
    lemma_quoted_plain(a);
    lemma_quoted_plain(b);
    encode_utf8_decode_utf8(quoted(a));
    encode_utf8_decode_utf8(quoted(b));
    reveal_strlit("\"");
    if quoted(a) == quoted(b) {
        assert(quoted(a).subrange(1, quoted(a).len() - 1) =~= a);
        assert(quoted(b).subrange(1, quoted(b).len() - 1) =~= b);
    }
}

/// Members followed by `}`, at depth `d`, keep the limits, after the keys
/// `keys` of the same object, none of which they repeat.
proof fn lemma_members_fit(
    b: Seq<u8>,
    j: int,
    ms: Seq<(Seq<char>, Seq<char>)>,
    d: int,
    mx: int,
    u: bool,
    keys: Seq<Seq<u8>>,
    h: int,
)
    requires
        ms.len() >= 1,
        members_fit(ms, h),
        0 <= d,
        d + h <= mx,
        0 <= j,
        j + encode_utf8(members_join(ms)).len() + 1 <= b.len(),
        b.subrange(j, j + encode_utf8(members_join(ms)).len()) == encode_utf8(members_join(ms)),
        b[j + encode_utf8(members_join(ms)).len()] == 125u8,
        forall|i: int| 0 <= i < ms.len() ==> !keys.contains(encode_utf8(quoted(#[trigger] ms[i].0))),
    ensures
        fits_members(b, j, d, mx, u, keys),
    decreases ms.len(),
{
    let (k0, v0) = ms[0];
    let q = encode_utf8(quoted(k0));
    let col = encode_utf8(seq![':']);
    let bv = encode_utf8(v0);
    lemma_encode_ascii_char_seq(':');
    lemma_encode_concat(quoted(k0), seq![':']);
    lemma_encode_concat(quoted(k0) + seq![':'], v0);
    let mb = encode_utf8(member_chars(k0, v0));
    assert(mb == q + col + bv);
    let total = encode_utf8(members_join(ms));
    let rest_chars = if ms.len() == 1 { Seq::<char>::empty() } else { seq![','] + members_join(ms.drop_first()) };
    assert(members_join(ms) == member_chars(k0, v0) + rest_chars) by {
        if ms.len() == 1 {
            assert(member_chars(k0, v0) + rest_chars =~= member_chars(k0, v0));
        }
    }
    lemma_encode_concat(member_chars(k0, v0), rest_chars);
    let rest = encode_utf8(rest_chars);
    assert(total == mb + rest);
    lemma_split(b, j, mb, rest);
    lemma_split(b, j, q + col, bv);
    lemma_split(b, j, q, col);
    let k = j + q.len();
    let c = k;
    let v = c + 1;
    let e = v + bv.len();
    lemma_quoted_reads(b, j, k0);
    assert(string_end(b, j) == Some(k));
    assert(b[c] == b.subrange(k, k + 1)[0]);
    assert(b[c] == 58u8);
    assert(ws_end(b, k) == k);
    assert(ms[0] == (k0, v0));
    assert(plain(k0) && standalone(bv) && fits_alone(bv, h));
    assert(!keys.contains(q));
    assert(b.subrange(j, k) == q);
    assert(b[v] == b.subrange(v, e)[0]);
    assert(!is_ws(b[v]));
    assert(ws_end(b, c + 1) == v);
    if ms.len() == 1 {
        assert(rest =~= Seq::<u8>::empty()) by {
            assert(encode_utf8(Seq::<char>::empty()) =~= Seq::<u8>::empty());
        }
        assert(e == j + total.len());
        assert(is_delim(b[e]));
        assert(placed(b, v, bv));
        assert(fits_value(b, v, d, mx, u));
        assert(value_at(b, v) == Some(e));
        assert(ws_end(b, e) == e);
        assert(fits_obj_member(b, e, d, mx, u, keys.push(q)));
    } else {
        let tail = ms.drop_first();
        let comma = encode_utf8(seq![',']);
        lemma_encode_ascii_char_seq(',');
        lemma_encode_concat(seq![','], members_join(tail));
        let tb = encode_utf8(members_join(tail));
        assert(rest == comma + tb);
        lemma_split(b, e, comma, tb);
        assert(b[e] == b.subrange(e, e + 1)[0]);
        assert(b[e] == 44u8);
        assert(placed(b, v, bv));
        assert(fits_value(b, v, d, mx, u));
        assert(value_at(b, v) == Some(e));
        assert(ws_end(b, e) == e);
        assert(members_fit(tail, h)) by {
            assert forall|i: int| 0 <= i < tail.len() implies plain(#[trigger] tail[i].0) && standalone(
                encode_utf8(tail[i].1),
            ) by {
                assert(tail[i] == ms[i + 1]);
            }
            assert forall|i: int| 0 <= i < tail.len() implies fits_alone(encode_utf8(#[trigger] tail[i].1), h) by {
                assert(tail[i] == ms[i + 1]);
            }
            assert forall|i: int, i2: int| 0 <= i < i2 < tail.len() implies #[trigger] tail[i].0 != #[trigger] tail[i2].0 by {
                assert(tail[i] == ms[i + 1]);
                assert(tail[i2] == ms[i2 + 1]);
            }
        }
        let keys2 = keys.push(q);
        assert forall|i: int| 0 <= i < tail.len() implies !keys2.contains(encode_utf8(quoted(#[trigger] tail[i].0))) by {
            assert(tail[i] == ms[i + 1]);
            assert(ms[0].0 != ms[i + 1].0);
            assert(plain(ms[i + 1].0));
            lemma_key_bytes_differ(k0, tail[i].0);
            assert(!keys.contains(encode_utf8(quoted(ms[i + 1].0))));
            if keys2.contains(encode_utf8(quoted(tail[i].0))) {
                let w = choose|w: int| 0 <= w < keys2.len() && keys2[w] == encode_utf8(quoted(tail[i].0));
                if w < keys.len() {
                    assert(keys[w] == keys2[w]);
                }
            }
        }
        let j2 = e + 1;
        assert(j2 + tb.len() == j + total.len());
        lemma_members_fit(b, j2, tail, d, mx, u, keys2, h);
        lemma_first_key(b, j2, tail);
        assert(!is_ws(b[j2]));
        assert(ws_end(b, e + 1) == j2);
        assert(fits_obj_member(b, e, d, mx, u, keys2));
    }
}

/// An object whose members keep the limits `h` levels deep keeps them one
/// level more.
pub proof fn lemma_object_fits(ms: Seq<(Seq<char>, Seq<char>)>, h: int)
    requires
        members_fit(ms, h),
        h >= 0,
    ensures
        fits_alone(encode_utf8(obj_chars(ms)), h + 1),
        encode_utf8(obj_chars(ms)).len() > 0,
        encode_utf8(obj_chars(ms))[0] == 123u8,
{
    let open = encode_utf8(seq!['{']);
    let close = encode_utf8(seq!['}']);
    let body = encode_utf8(members_join(ms));
    lemma_encode_ascii_char_seq('{');
    lemma_encode_ascii_char_seq('}');
    lemma_encode_concat(seq!['{'], members_join(ms));
    lemma_encode_concat(seq!['{'] + members_join(ms), seq!['}']);
    let v = encode_utf8(obj_chars(ms));
    assert(v == open + body + close);
    assert forall|b: Seq<u8>, p: int, d: int, mx: int, u: bool|
        placed(b, p, v) && 0 <= d && d + h + 1 <= mx implies #[trigger] fits_value(b, p, d, mx, u) by {
        lemma_split(b, p, open + body, close);
        lemma_split(b, p, open, body);
        assert(b[p] == b.subrange(p, p + 1)[0]);
        assert(b[p] == 123u8);
        let j = p + 1;
        let last = j + body.len();
        assert(b[last] == b.subrange(last, last + 1)[0]);
        assert(b[last] == 125u8);
        if ms.len() == 0 {
            assert(members_join(ms) =~= Seq::<char>::empty());
            assert(body =~= Seq::<u8>::empty()) by {
                assert(encode_utf8(Seq::<char>::empty()) =~= Seq::<u8>::empty());
            }
            assert(ws_end(b, j) == j);
            assert(fits_obj_open(b, j, d + 1, mx, u));
        } else {
            lemma_members_fit(b, j, ms, d + 1, mx, u, Seq::empty(), h);
            lemma_first_key(b, j, ms);
            assert(!is_ws(b[j]));
            assert(ws_end(b, j) == j);
            assert(fits_obj_open(b, j, d + 1, mx, u));
        }
    }
}

/// Values followed by `]`, at depth `d`, keep the limits.
proof fn lemma_elems_fit(b: Seq<u8>, j: int, vs: Seq<Seq<char>>, d: int, mx: int, u: bool, h: int)
    requires
        vs.len() >= 1,
        elems_fit(vs, h),
        0 <= d,
        d + h <= mx,
        0 <= j,
        j + encode_utf8(elems_join(vs)).len() + 1 <= b.len(),
        b.subrange(j, j + encode_utf8(elems_join(vs)).len()) == encode_utf8(elems_join(vs)),
        b[j + encode_utf8(elems_join(vs)).len()] == 93u8,
    ensures
        fits_elements(b, j, d, mx, u),
        value_at(b, j) is Some,
    decreases vs.len(),
{
    let v0 = vs[0];
    let bv = encode_utf8(v0);
    assert(standalone(bv) && fits_alone(bv, h));
    let total = encode_utf8(elems_join(vs));
    let rest_chars = if vs.len() == 1 { Seq::<char>::empty() } else { seq![','] + elems_join(vs.drop_first()) };
    assert(elems_join(vs) == v0 + rest_chars) by {
        if vs.len() == 1 {
            assert(v0 + rest_chars =~= v0);
        }
    }
    lemma_encode_concat(v0, rest_chars);
    let rest = encode_utf8(rest_chars);
    lemma_split(b, j, bv, rest);
    let e = j + bv.len();
    if vs.len() == 1 {
        assert(rest =~= Seq::<u8>::empty()) by {
            assert(encode_utf8(Seq::<char>::empty()) =~= Seq::<u8>::empty());
        }
        assert(is_delim(b[e]));
        assert(placed(b, j, bv));
        assert(fits_value(b, j, d, mx, u));
        assert(value_at(b, j) == Some(e));
        assert(ws_end(b, e) == e);
        assert(fits_arr_member(b, e, d, mx, u));
    } else {
        let tail = vs.drop_first();
        let comma = encode_utf8(seq![',']);
        lemma_encode_ascii_char_seq(',');
        lemma_encode_concat(seq![','], elems_join(tail));
        let tb = encode_utf8(elems_join(tail));
        lemma_split(b, e, comma, tb);
        assert(b[e] == b.subrange(e, e + 1)[0]);
        assert(b[e] == 44u8);
        assert(placed(b, j, bv));
        assert(fits_value(b, j, d, mx, u));
        assert(value_at(b, j) == Some(e));
        assert(ws_end(b, e) == e);
        assert(elems_fit(tail, h)) by {
            assert forall|i: int| 0 <= i < tail.len() implies standalone(encode_utf8(#[trigger] tail[i])) by {
                assert(tail[i] == vs[i + 1]);
            }
            assert forall|i: int| 0 <= i < tail.len() implies fits_alone(encode_utf8(#[trigger] tail[i]), h) by {
                assert(tail[i] == vs[i + 1]);
            }
        }
        let j2 = e + 1;
        lemma_elems_fit(b, j2, tail, d, mx, u, h);
        crate::report_law::lemma_elems_starts(b, j2, tail);
        assert(ws_end(b, e + 1) == j2);
        assert(fits_arr_member(b, e, d, mx, u));
    }
}

/// An array whose values keep the limits `h` levels deep keeps them one
/// level more.
pub proof fn lemma_array_fits(vs: Seq<Seq<char>>, h: int)
    requires
        elems_fit(vs, h),
        h >= 0,
    ensures
        fits_alone(encode_utf8(arr_chars(vs)), h + 1),
{
    let open = encode_utf8(seq!['[']);
    let close = encode_utf8(seq![']']);
    let body = encode_utf8(elems_join(vs));
    lemma_encode_ascii_char_seq('[');
    lemma_encode_ascii_char_seq(']');
    lemma_encode_concat(seq!['['], elems_join(vs));
    lemma_encode_concat(seq!['['] + elems_join(vs), seq![']']);
    let v = encode_utf8(arr_chars(vs));
    assert(v == open + body + close);
    assert forall|b: Seq<u8>, p: int, d: int, mx: int, u: bool|
        placed(b, p, v) && 0 <= d && d + h + 1 <= mx implies #[trigger] fits_value(b, p, d, mx, u) by {
        lemma_split(b, p, open + body, close);
        lemma_split(b, p, open, body);
        assert(b[p] == b.subrange(p, p + 1)[0]);
        assert(b[p] == 91u8);
        let j = p + 1;
        let last = j + body.len();
        assert(b[last] == b.subrange(last, last + 1)[0]);
        assert(b[last] == 93u8);
        if vs.len() == 0 {
            assert(elems_join(vs) =~= Seq::<char>::empty());
            assert(body =~= Seq::<u8>::empty()) by {
                assert(encode_utf8(Seq::<char>::empty()) =~= Seq::<u8>::empty());
            }
            assert(ws_end(b, j) == j);
            assert(fits_arr_open(b, j, d + 1, mx, u));
        } else {
            lemma_elems_fit(b, j, vs, d + 1, mx, u, h);
            crate::report_law::lemma_elems_starts(b, j, vs);
            assert(ws_end(b, j) == j);
            assert(fits_arr_open(b, j, d + 1, mx, u));
        }
    }
}

/// The keys of a diagnostic object, in the order the report writes them.
pub open spec fn diag_keys() -> Seq<Seq<char>> {
    seq!["code"@, "message"@, "severity"@, "start"@, "end"@, "line"@, "column"@, "hint"@, "related"@]
}

proof fn lemma_diag_keys_distinct()
    ensures
        forall|i: int, j: int| 0 <= i < j < 9 ==> #[trigger] diag_keys()[i] != #[trigger] diag_keys()[j],
{
    reveal_strlit("code");
    reveal_strlit("message");
    reveal_strlit("severity");
    reveal_strlit("start");
    reveal_strlit("end");
    reveal_strlit("line");
    reveal_strlit("column");
    reveal_strlit("hint");
    reveal_strlit("related");
    let ks = diag_keys();
    assert forall|i: int, j: int| 0 <= i < j < 9 implies #[trigger] ks[i] != #[trigger] ks[j] by {
        if i == 0 {
            if j == 1 {
                assert(ks[0].len() != ks[1].len());
            } else if j == 2 {
                assert(ks[0].len() != ks[2].len());
            } else if j == 3 {
                assert(ks[0].len() != ks[3].len());
            } else if j == 4 {
                assert(ks[0].len() != ks[4].len());
            } else if j == 5 {
                assert(ks[0][0] != ks[5][0]);
            } else if j == 6 {
                assert(ks[0].len() != ks[6].len());
            } else if j == 7 {
                assert(ks[0][0] != ks[7][0]);
            } else if j == 8 {
                assert(ks[0].len() != ks[8].len());
            }
        } else if i == 1 {
            if j == 2 {
                assert(ks[1].len() != ks[2].len());
            } else if j == 3 {
                assert(ks[1].len() != ks[3].len());
            } else if j == 4 {
                assert(ks[1].len() != ks[4].len());
            } else if j == 5 {
                assert(ks[1].len() != ks[5].len());
            } else if j == 6 {
                assert(ks[1].len() != ks[6].len());
            } else if j == 7 {
                assert(ks[1].len() != ks[7].len());
            } else if j == 8 {
                assert(ks[1][0] != ks[8][0]);
            }
        } else if i == 2 {
            if j == 3 {
                assert(ks[2].len() != ks[3].len());
            } else if j == 4 {
                assert(ks[2].len() != ks[4].len());
            } else if j == 5 {
                assert(ks[2].len() != ks[5].len());
            } else if j == 6 {
                assert(ks[2].len() != ks[6].len());
            } else if j == 7 {
                assert(ks[2].len() != ks[7].len());
            } else if j == 8 {
                assert(ks[2].len() != ks[8].len());
            }
        } else if i == 3 {
            if j == 4 {
                assert(ks[3].len() != ks[4].len());
            } else if j == 5 {
                assert(ks[3].len() != ks[5].len());
            } else if j == 6 {
                assert(ks[3].len() != ks[6].len());
            } else if j == 7 {
                assert(ks[3].len() != ks[7].len());
            } else if j == 8 {
                assert(ks[3].len() != ks[8].len());
            }
        } else if i == 4 {
            if j == 5 {
                assert(ks[4].len() != ks[5].len());
            } else if j == 6 {
                assert(ks[4].len() != ks[6].len());
            } else if j == 7 {
                assert(ks[4].len() != ks[7].len());
            } else if j == 8 {
                assert(ks[4].len() != ks[8].len());
            }
        } else if i == 5 {
            if j == 6 {
                assert(ks[5].len() != ks[6].len());
            } else if j == 7 {
                assert(ks[5][0] != ks[7][0]);
            } else if j == 8 {
                assert(ks[5].len() != ks[8].len());
            }
        } else if i == 6 {
            if j == 7 {
                assert(ks[6].len() != ks[7].len());
            } else if j == 8 {
                assert(ks[6].len() != ks[8].len());
            }
        } else if i == 7 {
            if j == 8 {
                assert(ks[7].len() != ks[8].len());
            }
        } else if i == 8 {
        }
    }
}

pub proof fn lemma_string_fits(t: Seq<char>)
    ensures
        fits_alone(encode_utf8(quoted(t)), 1),
{
    let v = encode_utf8(quoted(t));
    assert(v.subrange(0, v.len() as int) =~= v);
    lemma_quoted_reads(v, 0, t);
    lemma_scalar_fits(v);
}

pub proof fn lemma_number_fits(n: nat)
    ensures
        fits_alone(encode_utf8(decimal(n)), 1),
{
    let dg = decimal(n);
    lemma_decimal_digits(n);
    lemma_encode_ascii_seq(dg);
    let v = encode_utf8(dg);
    assert(v[0] == (dg[0] as u32) as u8);
    lemma_scalar_fits(v);
}

/// How deep a diagnostic object nests: a level for the object, one for its
/// values, and one more for a related span.
pub open spec fn diag_height(d: DiagModel) -> int {
    if d.related is Some {
        3
    } else {
        2
    }
}

proof fn lemma_related_fits(src: Seq<u8>, r: Span)
    ensures
        fits_alone(encode_utf8(obj_chars(related_members(src, r))), 2),
{
    let (l, c) = line_col_of(src, r.start as int);
    let ms = related_members(src, r);
    lemma_related_members_ok(src, r);
    lemma_diag_keys_distinct();
    let ks = diag_keys();
    assert forall|i: int, j: int| 0 <= i < j < ms.len() implies #[trigger] ms[i].0 != #[trigger] ms[j].0 by {
        assert(ms[i].0 == ks[i + 3]);
        assert(ms[j].0 == ks[j + 3]);
    }
    lemma_number_fits(r.start as nat);
    lemma_number_fits(r.end as nat);
    lemma_number_fits(l as nat);
    lemma_number_fits(c as nat);
    assert forall|i: int| 0 <= i < ms.len() implies fits_alone(encode_utf8(#[trigger] ms[i].1), 1) by {
        if i == 0 {
        } else if i == 1 {
        } else if i == 2 {
        } else {
        }
    }
    lemma_object_fits(ms, 1);
}

/// A diagnostic object keeps the limits as deep as it nests, when its code
/// needs no escaping.
pub proof fn lemma_diag_fits(src: Seq<u8>, d: DiagModel)
    requires
        plain(d.code),
    ensures
        fits_alone(encode_utf8(diag_json(src, d)), diag_height(d)),
{
    let (l, c) = line_col_of(src, d.span.start as int);
    let hm = head_members(src, d);
    let tm = tail_members(src, d);
    let ms = diag_members(src, d);
    let h = diag_height(d) - 1;
    lemma_diag_object(src, d);
    lemma_diag_members_ok(src, d);
    lemma_diag_keys_distinct();
    let ks = diag_keys();
    // each key is the key of the same name in the list, in the same order
    let f = |i: int|
        if i < 7 {
            i
        } else if d.hint is Some && i == 7 {
            7int
        } else {
            8int
        };
    assert forall|i: int| 0 <= i < ms.len() implies #[trigger] ms[i].0 == ks[f(i)] by {
        if i < 7 {
            assert(ms[i] == hm[i]);
        } else {
            assert(ms[i] == tm[i - 7]);
        }
    }
    assert forall|i: int, j: int| 0 <= i < j < ms.len() implies #[trigger] ms[i].0 != #[trigger] ms[j].0 by {
        assert(ms[i].0 == ks[f(i)]);
        assert(ms[j].0 == ks[f(j)]);
        assert(f(i) < f(j));
    }
    lemma_string_fits(d.code);
    lemma_string_fits(d.message);
    lemma_string_fits(severity_name(d.severity));
    lemma_number_fits(d.span.start as nat);
    lemma_number_fits(d.span.end as nat);
    lemma_number_fits(l as nat);
    lemma_number_fits(c as nat);
    if let Some(hn) = d.hint {
        lemma_string_fits(hn);
    }
    if let Some(r) = d.related {
        lemma_related_fits(src, r);
    }
    assert forall|i: int| 0 <= i < ms.len() implies fits_alone(encode_utf8(#[trigger] ms[i].1), h) by {
        if i < 7 {
            assert(ms[i] == hm[i]);
            if i == 0 {
            } else if i == 1 {
            } else if i == 2 {
            } else if i == 3 {
            } else if i == 4 {
            } else if i == 5 {
            } else {
            }
            lemma_fits_higher(encode_utf8(ms[i].1), 1, h);
        } else {
            assert(ms[i] == tm[i - 7]);
            match (d.hint, d.related) {
                (Some(hn), Some(r)) => {
                    if i == 7 {
                        lemma_fits_higher(encode_utf8(quoted(hn)), 1, h);
                    }
                },
                (Some(hn), None) => {},
                (None, Some(r)) => {},
                (None, None) => {},
            }
        }
    }
    lemma_object_fits(ms, h);
}

/// How deep the report nests: the object, the array, and the diagnostics.
pub open spec fn report_height(ds: Seq<DiagModel>) -> int {
    if ds.len() == 0 {
        2
    } else if exists|i: int| 0 <= i < ds.len() && (#[trigger] ds[i]).related is Some {
        5
    } else {
        4
    }
}

proof fn lemma_report_fits(src: Seq<u8>, ds: Seq<DiagModel>, ok: bool)
    requires
        plain_codes(ds),
    ensures
        fits_alone(encode_utf8(report_spec(src, ds, ok)), report_height(ds)),
        encode_utf8(report_spec(src, ds, ok)).len() > 0,
        encode_utf8(report_spec(src, ds, ok))[0] == 123u8,
{
    let objs = diag_objects(src, ds);
    let rh = report_height(ds);
    let eh = if ds.len() == 0 { 0 } else { rh - 2 };
    assert forall|i: int| 0 <= i < objs.len() implies standalone(encode_utf8(#[trigger] objs[i])) && fits_alone(
        encode_utf8(objs[i]),
        eh,
    ) by {
        assert(plain(ds[i].code));
        lemma_diag_object(src, ds[i]);
        lemma_diag_members_ok(src, ds[i]);
        lemma_standalone_object(diag_members(src, ds[i]));
        lemma_diag_fits(src, ds[i]);
        if ds[i].related is Some {
            assert(rh == 5);
        }
        lemma_fits_higher(encode_utf8(objs[i]), diag_height(ds[i]), eh);
    }
    lemma_array_fits(objs, eh);
    lemma_standalone_array(objs);
    lemma_verdict_bytes(ok);
    lemma_standalone_word(verdict(ok), encode_utf8(verdict(ok)));
    lemma_scalar_fits(encode_utf8(verdict(ok)));
    lemma_fits_higher(encode_utf8(verdict(ok)), 1, rh - 1);
    let ms = report_members(src, ds, ok);
    lemma_key_literals();
    assert(members_ok(ms)) by {
        assert forall|i: int| 0 <= i < ms.len() implies plain(#[trigger] ms[i].0) && standalone(encode_utf8(ms[i].1)) by {
            if i == 0 {
            } else {
            }
        }
    }
    assert(keys_distinct(ms)) by {
        reveal_strlit("ok");
        reveal_strlit("diagnostics");
        assert(ms[0].0.len() != ms[1].0.len());
    }
    assert forall|i: int| 0 <= i < ms.len() implies fits_alone(encode_utf8(#[trigger] ms[i].1), rh - 1) by {
        if i == 0 {
        } else {
        }
    }
    lemma_object_fits(ms, rh - 1);
    lemma_report_object(src, ds, ok);
}

/// The validator accepts the report in strict mode, under any duplicate-key
/// policy, when its depth limit leaves room for how deep the report nests and
/// the diagnostic codes need no escaping.
pub proof fn law_report_is_accepted(src: Seq<u8>, ds: Seq<DiagModel>, ok: bool, o: ParseOptions)
    requires
        plain_codes(ds),
        o.mode == Mode::Strict,
        report_height(ds) <= o.max_depth,
        encode_utf8(report_spec(src, ds, ok)).len() <= isize::MAX,
    ensures
        no_errors(spec_validate(encode_utf8(report_spec(src, ds, ok)), o)),
{
    let b = encode_utf8(report_spec(src, ds, ok));
    law_report_is_json(src, ds, ok);
    lemma_report_fits(src, ds, ok);
    assert(b.subrange(0, b.len() as int) =~= b);
    assert(placed(b, 0, b));
    assert(fits_value(b, 0, 0, o.max_depth as int, uniq(o)));
    assert(ws_end(b, 0) == 0);
    assert(fits_text(b, o.max_depth as int, uniq(o)));
    law_json_text_is_accepted(b, o);
}

} // verus!
