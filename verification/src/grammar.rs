//! JSON text as RFC 8259 defines it, read over bytes: each function gives
//! where the production that starts at an offset ends, if it is there.
use vstd::prelude::*;
use vstd::utf8::*;
use crate::lex_spec::{digits_end, hex4, is_digit, is_ws, lemma_run_end, run_end};

verus! {

/// The first offset at or after `i` that is not whitespace.
pub open spec fn ws_end(src: Seq<u8>, i: int) -> int
    decreases src.len() - i,
{
    if 0 <= i < src.len() && is_ws(src[i]) {
        ws_end(src, i + 1)
    } else {
        i
    }
}

pub proof fn lemma_ws_end(src: Seq<u8>, i: int)
    ensures
        i <= ws_end(src, i),
        0 <= i <= src.len() ==> ws_end(src, i) <= src.len(),
    decreases src.len() - i,
{
    if 0 <= i < src.len() && is_ws(src[i]) {
        lemma_ws_end(src, i + 1);
    }
}

/// The integer part of a number: `0`, or digits that do not start with `0`.
pub open spec fn int_end(src: Seq<u8>, a: int) -> Option<int> {
    if 0 <= a < src.len() && is_digit(src[a]) {
        if src[a] == 48u8 {
            Some(a + 1)
        } else {
            Some(digits_end(src, a))
        }
    } else {
        None
    }
}

/// An optional fraction: `.` and at least one digit.
pub open spec fn frac_end(src: Seq<u8>, b: int) -> Option<int> {
    if 0 <= b < src.len() && src[b] == 46u8 {
        let c = digits_end(src, b + 1);
        if c > b + 1 {
            Some(c)
        } else {
            None
        }
    } else {
        Some(b)
    }
}

/// An optional exponent: `e` or `E`, an optional sign and at least one digit.
pub open spec fn exp_end(src: Seq<u8>, c: int) -> Option<int> {
    if 0 <= c < src.len() && (src[c] == 101u8 || src[c] == 69u8) {
        let q = if c + 1 < src.len() && (src[c + 1] == 43u8 || src[c + 1] == 45u8) { c + 2 } else { c + 1 };
        let d = digits_end(src, q);
        if d > q {
            Some(d)
        } else {
            None
        }
    } else {
        Some(c)
    }
}

/// A number: an optional minus, the integer part, fraction and exponent.
pub open spec fn number_end(src: Seq<u8>, i: int) -> Option<int> {
    let a = if 0 <= i < src.len() && src[i] == 45u8 { i + 1 } else { i };
    match int_end(src, a) {
        Some(b) => match frac_end(src, b) {
            Some(c) => exp_end(src, c),
            None => None,
        },
        None => None,
    }
}

/// A byte that may follow a backslash on its own: `"`, `\`, `/`, `b`, `f`,
/// `n`, `r` and `t`.
pub open spec fn is_short_escape(b: u8) -> bool {
    b == 34u8 || b == 92u8 || b == 47u8 || b == 98u8 || b == 102u8 || b == 110u8 || b == 114u8 || b == 116u8
}

/// The rest of a string from `j`, up to and past its closing quote: escapes,
/// and runs of bytes other than quote, backslash and control bytes that are
/// well-formed UTF-8.
pub open spec fn string_body_end(src: Seq<u8>, j: int) -> Option<int>
    decreases src.len() - j,
{
    if j < 0 || j >= src.len() {
        None
    } else if src[j] == 34u8 {
        Some(j + 1)
    } else if src[j] == 92u8 {
        if j + 1 < src.len() && is_short_escape(src[j + 1]) {
            string_body_end(src, j + 2)
        } else if j + 1 < src.len() && src[j + 1] == 117u8 && hex4(src, j + 2) is Some {
            string_body_end(src, j + 6)
        } else {
            None
        }
    } else if src[j] < 32u8 {
        None
    } else {
        let e = run_end(src, j, 34u8);
        proof { lemma_run_end(src, j, 34u8); }
        if j < e && valid_utf8(src.subrange(j, e)) {
            string_body_end(src, e)
        } else {
            None
        }
    }
}

/// A string: a quote, then its body.
pub open spec fn string_end(src: Seq<u8>, i: int) -> Option<int> {
    if 0 <= i < src.len() && src[i] == 34u8 {
        string_body_end(src, i + 1)
    } else {
        None
    }
}

/// The bytes of `word` stand at `i`.
pub open spec fn literal_at(src: Seq<u8>, i: int, word: Seq<u8>) -> bool {
    0 <= i && i + word.len() <= src.len() && src.subrange(i, i + word.len()) == word
}

pub open spec fn true_bytes() -> Seq<u8> {
    seq![116u8, 114u8, 117u8, 101u8]
}

pub open spec fn false_bytes() -> Seq<u8> {
    seq![102u8, 97u8, 108u8, 115u8, 101u8]
}

pub open spec fn null_bytes() -> Seq<u8> {
    seq![110u8, 117u8, 108u8, 108u8]
}

/// A value that starts at `i`.
pub open spec fn value_at(src: Seq<u8>, i: int) -> Option<int>
    decreases src.len() - i, 0int,
{
    if i < 0 || i >= src.len() {
        None
    } else {
        let b = src[i];
        proof { lemma_ws_end(src, i + 1); }
        if b == 123u8 {
            obj_after_open(src, ws_end(src, i + 1))
        } else if b == 91u8 {
            arr_after_open(src, ws_end(src, i + 1))
        } else if b == 34u8 {
            string_end(src, i)
        } else if b == 45u8 || is_digit(b) {
            number_end(src, i)
        } else if literal_at(src, i, true_bytes()) {
            Some(i + 4)
        } else if literal_at(src, i, false_bytes()) {
            Some(i + 5)
        } else if literal_at(src, i, null_bytes()) {
            Some(i + 4)
        } else {
            None
        }
    }
}

/// The inside of an object from its first token after `{`: `}`, or members.
pub open spec fn obj_after_open(src: Seq<u8>, j: int) -> Option<int>
    decreases src.len() - j, 2int,
{
    if 0 <= j < src.len() && src[j] == 125u8 {
        Some(j + 1)
    } else {
        members_at(src, j)
    }
}

/// A member (a string, a colon, a value) at `j`, then what follows it.
pub open spec fn members_at(src: Seq<u8>, j: int) -> Option<int>
    decreases src.len() - j, 1int,
{
    match string_end(src, j) {
        Some(k) => {
            let c = ws_end(src, k);
            if j < k && k <= c && 0 <= c < src.len() && src[c] == 58u8 {
                let v = ws_end(src, c + 1);
                proof { lemma_ws_end(src, c + 1); }
                match value_at(src, v) {
                    Some(e) => {
                        proof { lemma_ws_end(src, e); }
                        if v < e <= src.len() {
                            obj_after_member(src, ws_end(src, e))
                        } else {
                            None
                        }
                    },
                    None => None,
                }
            } else {
                None
            }
        },
        None => None,
    }
}

/// After a member: `}` ends the object, `,` leads to the next member.
pub open spec fn obj_after_member(src: Seq<u8>, f: int) -> Option<int>
    decreases src.len() - f, 2int,
{
    if 0 <= f < src.len() && src[f] == 125u8 {
        Some(f + 1)
    } else if 0 <= f < src.len() && src[f] == 44u8 {
        proof { lemma_ws_end(src, f + 1); }
        members_at(src, ws_end(src, f + 1))
    } else {
        None
    }
}

/// The inside of an array from its first token after `[`: `]`, or elements.
pub open spec fn arr_after_open(src: Seq<u8>, j: int) -> Option<int>
    decreases src.len() - j, 2int,
{
    if 0 <= j < src.len() && src[j] == 93u8 {
        Some(j + 1)
    } else {
        elements_at(src, j)
    }
}

/// An element at `j`, then what follows it.
pub open spec fn elements_at(src: Seq<u8>, j: int) -> Option<int>
    decreases src.len() - j, 1int,
{
    match value_at(src, j) {
        Some(e) => {
            proof { lemma_ws_end(src, e); }
            if j < e <= src.len() {
                arr_after_member(src, ws_end(src, e))
            } else {
                None
            }
        },
        None => None,
    }
}

/// After an element: `]` ends the array, `,` leads to the next element.
pub open spec fn arr_after_member(src: Seq<u8>, f: int) -> Option<int>
    decreases src.len() - f, 2int,
{
    if 0 <= f < src.len() && src[f] == 93u8 {
        Some(f + 1)
    } else if 0 <= f < src.len() && src[f] == 44u8 {
        proof { lemma_ws_end(src, f + 1); }
        elements_at(src, ws_end(src, f + 1))
    } else {
        None
    }
}

/// A JSON text: one value, with only whitespace around it.
pub open spec fn is_json_text(src: Seq<u8>) -> bool {
    match value_at(src, ws_end(src, 0)) {
        Some(e) => ws_end(src, e) == src.len(),
        None => false,
    }
}

pub proof fn lemma_string_body_end_bound(src: Seq<u8>, j: int)
    ensures
        string_body_end(src, j) matches Some(e) ==> j < e <= src.len(),
    decreases src.len() - j,
{
    if 0 <= j < src.len() && src[j] != 34u8 {
        if src[j] == 92u8 {
            if j + 2 <= src.len() {
                lemma_string_body_end_bound(src, j + 2);
            }
            if j + 6 <= src.len() {
                lemma_string_body_end_bound(src, j + 6);
            }
        } else if src[j] >= 32u8 {
            lemma_run_end(src, j, 34u8);
            lemma_string_body_end_bound(src, run_end(src, j, 34u8));
        }
    }
}

pub proof fn lemma_number_end_bound(src: Seq<u8>, i: int)
    ensures
        number_end(src, i) matches Some(e) ==> i < e <= src.len(),
{
    let a = if 0 <= i < src.len() && src[i] == 45u8 { i + 1 } else { i };
    if 0 <= a < src.len() {
        crate::lex_spec::lemma_digits_end(src, a);
        let b = if src[a] == 48u8 { a + 1 } else { digits_end(src, a) };
        if 0 <= b < src.len() {
            crate::lex_spec::lemma_digits_end(src, b + 1);
            let c = if src[b] == 46u8 { digits_end(src, b + 1) } else { b };
            if 0 <= c < src.len() {
                let q = if c + 1 < src.len() && (src[c + 1] == 43u8 || src[c + 1] == 45u8) { c + 2 } else { c + 1 };
                crate::lex_spec::lemma_digits_end(src, q);
            }
        }
    }
}

/// A value, and each part of an object or array, ends after it starts and
/// within the input.
pub proof fn lemma_value_at_bound(src: Seq<u8>, i: int)
    ensures
        value_at(src, i) matches Some(e) ==> i < e <= src.len(),
    decreases src.len() - i, 0int,
{
    if 0 <= i < src.len() {
        lemma_ws_end(src, i + 1);
        let b = src[i];
        if b == 123u8 {
            lemma_obj_after_open_bound(src, ws_end(src, i + 1));
        } else if b == 91u8 {
            lemma_arr_after_open_bound(src, ws_end(src, i + 1));
        } else if b == 34u8 {
            lemma_string_body_end_bound(src, i + 1);
        } else if b == 45u8 || is_digit(b) {
            lemma_number_end_bound(src, i);
        }
    }
}

pub proof fn lemma_obj_after_open_bound(src: Seq<u8>, j: int)
    ensures
        obj_after_open(src, j) matches Some(e) ==> j < e <= src.len(),
    decreases src.len() - j, 2int,
{
    if !(0 <= j < src.len() && src[j] == 125u8) {
        lemma_members_at_bound(src, j);
    }
}

pub proof fn lemma_members_at_bound(src: Seq<u8>, j: int)
    ensures
        members_at(src, j) matches Some(e) ==> j < e <= src.len(),
    decreases src.len() - j, 1int,
{
    match string_end(src, j) {
        Some(k) => {
            let c = ws_end(src, k);
            if j < k && k <= c && 0 <= c < src.len() && src[c] == 58u8 {
                let v = ws_end(src, c + 1);
                lemma_ws_end(src, c + 1);
                lemma_value_at_bound(src, v);
                match value_at(src, v) {
                    Some(e) => {
                        lemma_ws_end(src, e);
                        if v < e <= src.len() {
                            lemma_obj_after_member_bound(src, ws_end(src, e));
                        }
                    },
                    None => {},
                }
            }
        },
        None => {},
    }
}

pub proof fn lemma_obj_after_member_bound(src: Seq<u8>, f: int)
    ensures
        obj_after_member(src, f) matches Some(e) ==> f < e <= src.len(),
    decreases src.len() - f, 2int,
{
    if 0 <= f < src.len() && src[f] == 44u8 {
        lemma_ws_end(src, f + 1);
        lemma_members_at_bound(src, ws_end(src, f + 1));
    }
}

pub proof fn lemma_arr_after_open_bound(src: Seq<u8>, j: int)
    ensures
        arr_after_open(src, j) matches Some(e) ==> j < e <= src.len(),
    decreases src.len() - j, 2int,
{
    if !(0 <= j < src.len() && src[j] == 93u8) {
        lemma_elements_at_bound(src, j);
    }
}

pub proof fn lemma_elements_at_bound(src: Seq<u8>, j: int)
    ensures
        elements_at(src, j) matches Some(e) ==> j < e <= src.len(),
    decreases src.len() - j, 1int,
{
    lemma_value_at_bound(src, j);
    match value_at(src, j) {
        Some(e) => {
            lemma_ws_end(src, e);
            if j < e <= src.len() {
                lemma_arr_after_member_bound(src, ws_end(src, e));
            }
        },
        None => {},
    }
}

pub proof fn lemma_arr_after_member_bound(src: Seq<u8>, f: int)
    ensures
        arr_after_member(src, f) matches Some(e) ==> f < e <= src.len(),
    decreases src.len() - f, 2int,
{
    if 0 <= f < src.len() && src[f] == 44u8 {
        lemma_ws_end(src, f + 1);
        lemma_elements_at_bound(src, ws_end(src, f + 1));
    }
}

// ------------------------------------------------------------ limits

/// What may follow a literal or a number: whitespace, `,`, `:`, `]`, `}`, or
/// the end of the input.
pub open spec fn follows_ok(src: Seq<u8>, e: int) -> bool {
    e >= src.len() || (0 <= e && (is_ws(src[e]) || src[e] == 44u8 || src[e] == 58u8 || src[e] == 93u8
        || src[e] == 125u8))
}

/// The value at `i`, at nesting depth `d`, and every value nested in it lie
/// at a depth below `mx`; when `uniq`, no object repeats a key.
pub open spec fn fits_value(src: Seq<u8>, i: int, d: int, mx: int, uniq: bool) -> bool
    decreases src.len() - i, 0int,
{
    &&& d < mx
    &&& if 0 <= i < src.len() && src[i] == 123u8 {
        proof { lemma_ws_end(src, i + 1); }
        fits_obj_open(src, ws_end(src, i + 1), d + 1, mx, uniq)
    } else if 0 <= i < src.len() && src[i] == 91u8 {
        proof { lemma_ws_end(src, i + 1); }
        fits_arr_open(src, ws_end(src, i + 1), d + 1, mx, uniq)
    } else {
        true
    }
}

pub open spec fn fits_obj_open(src: Seq<u8>, j: int, d: int, mx: int, uniq: bool) -> bool
    decreases src.len() - j, 2int,
{
    if 0 <= j < src.len() && src[j] == 125u8 {
        true
    } else {
        fits_members(src, j, d, mx, uniq, Seq::empty())
    }
}

/// The members from `j` on, after the keys `keys` of the same object.
pub open spec fn fits_members(src: Seq<u8>, j: int, d: int, mx: int, uniq: bool, keys: Seq<Seq<u8>>) -> bool
    decreases src.len() - j, 1int,
{
    match string_end(src, j) {
        Some(k) => {
            let c = ws_end(src, k);
            if j < k && k <= c && 0 <= c < src.len() && src[c] == 58u8 {
                let key = src.subrange(j, k);
                let v = ws_end(src, c + 1);
                proof { lemma_ws_end(src, c + 1); }
                &&& !(uniq && keys.contains(key))
                &&& fits_value(src, v, d, mx, uniq)
                &&& match value_at(src, v) {
                    Some(e) => {
                        proof { lemma_ws_end(src, e); }
                        if v < e <= src.len() {
                            fits_obj_member(src, ws_end(src, e), d, mx, uniq, keys.push(key))
                        } else {
                            true
                        }
                    },
                    None => true,
                }
            } else {
                true
            }
        },
        None => true,
    }
}

pub open spec fn fits_obj_member(src: Seq<u8>, f: int, d: int, mx: int, uniq: bool, keys: Seq<Seq<u8>>) -> bool
    decreases src.len() - f, 2int,
{
    if 0 <= f < src.len() && src[f] == 44u8 {
        proof { lemma_ws_end(src, f + 1); }
        fits_members(src, ws_end(src, f + 1), d, mx, uniq, keys)
    } else {
        true
    }
}

pub open spec fn fits_arr_open(src: Seq<u8>, j: int, d: int, mx: int, uniq: bool) -> bool
    decreases src.len() - j, 2int,
{
    if 0 <= j < src.len() && src[j] == 93u8 {
        true
    } else {
        fits_elements(src, j, d, mx, uniq)
    }
}

pub open spec fn fits_elements(src: Seq<u8>, j: int, d: int, mx: int, uniq: bool) -> bool
    decreases src.len() - j, 1int,
{
    &&& fits_value(src, j, d, mx, uniq)
    &&& match value_at(src, j) {
        Some(e) => {
            proof { lemma_ws_end(src, e); }
            if j < e <= src.len() {
                fits_arr_member(src, ws_end(src, e), d, mx, uniq)
            } else {
                true
            }
        },
        None => true,
    }
}

pub open spec fn fits_arr_member(src: Seq<u8>, f: int, d: int, mx: int, uniq: bool) -> bool
    decreases src.len() - f, 2int,
{
    if 0 <= f < src.len() && src[f] == 44u8 {
        proof { lemma_ws_end(src, f + 1); }
        fits_elements(src, ws_end(src, f + 1), d, mx, uniq)
    } else {
        true
    }
}

/// The document nests its values less than `mx` deep, and, when `uniq`, no
/// object repeats a key (compared byte for byte, quotes included).
pub open spec fn fits_text(src: Seq<u8>, mx: int, uniq: bool) -> bool {
    fits_value(src, ws_end(src, 0), 0, mx, uniq)
}

// ------------------------------------------------------------ no NUL bytes

/// No byte of `src` from `i` up to `e` is zero.
pub open spec fn nonzero_between(src: Seq<u8>, i: int, e: int) -> bool {
    &&& 0 <= i
    &&& i < e ==> e <= src.len()
    &&& forall|k: int| i <= k < e ==> #[trigger] src[k] != 0u8
}

proof fn lemma_nonzero_join(src: Seq<u8>, a: int, b: int, c: int)
    requires
        nonzero_between(src, a, b),
        nonzero_between(src, b, c),
        a <= b <= c,
    ensures
        nonzero_between(src, a, c),
{
    assert forall|k: int| a <= k < c implies #[trigger] src[k] != 0u8 by {
        if k < b {
            assert(src[k] != 0u8);
        } else {
            assert(src[k] != 0u8);
        }
    }
}

pub proof fn lemma_ws_nonzero(src: Seq<u8>, a: int)
    requires
        0 <= a,
    ensures
        nonzero_between(src, a, ws_end(src, a)),
    decreases src.len() - a,
{
    if 0 <= a < src.len() && is_ws(src[a]) {
        lemma_ws_nonzero(src, a + 1);
        lemma_ws_end(src, a + 1);
    }
}

proof fn lemma_run_nonzero(src: Seq<u8>, j: int)
    requires
        0 <= j,
    ensures
        nonzero_between(src, j, run_end(src, j, 34u8)),
    decreases src.len() - j,
{
    if 0 <= j < src.len() && !crate::lex_spec::is_run_stop(src[j], 34u8) {
        lemma_run_nonzero(src, j + 1);
        lemma_run_end(src, j + 1, 34u8);
    }
}

proof fn lemma_digits_nonzero(src: Seq<u8>, j: int)
    requires
        0 <= j <= src.len(),
    ensures
        nonzero_between(src, j, digits_end(src, j)),
{
    crate::lex_spec::lemma_digits_end(src, j);
}

proof fn lemma_body_nonzero(src: Seq<u8>, j: int)
    requires
        0 <= j,
    ensures
        string_body_end(src, j) matches Some(e) ==> nonzero_between(src, j, e),
    decreases src.len() - j,
{
    lemma_string_body_end_bound(src, j);
    if 0 <= j < src.len() && src[j] != 34u8 {
        if src[j] == 92u8 {
            if j + 2 <= src.len() {
                lemma_body_nonzero(src, j + 2);
                lemma_string_body_end_bound(src, j + 2);
            }
            if j + 6 <= src.len() {
                lemma_body_nonzero(src, j + 6);
                lemma_string_body_end_bound(src, j + 6);
            }
            if string_body_end(src, j) is Some {
                let e = string_body_end(src, j)->0;
                if j + 1 < src.len() && is_short_escape(src[j + 1]) {
                    lemma_nonzero_join(src, j, j + 2, e);
                } else {
                    assert(hex4(src, j + 2) is Some);
                    assert(nonzero_between(src, j, j + 6)) by {
                        assert forall|k: int| j <= k < j + 6 implies #[trigger] src[k] != 0u8 by {
                            if k >= j + 2 {
                                if crate::lex_spec::hex_val(src[k]) is Some {
                                } else {
                                }
                            }
                        }
                    }
                    lemma_nonzero_join(src, j, j + 6, e);
                }
            }
        } else if src[j] >= 32u8 {
            lemma_run_end(src, j, 34u8);
            let r = run_end(src, j, 34u8);
            lemma_run_nonzero(src, j);
            lemma_body_nonzero(src, r);
            lemma_string_body_end_bound(src, r);
            if string_body_end(src, j) is Some {
                lemma_nonzero_join(src, j, r, string_body_end(src, j)->0);
            }
        }
    }
}

proof fn lemma_number_nonzero(src: Seq<u8>, i: int)
    requires
        0 <= i,
    ensures
        number_end(src, i) matches Some(e) ==> nonzero_between(src, i, e),
{
    lemma_number_end_bound(src, i);
    if number_end(src, i) is Some {
        let a = if 0 <= i < src.len() && src[i] == 45u8 { i + 1 } else { i };
        let b = int_end(src, a)->0;
        let c = frac_end(src, b)->0;
        let e = exp_end(src, c)->0;
        crate::lex_spec::lemma_digits_end(src, a);
        lemma_digits_nonzero(src, a);
        assert(nonzero_between(src, i, b));
        if 0 <= b < src.len() && src[b] == 46u8 {
            lemma_digits_nonzero(src, b + 1);
            crate::lex_spec::lemma_digits_end(src, b + 1);
        }
        assert(nonzero_between(src, b, c));
        if 0 <= c < src.len() && (src[c] == 101u8 || src[c] == 69u8) {
            let q = if c + 1 < src.len() && (src[c + 1] == 43u8 || src[c + 1] == 45u8) { c + 2 } else { c + 1 };
            lemma_digits_nonzero(src, q);
            crate::lex_spec::lemma_digits_end(src, q);
        }
        assert(nonzero_between(src, c, e));
        lemma_nonzero_join(src, i, b, c);
        lemma_nonzero_join(src, i, c, e);
    }
}

/// A value holds no zero byte.
pub proof fn lemma_value_nonzero(src: Seq<u8>, i: int)
    requires
        0 <= i,
    ensures
        value_at(src, i) matches Some(e) ==> nonzero_between(src, i, e),
    decreases src.len() - i, 0int,
{
    lemma_value_at_bound(src, i);
    if 0 <= i < src.len() && value_at(src, i) is Some {
        let e = value_at(src, i)->0;
        let b = src[i];
        lemma_ws_end(src, i + 1);
        lemma_ws_nonzero(src, i + 1);
        let j = ws_end(src, i + 1);
        assert(nonzero_between(src, i, i + 1) || b == 0u8);
        if b == 123u8 {
            lemma_obj_after_open_nonzero(src, j);
            lemma_obj_after_open_bound(src, j);
            lemma_nonzero_join(src, i + 1, j, e);
            lemma_nonzero_join(src, i, i + 1, e);
        } else if b == 91u8 {
            lemma_arr_after_open_nonzero(src, j);
            lemma_arr_after_open_bound(src, j);
            lemma_nonzero_join(src, i + 1, j, e);
            lemma_nonzero_join(src, i, i + 1, e);
        } else if b == 34u8 {
            lemma_body_nonzero(src, i + 1);
        } else if b == 45u8 || is_digit(b) {
            lemma_number_nonzero(src, i);
        } else {
            assert forall|k: int| i <= k < e implies #[trigger] src[k] != 0u8 by {
                if literal_at(src, i, true_bytes()) {
                    assert(src[k] == src.subrange(i, i + 4)[k - i]);
                } else if literal_at(src, i, false_bytes()) {
                    assert(src[k] == src.subrange(i, i + 5)[k - i]);
                } else {
                    assert(src[k] == src.subrange(i, i + 4)[k - i]);
                }
            }
        }
    }
}

proof fn lemma_obj_after_open_nonzero(src: Seq<u8>, j: int)
    requires
        0 <= j,
    ensures
        obj_after_open(src, j) matches Some(e) ==> nonzero_between(src, j, e),
    decreases src.len() - j, 2int,
{
    if !(0 <= j < src.len() && src[j] == 125u8) {
        lemma_members_nonzero(src, j);
    }
}

proof fn lemma_members_nonzero(src: Seq<u8>, j: int)
    requires
        0 <= j,
    ensures
        members_at(src, j) matches Some(e) ==> nonzero_between(src, j, e),
    decreases src.len() - j, 1int,
{
    lemma_members_at_bound(src, j);
    if members_at(src, j) is Some {
        let e = members_at(src, j)->0;
        let k = string_end(src, j)->0;
        let c = ws_end(src, k);
        let v = ws_end(src, c + 1);
        let ev = value_at(src, v)->0;
        let f = ws_end(src, ev);
        lemma_body_nonzero(src, j + 1);
        lemma_ws_end(src, k);
        lemma_ws_nonzero(src, k);
        lemma_ws_end(src, c + 1);
        lemma_ws_nonzero(src, c + 1);
        lemma_value_nonzero(src, v);
        lemma_ws_end(src, ev);
        lemma_ws_nonzero(src, ev);
        lemma_obj_after_member_nonzero(src, f);
        lemma_nonzero_join(src, j, k, c);
        lemma_nonzero_join(src, j, c, c + 1);
        lemma_nonzero_join(src, j, c + 1, v);
        lemma_nonzero_join(src, j, v, ev);
        lemma_nonzero_join(src, j, ev, f);
        lemma_obj_after_member_bound(src, f);
        lemma_nonzero_join(src, j, f, e);
    }
}

proof fn lemma_obj_after_member_nonzero(src: Seq<u8>, f: int)
    requires
        0 <= f,
    ensures
        obj_after_member(src, f) matches Some(e) ==> nonzero_between(src, f, e),
    decreases src.len() - f, 2int,
{
    if 0 <= f < src.len() && src[f] == 44u8 {
        lemma_ws_end(src, f + 1);
        lemma_ws_nonzero(src, f + 1);
        lemma_members_nonzero(src, ws_end(src, f + 1));
        lemma_members_at_bound(src, ws_end(src, f + 1));
        if obj_after_member(src, f) is Some {
            lemma_nonzero_join(src, f, f + 1, ws_end(src, f + 1));
            lemma_nonzero_join(src, f, ws_end(src, f + 1), obj_after_member(src, f)->0);
        }
    }
}

proof fn lemma_arr_after_open_nonzero(src: Seq<u8>, j: int)
    requires
        0 <= j,
    ensures
        arr_after_open(src, j) matches Some(e) ==> nonzero_between(src, j, e),
    decreases src.len() - j, 2int,
{
    if !(0 <= j < src.len() && src[j] == 93u8) {
        lemma_elements_nonzero(src, j);
    }
}

proof fn lemma_elements_nonzero(src: Seq<u8>, j: int)
    requires
        0 <= j,
    ensures
        elements_at(src, j) matches Some(e) ==> nonzero_between(src, j, e),
    decreases src.len() - j, 1int,
{
    lemma_elements_at_bound(src, j);
    if elements_at(src, j) is Some {
        let e = elements_at(src, j)->0;
        let ev = value_at(src, j)->0;
        let f = ws_end(src, ev);
        lemma_value_nonzero(src, j);
        lemma_value_at_bound(src, j);
        lemma_ws_end(src, ev);
        lemma_ws_nonzero(src, ev);
        lemma_arr_after_member_nonzero(src, f);
        lemma_arr_after_member_bound(src, f);
        lemma_nonzero_join(src, j, ev, f);
        lemma_nonzero_join(src, j, f, e);
    }
}

proof fn lemma_arr_after_member_nonzero(src: Seq<u8>, f: int)
    requires
        0 <= f,
    ensures
        arr_after_member(src, f) matches Some(e) ==> nonzero_between(src, f, e),
    decreases src.len() - f, 2int,
{
    if 0 <= f < src.len() && src[f] == 44u8 {
        lemma_ws_end(src, f + 1);
        lemma_ws_nonzero(src, f + 1);
        lemma_elements_nonzero(src, ws_end(src, f + 1));
        lemma_elements_at_bound(src, ws_end(src, f + 1));
        if arr_after_member(src, f) is Some {
            lemma_nonzero_join(src, f, f + 1, ws_end(src, f + 1));
            lemma_nonzero_join(src, f, ws_end(src, f + 1), arr_after_member(src, f)->0);
        }
    }
}

/// A JSON text holds no zero byte.
pub proof fn lemma_json_text_nonzero(src: Seq<u8>)
    requires
        is_json_text(src),
    ensures
        nonzero_between(src, 0, src.len() as int),
{
    let t = ws_end(src, 0);
    let e = value_at(src, t)->0;
    lemma_ws_end(src, 0);
    lemma_ws_nonzero(src, 0);
    lemma_value_nonzero(src, t);
    lemma_value_at_bound(src, t);
    lemma_ws_nonzero(src, e);
    lemma_nonzero_join(src, 0, t, e);
    lemma_nonzero_join(src, 0, e, src.len() as int);
}

} // verus!
