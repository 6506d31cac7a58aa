//! Building diagnostic text, and the few std string conversions the lexer relies on.
use vstd::prelude::*;
use vstd::utf8::*;

verus! {

/// `String::push`: appends one character.
#[verifier::external_body]
pub(crate) fn push_char(s: &mut String, c: char)
    ensures
        final(s)@ == old(s)@.push(c),
{
    s.push(c);
}

/// The character whose code is the byte `b` (Latin-1), as `b as char` gives it.
pub open spec fn byte_char(b: u8) -> char {
    (b as u32) as char
}

pub fn char_of_byte(b: u8) -> (c: char)
    ensures
        c == byte_char(b),
{
    b as char
}

/// Upper-case hexadecimal digit of `n < 16`.
pub open spec fn hex_upper(n: u8) -> char {
    if n < 10 {
        byte_char((48 + n) as u8)
    } else {
        byte_char((55 + n) as u8)
    }
}

/// Lower-case hexadecimal digit of `n < 16`.
pub open spec fn hex_lower(n: u8) -> char {
    if n < 10 {
        byte_char((48 + n) as u8)
    } else {
        byte_char((87 + n) as u8)
    }
}

/// Two upper-case hex digits, as `{:02X}` prints a byte.
pub open spec fn hex2_upper(b: u8) -> Seq<char> {
    seq![hex_upper(b / 16), hex_upper(b % 16)]
}

/// Two lower-case hex digits of a byte.
pub open spec fn hex2_lower(b: u8) -> Seq<char> {
    seq![hex_lower(b / 16), hex_lower(b % 16)]
}

pub fn push_hex2_upper(s: &mut String, b: u8)
    ensures
        final(s)@ == old(s)@ + hex2_upper(b),
{
    let hi = b / 16;
    let lo = b % 16;
    let c1 = if hi < 10 { char_of_byte(48 + hi) } else { char_of_byte(55 + hi) };
    let c2 = if lo < 10 { char_of_byte(48 + lo) } else { char_of_byte(55 + lo) };
    push_char(s, c1);
    push_char(s, c2);
    assert(s@ =~= old(s)@ + hex2_upper(b));
}

pub fn push_hex2_lower(s: &mut String, b: u8)
    ensures
        final(s)@ == old(s)@ + hex2_lower(b),
{
    let hi = b / 16;
    let lo = b % 16;
    let c1 = if hi < 10 { char_of_byte(48 + hi) } else { char_of_byte(87 + hi) };
    let c2 = if lo < 10 { char_of_byte(48 + lo) } else { char_of_byte(87 + lo) };
    push_char(s, c1);
    push_char(s, c2);
    assert(s@ =~= old(s)@ + hex2_lower(b));
}

/// Decimal digit of `d < 10`.
pub open spec fn digit_char(d: nat) -> char {
    byte_char((48 + d) as u8)
}

/// The decimal numeral of `n`, without leading zeros.
pub open spec fn decimal(n: nat) -> Seq<char>
    decreases n,
{
    if n < 10 {
        seq![digit_char(n)]
    } else {
        decimal(n / 10).push(digit_char(n % 10))
    }
}

/// Appends the decimal numeral of `n`, as `n.to_string()` writes it.
pub fn push_decimal(s: &mut String, n: u128)
    ensures
        final(s)@ == old(s)@ + decimal(n as nat),
    decreases n,
{
    if n >= 10 {
        push_decimal(s, n / 10);
    }
    let c = char_of_byte(48 + (n % 10) as u8);
    push_char(s, c);
    assert(s@ =~= old(s)@ + decimal(n as nat));
}

/// `k` is the length of the longest prefix of `b` that is valid UTF-8.
pub open spec fn is_valid_up_to(b: Seq<u8>, k: int) -> bool {
    &&& 0 <= k <= b.len()
    &&& valid_utf8(b.take(k))
    &&& forall|j: int| k < j <= b.len() ==> !valid_utf8(#[trigger] b.take(j))
}

/// The length of the longest valid UTF-8 prefix of `b`.
pub open spec fn valid_up_to(b: Seq<u8>) -> int {
    choose|k: int| is_valid_up_to(b, k)
}

pub proof fn lemma_valid_up_to_unique(b: Seq<u8>, k: int)
    requires
        is_valid_up_to(b, k),
    ensures
        valid_up_to(b) == k,
{
    let c = valid_up_to(b);
    assert(is_valid_up_to(b, c));
    if c < k {
        assert(!valid_utf8(b.take(k)));
    } else if k < c {
        assert(!valid_utf8(b.take(c)));
    }
}

/// `std::str::from_utf8`: the text when `b` is valid UTF-8, else the error's
/// `valid_up_to()`, documented as the largest index whose prefix is valid.
#[verifier::external_body]
pub(crate) fn from_utf8(b: &[u8]) -> (r: Result<&str, usize>)
    ensures
        r is Ok <==> valid_utf8(b@),
        r matches Ok(t) ==> t@ == decode_utf8(b@),
        r matches Err(k) ==> is_valid_up_to(b@, k as int),
{
    match std::str::from_utf8(b) {
        Ok(t) => Ok(t),
        Err(e) => Err(e.valid_up_to()),
    }
}

/// What `String::from_utf8_lossy` makes of the bytes.
pub uninterp spec fn utf8_lossy(b: Seq<u8>) -> Seq<char>;

/// `String::from_utf8_lossy`: invalid sequences become U+FFFD; valid UTF-8
/// comes back unchanged, as its documentation says.
#[verifier::external_body]
pub(crate) fn from_utf8_lossy(b: &[u8]) -> (r: String)
    ensures
        r@ == utf8_lossy(b@),
        valid_utf8(b@) ==> r@ == decode_utf8(b@),
{
    String::from_utf8_lossy(b).into_owned()
}

/// A Unicode scalar value: at most 0x10FFFF and not a surrogate.
pub open spec fn is_scalar_value(c: u32) -> bool {
    c <= 0x10FFFF && !(0xD800 <= c <= 0xDFFF)
}

/// `char::from_u32`: `None` exactly for the values that are not Unicode scalars.
#[verifier::external_body]
pub(crate) fn char_from_u32(c: u32) -> (r: Option<char>)
    ensures
        r is Some <==> is_scalar_value(c),
        r matches Some(ch) ==> ch == c as char,
{
    char::from_u32(c)
}

} // verus!
