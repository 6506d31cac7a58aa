//! Decimal numerals of any length, as vectors of ASCII digits with no leading
//! zero: halving, doubling, and the numerals of small numbers.
use vstd::prelude::*;
use crate::lex_spec::{all_digits, ascii_text, digits_value, is_digit, two_pow};
use crate::text::{byte_char, decimal, digit_char};

verus! {

pub open spec fn pow10(n: nat) -> nat
    decreases n,
{
    if n == 0 {
        1
    } else {
        10 * pow10((n - 1) as nat)
    }
}

/// ASCII digits with no leading zero (zero itself is the empty numeral).
pub open spec fn normal(s: Seq<u8>) -> bool {
    all_digits(s) && (s.len() == 0 || s[0] != 48u8)
}

proof fn lemma_all_digits_prefix(s: Seq<u8>)
    requires
        all_digits(s),
        s.len() > 0,
    ensures
        all_digits(s.drop_last()),
        is_digit(s.last()),
{
    assert forall|k: int| 0 <= k < s.drop_last().len() implies is_digit(#[trigger] s.drop_last()[k]) by {
        assert(s.drop_last()[k] == s[k]);
    }
}

/// A numeral of `n` digits lies below `10^n`, and at or above `10^(n-1)`
/// when it has no leading zero.
pub proof fn lemma_normal_bounds(s: Seq<u8>)
    requires
        all_digits(s),
    ensures
        digits_value(s) < pow10(s.len()),
        s.len() > 0 && s[0] != 48u8 ==> digits_value(s) >= pow10((s.len() - 1) as nat),
    decreases s.len(),
{
    if s.len() > 0 {
        lemma_all_digits_prefix(s);
        let t = s.drop_last();
        lemma_normal_bounds(t);
        if t.len() > 0 {
            assert(t[0] == s[0]);
        }
    }
}

/// A numeral with no leading zero reads as the decimal numeral of its value.
pub proof fn lemma_text_decimal(s: Seq<u8>)
    requires
        normal(s),
        s.len() > 0,
    ensures
        ascii_text(s) == decimal(digits_value(s)),
    decreases s.len(),
{
    lemma_all_digits_prefix(s);
    let t = s.drop_last();
    let d = s.last();
    if s.len() == 1 {
        assert(digits_value(t) == 0);
        assert(digit_char((d - 48) as nat) == byte_char(d));
        assert(ascii_text(s) =~= seq![byte_char(d)]);
    } else {
        assert(t[0] == s[0]);
        lemma_normal_bounds(t);
        lemma_text_decimal(t);
        let v = digits_value(s);
        assert(v == digits_value(t) * 10 + (d - 48) as nat);
        assert(v >= 10);
        assert(v / 10 == digits_value(t));
        assert(v % 10 == (d - 48) as nat);
        assert(digit_char((d - 48) as nat) == byte_char(d));
        assert(ascii_text(s) =~= ascii_text(t).push(byte_char(d)));
    }
}

/// Leading zeros add nothing to a numeral's value.
pub proof fn lemma_leading_zeros(src: Seq<u8>, d0: int, z: int, end: int)
    requires
        0 <= d0 <= z <= end <= src.len(),
        forall|k: int| d0 <= k < z ==> src[k] == 48u8,
    ensures
        digits_value(src.subrange(d0, end)) == digits_value(src.subrange(z, end)),
    decreases end - z,
{
    if z < end {
        lemma_leading_zeros(src, d0, z, end - 1);
        assert(src.subrange(d0, end).drop_last() =~= src.subrange(d0, end - 1));
        assert(src.subrange(z, end).drop_last() =~= src.subrange(z, end - 1));
    } else {
        lemma_zeros_value(src.subrange(d0, end));
        assert(src.subrange(z, end) =~= Seq::<u8>::empty());
    }
}

proof fn lemma_zeros_value(s: Seq<u8>)
    requires
        forall|k: int| 0 <= k < s.len() ==> s[k] == 48u8,
    ensures
        digits_value(s) == 0,
    decreases s.len(),
{
    if s.len() > 0 {
        assert forall|k: int| 0 <= k < s.drop_last().len() implies s.drop_last()[k] == 48u8 by {
            assert(s.drop_last()[k] == s[k]);
        }
        lemma_zeros_value(s.drop_last());
    }
}

pub proof fn lemma_pow10_adds(a: nat, b: nat)
    ensures
        pow10(a + b) == pow10(a) * pow10(b),
    decreases b,
{
    if b > 0 {
        let b1 = (b - 1) as nat;
        lemma_pow10_adds(a, b1);
        assert(((a + b - 1) as nat) == a + b1);
        assert(pow10(b) == 10 * pow10(b1));
        assert(pow10(a + b) == 10 * pow10((a + b1) as nat));
        assert(pow10(a + b) == pow10(a) * pow10(b)) by (nonlinear_arith)
            requires
                pow10(a + b) == 10 * pow10((a + b1) as nat),
                pow10((a + b1) as nat) == pow10(a) * pow10(b1),
                pow10(b) == 10 * pow10(b1),
        ;
    } else {
        assert(pow10(0) == 1);
        assert(a + b == a);
    }
}

/// Some powers of two and of ten, compared.
pub proof fn lemma_powers()
    ensures
        pow10(16) > two_pow(53),
        pow10(16) <= u64::MAX,
        pow10(38) > two_pow(53),
        pow10(38) < two_pow(127),
        pow10(39) > u128::MAX,
        pow10(309) >= two_pow(1024),
        pow10(309) <= two_pow(1027),
{
    reveal_with_fuel(pow10, 17);
    reveal_with_fuel(two_pow, 17);
    assert(two_pow(16) == 65536);
    assert(two_pow(10) == 1024);
    assert(two_pow(5) == 32);
    assert(two_pow(3) == 8);
    assert(pow10(16) == 10000000000000000);
    assert(pow10(6) == 1000000);
    assert(pow10(5) == 100000);
    assert(pow10(1) == 10);
    crate::precision::lemma_two_pow_adds(16, 16);
    assert(two_pow(32) == 4294967296);
    crate::precision::lemma_two_pow_adds(32, 16);
    assert(two_pow(48) == 281474976710656);
    crate::precision::lemma_two_pow_adds(48, 5);
    assert(two_pow(53) == 9007199254740992);
    crate::precision::lemma_two_pow_adds(53, 10);
    assert(two_pow(63) == 9223372036854775808);
    crate::precision::lemma_two_pow_adds(32, 32);
    assert(two_pow(64) == 18446744073709551616);
    crate::precision::lemma_two_pow_adds(64, 63);
    assert(two_pow(127) == 170141183460469231731687303715884105728);
    crate::precision::lemma_two_pow_adds(64, 64);
    assert(two_pow(128) == 340282366920938463463374607431768211456);
    crate::precision::lemma_two_pow_adds(128, 128);
    assert(two_pow(256) == 115792089237316195423570985008687907853269984665640564039457584007913129639936);
    crate::precision::lemma_two_pow_adds(256, 256);
    assert(two_pow(512) == 13407807929942597099574024998205846127479365820592393377723561443721764030073546976801874298166903427690031858186486050853753882811946569946433649006084096);
    crate::precision::lemma_two_pow_adds(512, 512);
    assert(two_pow(1024) == 179769313486231590772930519078902473361797697894230657273430081157732675805500963132708477322407536021120113879871393357658789768814416622492847430639474124377767893424865485276302219601246094119453082952085005768838150682342462881473913110540827237163350510684586298239947245938479716304835356329624224137216);
    crate::precision::lemma_two_pow_adds(1024, 3);
    assert(two_pow(1027) == 1438154507889852726183444152631219786894381583153845258187440649261861406444007705061667818579260288168960911038971146861270318150515332979942779445115792995022143147398923882210417756809968752955624663616680046150705205458739703051791304884326617897306804085476690385919577967507837730438682850636993793097728);
    lemma_pow10_adds(16, 16);
    assert(pow10(32) == 100000000000000000000000000000000);
    lemma_pow10_adds(32, 6);
    assert(pow10(38) == 100000000000000000000000000000000000000);
    lemma_pow10_adds(38, 1);
    assert(pow10(39) == 1000000000000000000000000000000000000000);
    lemma_pow10_adds(32, 32);
    assert(pow10(64) == 10000000000000000000000000000000000000000000000000000000000000000);
    lemma_pow10_adds(64, 64);
    assert(pow10(128) == 100000000000000000000000000000000000000000000000000000000000000000000000000000000000000000000000000000000000000000000000000000000);
    lemma_pow10_adds(128, 128);
    assert(pow10(256) == 10000000000000000000000000000000000000000000000000000000000000000000000000000000000000000000000000000000000000000000000000000000000000000000000000000000000000000000000000000000000000000000000000000000000000000000000000000000000000000000000000000000000000000);
    lemma_pow10_adds(256, 32);
    assert(pow10(288) == 1000000000000000000000000000000000000000000000000000000000000000000000000000000000000000000000000000000000000000000000000000000000000000000000000000000000000000000000000000000000000000000000000000000000000000000000000000000000000000000000000000000000000000000000000000000000000000000000000);
    lemma_pow10_adds(288, 16);
    assert(pow10(304) == 10000000000000000000000000000000000000000000000000000000000000000000000000000000000000000000000000000000000000000000000000000000000000000000000000000000000000000000000000000000000000000000000000000000000000000000000000000000000000000000000000000000000000000000000000000000000000000000000000000000000000000);
    lemma_pow10_adds(304, 5);
    assert(pow10(309) == 1000000000000000000000000000000000000000000000000000000000000000000000000000000000000000000000000000000000000000000000000000000000000000000000000000000000000000000000000000000000000000000000000000000000000000000000000000000000000000000000000000000000000000000000000000000000000000000000000000000000000000000000);
}

/// Half of a numeral, and the bit that halving drops.
pub fn halve(d: &Vec<u8>) -> (r: (Vec<u8>, u8))
    requires
        normal(d@),
    ensures
        normal(r.0@),
        r.1 < 2,
        digits_value(d@) == 2 * digits_value(r.0@) + r.1,
        r.0@.len() <= d@.len(),
{
    let mut h: Vec<u8> = Vec::new();
    let mut rem: u8 = 0;
    let mut i: usize = 0;
    while i < d.len()
        invariant
            normal(d@),
            i <= d@.len(),
            normal(h@),
            h@.len() <= i,
            rem < 2,
            digits_value(d@.subrange(0, i as int)) == 2 * digits_value(h@) + rem,
        decreases d@.len() - i,
    {
        let b = d[i];
        assert(is_digit(d@[i as int]));
        let cur = rem * 10 + (b - 48);
        let q = cur / 2;
        let r2 = cur % 2;
        proof {
            assert(d@.subrange(0, i + 1).drop_last() =~= d@.subrange(0, i as int));
            assert(d@.subrange(0, i + 1).last() == b);
        }
        if h.len() > 0 || q > 0 {
            let ghost h0 = h@;
            h.push(48 + q);
            proof {
                assert(h@.drop_last() =~= h0);
                assert forall|k: int| 0 <= k < h@.len() implies is_digit(#[trigger] h@[k]) by {
                    if k < h0.len() {
                        assert(h@[k] == h0[k]);
                    }
                }
            }
        } else {
            assert(digits_value(h@) == 0);
        }
        rem = r2;
        i = i + 1;
    }
    assert(d@.subrange(0, d@.len() as int) =~= d@);
    (h, rem)
}

/// The carry that doubling the digit at `i` sends to the digit before it.
pub open spec fn carry_at(d: Seq<u8>, i: int) -> nat {
    if 0 <= i < d.len() && d[i] >= 53u8 {
        1
    } else {
        0
    }
}

proof fn lemma_double_digit(vo: nat, vp: nat, b: u8, ci: nat, c: u8, nd: u8)
    requires
        48 <= b <= 57,
        c < 2,
        ci == if b >= 53u8 { 1nat } else { 0nat },
        vo == 2 * vp + ci,
        nd == (2 * (b - 48) + c) % 10,
    ensures
        vo * 10 + nd == 2 * (vp * 10 + (b - 48)) + c,
        nd < 10,
{
}

/// Appending a digit to a numeral with no leading zero keeps it so, when
/// the numeral was not empty or the digit is not zero.
proof fn lemma_push_digit(o: Seq<u8>, x: u8)
    requires
        normal(o),
        is_digit(x),
        o.len() > 0 || x != 48u8,
    ensures
        normal(o.push(x)),
        digits_value(o.push(x)) == digits_value(o) * 10 + (x - 48) as nat,
{
    assert(o.push(x).drop_last() =~= o);
    assert forall|k: int| 0 <= k < o.push(x).len() implies is_digit(#[trigger] o.push(x)[k]) by {
        if k < o.len() {
            assert(o.push(x)[k] == o[k]);
        }
    }
}

/// Twice a numeral.
pub fn double(d: &Vec<u8>) -> (r: Vec<u8>)
    requires
        normal(d@),
        d@.len() < 10000,
    ensures
        normal(r@),
        digits_value(r@) == 2 * digits_value(d@),
        r@.len() <= d@.len() + 1,
        d@.len() > 0 ==> r@.len() > 0,
{
    let mut out: Vec<u8> = Vec::new();
    if d.len() > 0 && d[0] >= 53 {
        out.push(49);
        proof {
            assert(out@ =~= seq![49u8]);
            assert(out@.drop_last() =~= Seq::<u8>::empty());
        }
    }
    let mut i: usize = 0;
    assert(d@.subrange(0, 0) =~= Seq::<u8>::empty());
    assert(digits_value(Seq::<u8>::empty()) == 0);
    while i < d.len()
        invariant
            normal(d@),
            d@.len() < 10000,
            i <= d@.len(),
            normal(out@),
            out@.len() <= i + 1,
            i > 0 ==> out@.len() > 0,
            digits_value(out@) == 2 * digits_value(d@.subrange(0, i as int)) + carry_at(d@, i as int),
        decreases d@.len() - i,
    {
        let b = d[i];
        assert(is_digit(d@[i as int]));
        let c: u8 = if i + 1 < d.len() && d[i + 1] >= 53 { 1 } else { 0 };
        assert(c == carry_at(d@, i + 1));
        let nd = (2 * (b - 48) + c) % 10;
        let ghost o0 = out@;
        out.push(48 + nd);
        proof {
            lemma_double_digit(digits_value(o0), digits_value(d@.subrange(0, i as int)), b, carry_at(d@, i as int), c, nd);
            assert(out@.drop_last() =~= o0);
            assert(d@.subrange(0, i + 1).drop_last() =~= d@.subrange(0, i as int));
            lemma_push_digit(o0, (48 + nd) as u8);
            assert(out@ == o0.push((48 + nd) as u8));
            if o0.len() == 0 {
                assert(b != 48u8);
            }
        }
        i = i + 1;
    }
    assert(d@.subrange(0, d@.len() as int) =~= d@);
    out
}

/// The value of a numeral of at most sixteen digits.
pub fn small_value(d: &Vec<u8>) -> (r: u64)
    requires
        normal(d@),
        d@.len() <= 16,
    ensures
        r == digits_value(d@),
{
    proof {
        lemma_powers();
    }
    let mut v: u64 = 0;
    let mut i: usize = 0;
    while i < d.len()
        invariant
            normal(d@),
            d@.len() <= 16,
            i <= d@.len(),
            v == digits_value(d@.subrange(0, i as int)),
            pow10(16) <= u64::MAX,
        decreases d@.len() - i,
    {
        let b = d[i];
        assert(is_digit(d@[i as int]));
        proof {
            let t = d@.subrange(0, i + 1);
            assert(t.drop_last() =~= d@.subrange(0, i as int));
            assert forall|k: int| 0 <= k < t.len() implies is_digit(#[trigger] t[k]) by {
                assert(t[k] == d@[k]);
            }
            lemma_normal_bounds(t);
            lemma_pow10_le(t.len(), 16);
        }
        v = v * 10 + (b - 48) as u64;
        i = i + 1;
    }
    assert(d@.subrange(0, d@.len() as int) =~= d@);
    v
}

pub proof fn lemma_pow10_le(a: nat, b: nat)
    requires
        a <= b,
    ensures
        pow10(a) <= pow10(b),
    decreases b,
{
    if a < b {
        lemma_pow10_le(a, (b - 1) as nat);
    }
}

/// The numeral of `n`.
pub fn digits_of(n: u128) -> (r: Vec<u8>)
    ensures
        normal(r@),
        r@.len() > 0 <==> n > 0,
        digits_value(r@) == n,
        r@.len() <= 39,
    decreases n,
{
    if n == 0 {
        Vec::new()
    } else {
        let mut v = digits_of(n / 10);
        let ghost v0 = v@;
        v.push(48 + (n % 10) as u8);
        proof {
            assert(v@.drop_last() =~= v0);
            assert forall|k: int| 0 <= k < v@.len() implies is_digit(#[trigger] v@[k]) by {
                if k < v0.len() {
                    assert(v@[k] == v0[k]);
                }
            }
            if v0.len() > 0 {
                assert(v@[0] == v0[0]);
            }
            if v0.len() >= 39 {
                lemma_normal_bounds(v0);
                lemma_pow10_le(38, (v0.len() - 1) as nat);
                lemma_powers();
                lemma_pow10_le(39, v0.len() as nat);
            }
        }
        v
    }
}

} // verus!
