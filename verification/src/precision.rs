//! Integer numerals that a JavaScript reader cannot hold exactly.
use vstd::prelude::*;
use crate::lex_spec::{
    all_digits, ascii_text, bit_len, digits_value, double_overflows, double_text, is_digit, numeral_value, precision_msg,
    round_to_double, two_pow,
};
use crate::wide::{digits_of, double, halve, lemma_leading_zeros, lemma_normal_bounds, lemma_powers, lemma_pow10_le,
    lemma_text_decimal, normal, pow10, small_value};
use crate::text::{byte_char, char_of_byte, decimal, push_char, push_decimal};

verus! {

/// 2^127, the magnitude of `i128::MIN`.
pub const TWO_POW_127: u128 = 0x8000_0000_0000_0000_0000_0000_0000_0000;

pub proof fn lemma_two_pow_values()
    ensures
        two_pow(53) == 9007199254740992,
        two_pow(127) == TWO_POW_127,
{
    reveal_with_fuel(two_pow, 54);
    assert(two_pow(53) == 9007199254740992);
    assert(two_pow(21) == 2097152);
    lemma_two_pow_adds(53, 21);
    lemma_two_pow_adds(53, 74);
}

#[verifier::spinoff_prover]
pub proof fn lemma_two_pow_adds(a: nat, b: nat)
    ensures
        two_pow(a + b) == two_pow(a) * two_pow(b),
    decreases b,
{
    if b > 0 {
        let b1 = (b - 1) as nat;
        let s1 = (a + b - 1) as nat;
        lemma_two_pow_adds(a, b1);
        assert(a + b1 == s1);
        assert(two_pow(a + b) == 2 * two_pow(s1));
        assert(two_pow(b) == 2 * two_pow(b1));
        assert(two_pow(a + b) == two_pow(a) * two_pow(b)) by (nonlinear_arith)
            requires
                two_pow(a + b) == 2 * two_pow(s1),
                two_pow(s1) == two_pow(a) * two_pow(b1),
                two_pow(b) == 2 * two_pow(b1),
        ;
    } else {
        assert(two_pow(0) == 1);
        assert(a + b == a);
        assert(two_pow(a) * two_pow(b) == two_pow(a));
    }
}

pub proof fn lemma_two_pow_le(a: nat, b: nat)
    requires
        a <= b,
    ensures
        two_pow(a) <= two_pow(b),
{
    if a < b {
        lemma_two_pow_increases(a, b);
    }
}

pub proof fn lemma_two_pow_increases(a: nat, b: nat)
    requires
        a < b,
    ensures
        0 < two_pow(a) < two_pow(b),
    decreases b,
{
    if a + 1 < b {
        lemma_two_pow_increases(a, (b - 1) as nat);
    } else {
        lemma_two_pow_pos(a);
    }
}

pub proof fn lemma_two_pow_pos(a: nat)
    ensures
        0 < two_pow(a),
    decreases a,
{
    if a > 0 {
        lemma_two_pow_pos((a - 1) as nat);
    }
}

/// A positive `a` has `bit_len(a)` binary digits.
pub proof fn lemma_bit_len_bounds(a: nat)
    ensures
        a < two_pow(bit_len(a)),
        a > 0 ==> bit_len(a) >= 1 && two_pow((bit_len(a) - 1) as nat) <= a,
    decreases a,
{
    if a > 0 {
        lemma_bit_len_bounds(a / 2);
        if a / 2 == 0 {
            assert(a == 1);
            assert(bit_len(0) == 0);
            assert(two_pow(1) == 2 * two_pow(0));
        } else {
            assert(two_pow(bit_len(a)) == 2 * two_pow(bit_len(a / 2)));
            assert(two_pow((bit_len(a) - 1) as nat) == two_pow(bit_len(a / 2)));
            assert(bit_len(a / 2) >= 1);
            assert(two_pow(bit_len(a / 2)) == 2 * two_pow((bit_len(a / 2) - 1) as nat));
        }
    }
}

/// A number below `2^k` has at most `k` binary digits.
pub proof fn lemma_bit_len_at_most(a: nat, k: nat)
    requires
        a < two_pow(k),
    ensures
        bit_len(a) <= k,
    decreases a,
{
    if a > 0 {
        lemma_bit_len_bounds(a);
        if bit_len(a) > k {
            lemma_two_pow_increases(k, (bit_len(a) - 1) as nat);
            if k < bit_len(a) - 1 {
            }
        }
    }
}

/// The magnitude of the double nearest to `a`, for `a <= 2^127`.
pub fn round_to_double_exec(a: u128) -> (r: u128)
    requires
        a <= TWO_POW_127,
    ensures
        r == round_to_double(a as nat),
        a > 0 ==> r > 0,
{
    proof {
        lemma_two_pow_values();
        lemma_bit_len_bounds(a as nat);
        lemma_two_pow_increases(127, 128);
        lemma_bit_len_at_most(a as nat, 128);
    }
    let mut l: u32 = 0;
    let mut t: u128 = a;
    while t > 0
        invariant
            l as nat + bit_len(t as nat) == bit_len(a as nat),
            bit_len(a as nat) <= 128,
        decreases t,
    {
        t = t / 2;
        l = l + 1;
    }
    if l <= 53 {
        return a;
    }
    let s: u32 = l - 53;
    let mut p: u128 = 1;
    let mut i: u32 = 0;
    proof {
        lemma_two_pow_adds(53, s as nat);
        lemma_two_pow_le(s as nat, 127);
    }
    while i < s
        invariant
            i <= s,
            p == two_pow(i as nat),
            two_pow(s as nat) <= TWO_POW_127,
        decreases s - i,
    {
        proof {
            lemma_two_pow_le((i + 1) as nat, s as nat);
            assert(two_pow((i + 1) as nat) == 2 * two_pow(i as nat));
        }
        p = p * 2;
        i = i + 1;
    }
    let q = a / p;
    let r = a % p;
    proof {
        lemma_two_pow_pos(s as nat);
        // a < 2^l = 2^53 * p, so q < 2^53
        assert(a < two_pow(53) * p);
        assert(q < two_pow(53)) by (nonlinear_arith)
            requires
                a < two_pow(53) * p,
                p > 0,
                q == a / p,
        ;
        assert((q + 1) * p <= two_pow(53) * p) by (nonlinear_arith)
            requires
                q < two_pow(53),
                p > 0,
        ;
        if l == 128 {
            // then a == 2^127 == 2^52 * p exactly
            lemma_two_pow_adds(52, 75);
            assert(a == two_pow(52) * p);
            assert(r == 0) by (nonlinear_arith)
                requires
                    a == two_pow(52) * p,
                    p > 0,
                    r == a % p,
            ;
        } else {
            lemma_two_pow_le(l as nat, 127);
        }
        assert(q * p <= a) by (nonlinear_arith)
            requires
                p > 0,
                q == a / p,
        ;
        lemma_two_pow_le(s as nat, (l - 1) as nat);
        assert(q >= 1) by (nonlinear_arith)
            requires
                p > 0,
                p <= a,
                q == a / p,
        ;
        assert(q * p >= p) by (nonlinear_arith)
            requires
                q >= 1,
                p > 0,
        ;
    }
    proof {
        assert((q + 1) * p >= p) by (nonlinear_arith)
            requires
                q >= 1,
                p > 0,
        ;
    }
    if r * 2 > p || (r * 2 == p && q % 2 == 1) {
        (q + 1) * p
    } else {
        q * p
    }
}

/// `a` has exactly `l` binary digits when it lies in `[2^(l-1), 2^l)`.
pub proof fn lemma_bit_len_exact(a: nat, l: nat)
    requires
        l >= 1,
        two_pow((l - 1) as nat) <= a < two_pow(l),
    ensures
        bit_len(a) == l,
{
    lemma_two_pow_pos((l - 1) as nat);
    lemma_bit_len_bounds(a);
    let b = bit_len(a);
    if b > l {
        lemma_two_pow_le(l, (b - 1) as nat);
    } else if b < l {
        lemma_two_pow_le(b, (l - 1) as nat);
    }
}

/// A magnitude of at least `2^1024` rounds to an infinite double.
pub proof fn lemma_overflows_past(a: nat)
    requires
        a >= two_pow(1024),
    ensures
        double_overflows(a),
{
    lemma_bit_len_bounds(a);
    let l = bit_len(a);
    if l <= 1024 {
        lemma_two_pow_le(l, 1024);
    }
    let s = (l - 53) as nat;
    let p = two_pow(s);
    lemma_two_pow_pos(s);
    lemma_two_pow_adds(52, s);
    assert((l - 1) as nat == 52 + s);
    let q = a / p;
    let lo = two_pow(52) * p;
    assert(lo <= a);
    assert(lo / p == two_pow(52)) by {
        vstd::arithmetic::div_mod::lemma_div_by_multiple(two_pow(52) as int, p as int);
    }
    assert(q >= two_pow(52)) by {
        vstd::arithmetic::div_mod::lemma_div_is_ordered(lo as int, a as int, p as int);
    }
    assert(q * p >= lo) by (nonlinear_arith)
        requires
            q >= two_pow(52),
            lo == two_pow(52) * p,
            p > 0,
    ;
    assert((q + 1) * p >= q * p) by (nonlinear_arith)
        requires
            p > 0,
    ;
    lemma_two_pow_le(1024, (l - 1) as nat);
}

/// A magnitude below `2^127` rounds to a finite double.
pub proof fn lemma_small_finite(a: nat, r: nat)
    requires
        r == round_to_double(a),
        r <= u128::MAX,
    ensures
        !double_overflows(a),
{
    lemma_two_pow_values();
    lemma_two_pow_adds(127, 1);
    assert(two_pow(1) == 2) by {
        assert(two_pow(0) == 1);
    }
    lemma_two_pow_le(128, 1024);
}

/// Rounding `a = q * 2^s + rem` to 53 significant bits, where `q` has
/// exactly 53 bits: `rem` splits into its top bit `half` and the rest `low`.
pub proof fn lemma_round_split(a: nat, q: nat, s: nat, rem: nat, half: bool, low: nat)
    requires
        s >= 1,
        two_pow(52) <= q < two_pow(53),
        a == q * two_pow(s) + rem,
        rem == (if half { two_pow((s - 1) as nat) } else { 0 }) + low,
        low < two_pow((s - 1) as nat),
    ensures
        bit_len(a) == 53 + s,
        round_to_double(a) == (if half && (low != 0 || q % 2 == 1) { q + 1 } else { q }) * two_pow(s),
        round_to_double(a) == a <==> !half && low == 0,
{
    let p = two_pow(s);
    let hp = two_pow((s - 1) as nat);
    assert(p == 2 * hp) by {
        assert(((s - 1) as nat) + 1 == s);
    }
    lemma_two_pow_pos((s - 1) as nat);
    assert(rem < p);
    lemma_two_pow_adds(52, s);
    lemma_two_pow_adds(53, s);
    assert(two_pow(52) * p <= q * p) by (nonlinear_arith)
        requires
            two_pow(52) <= q,
            p > 0,
    ;
    assert((q + 1) * p <= two_pow(53) * p) by (nonlinear_arith)
        requires
            q < two_pow(53),
            p > 0,
    ;
    assert((q + 1) * p == q * p + p) by (nonlinear_arith);
    assert(((53 + s - 1) as nat) == 52 + s);
    lemma_bit_len_exact(a, 53 + s);
    assert(((bit_len(a) - 53) as nat) == s);
    vstd::arithmetic::div_mod::lemma_fundamental_div_mod_converse(a as int, p as int, q as int, rem as int);
    let m = if half && (low != 0 || q % 2 == 1) { q + 1 } else { q };
    if m * p == a {
        if half || low != 0 {
            assert(m == q || m == q + 1);
            if m == q {
                assert(rem == 0);
            } else {
                assert(rem == p);
            }
        }
    }
}

/// Magnitudes up to `2^53` are doubles exactly.
pub proof fn lemma_exact_small(a: nat)
    requires
        a <= 9007199254740992,
    ensures
        round_to_double(a) == a,
        !double_overflows(a),
{
    lemma_two_pow_values();
    lemma_two_pow_increases(53, 1024);
    if a < 9007199254740992 {
        lemma_bit_len_at_most(a, 53);
    } else {
        lemma_two_pow_adds(53, 1);
        assert(two_pow(1) == 2) by {
            assert(two_pow(0) == 1);
        }
        lemma_bit_len_exact(a, 54);
        assert(((bit_len(a) - 53) as nat) == 1);
    }
}

/// The double nearest to the magnitude `src[z..end]` (digits, the first not
/// zero): whether it differs from the magnitude, and its digits when it is finite.
#[verifier::loop_isolation(false)]
#[verifier::rlimit(60)]
fn rounded(src: &[u8], z: usize, end: usize) -> (r: (bool, Option<Vec<u8>>))
    requires
        z < end <= src@.len(),
        normal(src@.subrange(z as int, end as int)),
    ensures
        r.0 == (round_to_double(digits_value(src@.subrange(z as int, end as int))) != digits_value(
            src@.subrange(z as int, end as int),
        ) || double_overflows(digits_value(src@.subrange(z as int, end as int)))),
        match r.1 {
            Some(ds) => !double_overflows(digits_value(src@.subrange(z as int, end as int))) && ascii_text(ds@)
                == decimal(round_to_double(digits_value(src@.subrange(z as int, end as int)))),
            None => double_overflows(digits_value(src@.subrange(z as int, end as int))),
        },
{
    let ghost sig = src@.subrange(z as int, end as int);
    let ghost a = digits_value(sig);
    proof {
        lemma_powers();
        lemma_normal_bounds(sig);
        lemma_two_pow_values();
    }
    let l = end - z;
    assert forall|j: int| z <= j < end implies is_digit(#[trigger] src@[j]) by {
        assert(src@[j] == sig[j - z]);
    }
    if l <= 38 {
        // the magnitude fits in 127 bits
        proof {
            lemma_pow10_le(l as nat, 38);
        }
        let mut a128: u128 = 0;
        let mut k = z;
        while k < end
            invariant
                z <= k <= end <= src@.len(),
                end - z <= 38,
                forall|j: int| z <= j < end ==> is_digit(#[trigger] src@[j]),
                a128 as nat == digits_value(src@.subrange(z as int, k as int)),
                pow10(38) < two_pow(127),
                two_pow(127) == TWO_POW_127,
            decreases end - k,
        {
            proof {
                let t = src@.subrange(z as int, k + 1);
                assert(t.drop_last() =~= src@.subrange(z as int, k as int));
                assert forall|j: int| 0 <= j < t.len() implies is_digit(#[trigger] t[j]) by {
                    assert(t[j] == src@[z + j]);
                }
                lemma_normal_bounds(t);
                lemma_pow10_le(t.len(), 38);
                assert(is_digit(src@[k as int]));
            }
            a128 = a128 * 10 + (src[k] - 48) as u128;
            k = k + 1;
        }
        assert(src@.subrange(z as int, end as int) =~= sig);
        let r = round_to_double_exec(a128);
        proof {
            lemma_small_finite(a, r as nat);
        }
        let ds = digits_of(r);
        proof {
            lemma_text_decimal(ds@);
        }
        return (r != a128, Some(ds));
    } else if l > 309 {
        proof {
            lemma_pow10_le(309, (l - 1) as nat);
            lemma_overflows_past(a);
        }
        return (true, None);
    } else {
        proof {
            lemma_pow10_le(38, (l - 1) as nat);
            lemma_pow10_le(l as nat, 309);
        }
        // halve until 53 bits are left, keeping the last bit dropped (`half`)
        // and whether any bit below it was set (`sticky`)
        let mut cur: Vec<u8> = Vec::new();
        let mut k = z;
        while k < end
            invariant
                z <= k <= end <= src@.len(),
                normal(src@.subrange(z as int, end as int)),
                cur@ == src@.subrange(z as int, k as int),
            decreases end - k,
        {
            cur.push(src[k]);
            k = k + 1;
            proof {
                assert(cur@ =~= src@.subrange(z as int, k as int));
            }
        }
        assert(cur@ =~= sig);
        assert(two_pow(0) == 1);
        let mut s: u32 = 0;
        let mut half = false;
        let mut sticky = false;
        let ghost mut rem: nat = 0;
        let ghost mut low: nat = 0;
        while cur.len() > 16 || small_value(&cur) >= 9007199254740992
            invariant
                normal(cur@),
                cur@.len() <= 309,
                a == digits_value(cur@) * two_pow(s as nat) + rem,
                rem < two_pow(s as nat),
                s == 0 ==> rem == 0 && digits_value(cur@) == a && !half && !sticky,
                s >= 1 ==> rem == (if half { two_pow((s - 1) as nat) } else { 0 }) + low && low < two_pow(
                    (s - 1) as nat) && sticky == (low != 0),
                s >= 1 ==> digits_value(cur@) >= two_pow(52),
                s >= 1 ==> two_pow((52 + s) as nat) <= a,
                a < two_pow(1027),
                pow10(16) > two_pow(53),
                pow10(16) <= u64::MAX,
            decreases digits_value(cur@),
        {
            proof {
                if cur@.len() > 16 {
                    lemma_normal_bounds(cur@);
                    lemma_pow10_le(16, (cur@.len() - 1) as nat);
                }
                assert(digits_value(cur@) >= two_pow(53));
                lemma_two_pow_pos(s as nat);
                if s >= 1 {
                    lemma_two_pow_adds(53, s as nat);
                    assert(two_pow(53) * two_pow(s as nat) <= digits_value(cur@) * two_pow(s as nat)) by (nonlinear_arith)
                        requires
                            two_pow(53) <= digits_value(cur@),
                    ;
                    if s >= 974 {
                        lemma_two_pow_le(1027, (53 + s) as nat);
                    }
                }
            }
            let (h, bit) = halve(&cur);
            proof {
                let c = digits_value(cur@);
                let hv = digits_value(h@);
                let p = two_pow(s as nat);
                assert(two_pow((s + 1) as nat) == 2 * p);
                assert(a == hv * two_pow((s + 1) as nat) + (bit * p + rem)) by (nonlinear_arith)
                    requires
                        a == c * p + rem,
                        c == 2 * hv + bit,
                        two_pow((s + 1) as nat) == 2 * p,
                ;
                assert(bit * p + rem < 2 * p) by (nonlinear_arith)
                    requires
                        bit < 2,
                        rem < p,
                ;
                lemma_two_pow_adds(52, (s + 1) as nat);
                lemma_two_pow_adds(53, s as nat);
                assert(two_pow(52) * two_pow((s + 1) as nat) <= hv * two_pow((s + 1) as nat)) by (nonlinear_arith)
                    requires
                        two_pow(52) <= hv,
                ;
                if s >= 1 {
                    lemma_two_pow_pos((s - 1) as nat);
                }
                if bit == 1 {
                    assert(bit * p == p) by (nonlinear_arith)
                        requires
                            bit == 1,
                    ;
                } else {
                    assert(bit * p == 0) by (nonlinear_arith)
                        requires
                            bit == 0,
                    ;
                }
                low = rem;
                rem = (bit * p + rem) as nat;
            }
            sticky = sticky || half;
            half = bit == 1;
            s = s + 1;
            cur = h;
        }
        proof {
            if s == 0 {
                assert(digits_value(cur@) == a);
                assert(false);
            }
        }
        let q = small_value(&cur);
        let m: u64 = if half && (sticky || q % 2 == 1) { q + 1 } else { q };
        proof {
            lemma_round_split(a, q as nat, s as nat, rem, half, low);
        }
        // the double is infinite when m * 2^s reaches 2^1024
        let over = if m == 9007199254740992 { s >= 971 } else { s >= 972 };
        proof {
            let p = two_pow(s as nat);
            lemma_two_pow_pos(s as nat);
            lemma_two_pow_adds(52, s as nat);
            lemma_two_pow_adds(53, s as nat);
            if m == 9007199254740992 {
                if s >= 971 {
                    lemma_two_pow_le(1024, (53 + s) as nat);
                } else {
                    lemma_two_pow_le((53 + s) as nat, 1023);
                    lemma_two_pow_increases(1023, 1024);
                }
            } else {
                assert(two_pow(52) * p <= m * p) by (nonlinear_arith)
                    requires
                        two_pow(52) <= m,
                ;
                assert(m * p < two_pow(53) * p) by (nonlinear_arith)
                    requires
                        m < two_pow(53),
                        p > 0,
                ;
                if s >= 972 {
                    lemma_two_pow_le(1024, (52 + s) as nat);
                } else {
                    lemma_two_pow_le((53 + s) as nat, 1024);
                }
            }
        }
        let lost = half || sticky || over;
        if !over {
            let mut ds = digits_of(m as u128);
            let mut j: u32 = 0;
            while j < s
                invariant
                    j <= s,
                    s <= 971,
                    normal(ds@),
                    ds@.len() > 0,
                    ds@.len() <= 39 + j,
                    digits_value(ds@) == m * two_pow(j as nat),
                decreases s - j,
            {
                let ghost before = digits_value(ds@);
                ds = double(&ds);
                proof {
                    assert(two_pow((j + 1) as nat) == 2 * two_pow(j as nat));
                    assert(digits_value(ds@) == m * two_pow((j + 1) as nat)) by (nonlinear_arith)
                        requires
                            digits_value(ds@) == 2 * before,
                            before == m * two_pow(j as nat),
                            two_pow((j + 1) as nat) == 2 * two_pow(j as nat),
                    ;
                }
                j = j + 1;
            }
            proof {
                lemma_text_decimal(ds@);
            }
            return (lost, Some(ds));
        }
        return (lost, None);
    }
}

/// The W050 message for the integer numeral `src[start..end]`: present when the
/// double nearest to it is not the same number.
#[verifier::loop_isolation(false)]
#[verifier::rlimit(40)]
pub fn precision_message(src: &[u8], start: usize, end: usize) -> (r: Option<String>)
    requires
        start <= end <= src@.len(),
    ensures
        opt_view(r) == precision_msg(src@.subrange(start as int, end as int)),
{
    let ghost text = src@.subrange(start as int, end as int);
    let neg = start < end && src[start] == 45;
    let d0 = if neg { start + 1 } else { start };
    let ghost digits = if neg { text.skip(1) } else { text };
    assert(digits =~= src@.subrange(d0 as int, end as int));
    if d0 == end {
        return None;
    }
    let mut i = d0;
    while i < end
        invariant
            d0 <= i <= end <= src@.len(),
            forall|k: int| d0 <= k < i ==> is_digit(#[trigger] src@[k]),
        decreases end - i,
    {
        if !(48 <= src[i] && src[i] <= 57) {
            proof {
                assert(!is_digit(digits[i - d0]));
                assert(!all_digits(digits));
            }
            return None;
        }
        i = i + 1;
    }
    assert(all_digits(digits)) by {
        assert forall|k: int| 0 <= k < digits.len() implies is_digit(#[trigger] digits[k]) by {
            assert(digits[k] == src@[d0 + k]);
        }
    }
    let mut z = d0;
    while z < end && src[z] == 48
        invariant
            d0 <= z <= end <= src@.len(),
            forall|k: int| d0 <= k < z ==> src@[k] == 48u8,
        decreases end - z,
    {
        z = z + 1;
    }
    proof {
        lemma_leading_zeros(src@, d0 as int, z as int, end as int);
    }
    let ghost sig = src@.subrange(z as int, end as int);
    let ghost a = digits_value(sig);
    let ghost v: int = if neg { -(a as int) } else { a as int };
    assert(numeral_value(text) == Some(v));
    assert(normal(sig)) by {
        assert forall|k: int| 0 <= k < sig.len() implies is_digit(#[trigger] sig[k]) by {
            assert(sig[k] == src@[z + k]);
        }
        if sig.len() > 0 {
            assert(sig[0] == src@[z as int]);
        }
    }
    if z == end {
        assert(sig.len() == 0);
        return None;
    }
    let (lost, finite) = rounded(src, z, end);
    proof {
        if a <= 9007199254740992 {
            lemma_exact_small(a);
        }
    }
    if !lost {
        return None;
    }
    assert(a > 9007199254740992);
    let mut msg = String::from_str("integer exceeds JavaScript's safe range and loses precision (");
    let mut k = start;
    let ghost m0 = msg@;
    while k < end
        invariant
            start <= k <= end <= src@.len(),
            msg@ == m0 + ascii_text(src@.subrange(start as int, k as int)),
        decreases end - k,
    {
        push_char(&mut msg, char_of_byte(src[k]));
        k = k + 1;
        proof {
            assert(ascii_text(src@.subrange(start as int, k as int))
                =~= ascii_text(src@.subrange(start as int, k - 1)).push(byte_char(src@[k - 1])));
        }
    }
    msg.append(" becomes ");
    let ghost m1 = msg@;
    if neg {
        msg.append("-");
    }
    let ghost m2 = msg@;
    match finite {
        Some(ds) => {
            let mut t: usize = 0;
            while t < ds.len()
                invariant
                    t <= ds@.len(),
                    msg@ == m2 + ascii_text(ds@.subrange(0, t as int)),
                decreases ds@.len() - t,
            {
                push_char(&mut msg, char_of_byte(ds[t]));
                t = t + 1;
                proof {
                    assert(ascii_text(ds@.subrange(0, t as int)) =~= ascii_text(ds@.subrange(0, t - 1)).push(
                        byte_char(ds@[t - 1]),
                    ));
                }
            }
            assert(ds@.subrange(0, ds@.len() as int) =~= ds@);
        },
        None => {
            msg.append("inf");
        },
    }
    msg.append(")");
    proof {
        reveal_strlit("-");
        let body = if double_overflows(a) { "inf"@ } else { decimal(round_to_double(a)) };
        assert(double_text(v) == if neg { "-"@ + body } else { body });
        assert(msg@ =~= "integer exceeds JavaScript's safe range and loses precision ("@ + ascii_text(text)
            + " becomes "@ + double_text(v) + ")"@);
    }
    Some(msg)
}

pub open spec fn opt_view(o: Option<String>) -> Option<Seq<char>> {
    match o {
        Some(s) => Some(s@),
        None => None,
    }
}

/// Once a prefix of the digits overflows `u128`, the whole numeral is out of range.
pub proof fn lemma_digits_value_large(src: Seq<u8>, d0: int, i: int, end: int)
    requires
        0 <= d0 < i <= end <= src.len(),
        digits_value(src.subrange(d0, i)) > u128::MAX,
    ensures
        digits_value(src.subrange(d0, end)) > u128::MAX,
    decreases end - i,
{
    if i < end {
        let nxt = src.subrange(d0, i + 1);
        assert(nxt.drop_last() =~= src.subrange(d0, i));
        lemma_digits_value_large(src, d0, i + 1, end);
    }
}

} // verus!
