//! Renderings of integers that the typed columns need: decimal text, and the
//! bits of the nearest IEEE-754 binary64 number.

use vstd::arithmetic::power2::{
    lemma2_to64, lemma2_to64_rest, lemma_pow2_adds, lemma_pow2_pos, lemma_pow2_strictly_increases,
    lemma_pow2_unfold, pow2,
};
use vstd::prelude::*;
use vstd::string::*;

verus! {

/// The character of a decimal digit.
pub open spec fn digit_char(d: int) -> char {
    if d == 0 {
        '0'
    } else if d == 1 {
        '1'
    } else if d == 2 {
        '2'
    } else if d == 3 {
        '3'
    } else if d == 4 {
        '4'
    } else if d == 5 {
        '5'
    } else if d == 6 {
        '6'
    } else if d == 7 {
        '7'
    } else if d == 8 {
        '8'
    } else {
        '9'
    }
}

/// The decimal digits of a natural number, most significant first, without
/// leading zeros (zero is the single digit `0`).
pub open spec fn decimal_digits(n: nat) -> Seq<char>
    decreases n,
{
    if n < 10 {
        seq![digit_char(n as int)]
    } else {
        decimal_digits(n / 10).push(digit_char((n % 10) as int))
    }
}

/// The canonical decimal form of an integer: a minus sign for a negative
/// number, then the digits of its magnitude.
pub open spec fn decimal(i: int) -> Seq<char> {
    if i < 0 {
        seq!['-'] + decimal_digits((-i) as nat)
    } else {
        decimal_digits(i as nat)
    }
}

fn digit_text(d: u64) -> (s: &'static str)
    requires
        d < 10,
    ensures
        s@ == seq![digit_char(d as int)],
{
    proof {
        reveal_strlit("0");
        reveal_strlit("1");
        reveal_strlit("2");
        reveal_strlit("3");
        reveal_strlit("4");
        reveal_strlit("5");
        reveal_strlit("6");
        reveal_strlit("7");
        reveal_strlit("8");
        reveal_strlit("9");
    }
    let s = if d == 0 {
        "0"
    } else if d == 1 {
        "1"
    } else if d == 2 {
        "2"
    } else if d == 3 {
        "3"
    } else if d == 4 {
        "4"
    } else if d == 5 {
        "5"
    } else if d == 6 {
        "6"
    } else if d == 7 {
        "7"
    } else if d == 8 {
        "8"
    } else {
        "9"
    };
    s
}

/// The magnitude of an integer.
pub fn magnitude(i: i64) -> (m: u64)
    ensures
        m == if i < 0 {
            -(i as int)
        } else {
            i as int
        },
{
    if i < 0 {
        let below: i64 = -(i + 1);
        (below as u64) + 1
    } else {
        i as u64
    }
}

/// Renders an integer in its canonical decimal form.
pub fn int_to_text(i: i64) -> (text: String)
    ensures
        text@ == decimal(i as int),
{
    let whole: u64 = magnitude(i);
    let mut digits: Vec<u64> = Vec::new();
    digits.push(whole % 10);
    let mut rest: u64 = whole / 10;
    let ghost mut tail: Seq<char> = seq![digit_char((whole % 10) as int)];
    while rest > 0
        invariant
            digits.len() == tail.len(),
            digits.len() >= 1,
            forall|j: int|
                0 <= j < digits.len() ==> digits[j] < 10 && tail[tail.len() - 1 - j] == digit_char(
                    digits[j] as int,
                ),
            rest > 0 ==> decimal_digits(whole as nat) == decimal_digits(rest as nat) + tail,
            rest == 0 ==> decimal_digits(whole as nat) == tail,
        decreases rest,
    {
        let d: u64 = rest % 10;
        proof {
            tail = seq![digit_char(d as int)] + tail;
        }
        digits.push(d);
        rest = rest / 10;
    }
    let mut text = String::new();
    if i < 0 {
        proof {
            reveal_strlit("-");
        }
        text.append("-");
    }
    let ghost sign = text@;
    let mut k: usize = digits.len();
    while k > 0
        invariant
            k <= digits.len(),
            digits.len() == tail.len(),
            forall|j: int|
                0 <= j < digits.len() ==> digits[j] < 10 && tail[tail.len() - 1 - j] == digit_char(
                    digits[j] as int,
                ),
            text@ == sign + tail.take(digits.len() - k),
        decreases k,
    {
        k -= 1;
        text.append(digit_text(digits[k]));
    }
    text
}

/// The number of binary digits of a natural number (zero has none).
pub open spec fn bit_length(m: nat) -> nat
    decreases m,
{
    if m == 0 {
        0
    } else {
        1 + bit_length(m / 2)
    }
}

/// `m / 2^shift`, rounded to the nearest integer; a tie goes to the even one.
pub open spec fn round_half_even(m: nat, shift: nat) -> nat {
    let unit = pow2(shift);
    let quotient = m / unit;
    let rest = m % unit;
    if 2 * rest > unit || (2 * rest == unit && quotient % 2 == 1) {
        quotient + 1
    } else {
        quotient
    }
}

/// The 53-digit significand of the binary64 number nearest to `m >= 1`: `m`
/// scaled up to 53 binary digits where it has fewer, rounded to 53 digits
/// (ties to even) where it has more. Rounding up may reach `2^53`.
pub open spec fn significand(m: nat) -> nat {
    let len = bit_length(m);
    if len <= 53 {
        m * pow2((53 - len) as nat)
    } else {
        round_half_even(m, (len - 53) as nat)
    }
}

/// The exponent and fraction fields of the binary64 number nearest to `m >= 1`
/// (round to nearest, ties to even): the biased exponent `1022 + bit_length(m)`
/// in bits 52 to 62, and the significand without its leading digit below it.
/// A significand of `2^53` carries into the exponent.
pub open spec fn binary64_of_magnitude(m: nat) -> nat {
    ((1022 + bit_length(m)) * pow2(52) + significand(m) - pow2(52)) as nat
}

/// The 64 bits of the IEEE-754 binary64 number that an integer converts to
/// (round to nearest, ties to even): zero is all zero bits, and a negative
/// number has the sign bit set above the encoding of its magnitude.
pub open spec fn float_bits_of_int(i: int) -> nat {
    if i == 0 {
        0
    } else if i > 0 {
        binary64_of_magnitude(i as nat)
    } else {
        pow2(63) + binary64_of_magnitude((-i) as nat)
    }
}

/// A number with `len >= 1` binary digits lies in `[2^(len-1), 2^len)`.
pub proof fn lemma_bit_length_bounds(m: nat)
    requires
        m > 0,
    ensures
        bit_length(m) >= 1,
        pow2((bit_length(m) - 1) as nat) <= m < pow2(bit_length(m)),
    decreases m,
{
    lemma2_to64();
    if m == 1 {
        assert(bit_length(1) == 1 + bit_length(0));
    } else {
        lemma_bit_length_bounds(m / 2);
        let len = bit_length(m / 2);
        lemma_pow2_unfold(len);
        lemma_pow2_unfold(len + 1);
    }
}

/// The significand is the nearest one. It has 53 binary digits, or is `2^53`.
/// Scaled back by `2^(bit_length(m) - 53)` it is `m` itself where `m` has at
/// most 53 digits; where `m` has more, it is off by at most half a unit in the
/// last place, and by exactly half a unit only if the significand is even.
pub proof fn lemma_significand_is_nearest(m: nat)
    requires
        m > 0,
    ensures
        pow2(52) <= significand(m) <= pow2(53),
        bit_length(m) <= 53 ==> significand(m) == m * pow2((53 - bit_length(m)) as nat),
        bit_length(m) > 53 ==> ({
            let unit = pow2((bit_length(m) - 53) as nat);
            let error = significand(m) * unit - m;
            &&& -unit <= 2 * error <= unit
            &&& (2 * error == unit || 2 * error == -unit) ==> significand(m) % 2 == 0
        }),
{
    lemma_bit_length_bounds(m);
    let len = bit_length(m);
    let lower = pow2((len - 1) as nat);
    let upper = pow2(len);
    let p52 = pow2(52);
    let p53 = pow2(53);
    lemma_pow2_unfold(53);
    if len <= 53 {
        let scale = pow2((53 - len) as nat);
        lemma_pow2_pos((53 - len) as nat);
        lemma_pow2_adds(len, (53 - len) as nat);
        lemma_pow2_adds((len - 1) as nat, (53 - len) as nat);
        assert(m * scale < upper * scale) by (nonlinear_arith)
            requires
                m < upper,
                scale > 0,
        ;
        assert(lower * scale <= m * scale) by (nonlinear_arith)
            requires
                lower <= m,
                scale > 0,
        ;
    } else {
        let unit = pow2((len - 53) as nat);
        let quotient = m / unit;
        let rest = m % unit;
        lemma_pow2_pos((len - 53) as nat);
        lemma_pow2_adds(53, (len - 53) as nat);
        lemma_pow2_adds(52, (len - 53) as nat);
        assert(m == quotient * unit + rest && 0 <= rest < unit) by (nonlinear_arith)
            requires
                unit > 0,
                quotient == m / unit,
                rest == m % unit,
        ;
        assert(quotient >= p52) by (nonlinear_arith)
            requires
                m >= p52 * unit,
                unit > 0,
                m == quotient * unit + rest,
                rest < unit,
        ;
        assert(quotient < p53) by (nonlinear_arith)
            requires
                m < p53 * unit,
                unit > 0,
                m == quotient * unit + rest,
                0 <= rest,
        ;
        assert((quotient + 1) * unit == quotient * unit + unit) by (nonlinear_arith);
    }
}

fn power_of_two(k: u64) -> (p: u64)
    requires
        k < 64,
    ensures
        p == pow2(k as nat),
{
    let mut p: u64 = 1;
    let mut j: u64 = 0;
    proof {
        lemma2_to64();
    }
    while j < k
        invariant
            j <= k < 64,
            p == pow2(j as nat),
        decreases k - j,
    {
        proof {
            lemma2_to64_rest();
            lemma_pow2_unfold((j + 1) as nat);
            if j < 62 {
                lemma_pow2_strictly_increases(j as nat, 62);
            }
        }
        p = p * 2;
        j = j + 1;
    }
    p
}

/// Converts an integer to the bits of the nearest IEEE-754 binary64 number,
/// rounding to nearest with ties to even, as a cast of the integer to a
/// binary64 float does.
pub fn int_to_float_bits(i: i64) -> (bits: u64)
    ensures
        bits == float_bits_of_int(i as int),
{
    if i == 0 {
        return 0;
    }
    let m: u64 = magnitude(i);
    let mut len: u64 = 0;
    let mut rest: u64 = m;
    proof {
        lemma2_to64();
        lemma2_to64_rest();
    }
    while rest > 0
        invariant
            len <= 64,
            rest < pow2((64 - len) as nat),
            bit_length(m as nat) == len + bit_length(rest as nat),
        decreases rest,
    {
        proof {
            lemma2_to64();
            if len < 64 {
                lemma_pow2_unfold((64 - len) as nat);
            }
        }
        rest = rest / 2;
        len = len + 1;
    }
    proof {
        lemma_significand_is_nearest(m as nat);
    }
    let sig: u64 = if len <= 53 {
        m * power_of_two(53 - len)
    } else {
        let unit = power_of_two(len - 53);
        proof {
            lemma_pow2_strictly_increases((len - 53) as nat, 12);
        }
        let quotient = m / unit;
        let left = m % unit;
        if 2 * left > unit || (2 * left == unit && quotient % 2 == 1) {
            quotient + 1
        } else {
            quotient
        }
    };
    let magnitude_bits: u64 = (1022 + len) * 0x10_0000_0000_0000 + (sig - 0x10_0000_0000_0000);
    if i < 0 {
        magnitude_bits + 0x8000_0000_0000_0000
    } else {
        magnitude_bits
    }
}

} // verus!
