//! Rounding, and integers with decimal places.

use crate::number;
use crate::text;
use vstd::prelude::*;

verus! {

/// An integer with decimal places has only zeros behind the point.
pub proof fn law_integers_with_places(n: nat, p: nat)
    requires
        n < 0x20_0000_0000_0000,
        p > 0,
    ensures
        number::fixed(number::of_integer(n), p) == text::decimal(n) + seq!['.'] + Seq::new(p, |i: int| '0'),
{
    let x = number::of_integer(n);
    number::lemma_integer_bounds(n);
    number::lemma_pow10_positive(p);
    let q: nat = if n == 0 {
        x.below()
    } else {
        number::lemma_pow2_small();
        let k = number::lemma_top_bit(n, 52);
        number::lemma_integer_pattern(n, k);
        number::lemma_pow2_positive((52 - k) as nat);
        let q = number::pow2((52 - k) as nat);
        assert(x.biased() == k + 1023);
        assert(x.mantissa() == n * q);
        assert(x.exponent() == k - 52);
        assert(x.below() == q);
        assert((n * q) * 1 == n * q) by (nonlinear_arith);
        q
    };
    if n == 0 {
        number::lemma_zero_is_whole(x);
        assert(x.mantissa() == 0);
        assert(0 * number::up2(x.exponent()) == 0) by (nonlinear_arith);
        number::lemma_pow2_positive(1074);
        assert(0 * q == 0) by (nonlinear_arith);
    }
    assert(x.above() == n * q && x.below() == q && q > 0);
    let t = number::pow10(p);
    assert((n * q) * t == (n * t) * q) by (nonlinear_arith);
    assert((n * t) * q + 0 == (n * t) * q);
    number::lemma_div_unique((n * t) * q, q, n * t, 0);
    assert(number::half_even(x.above() * t, q) == n * t);
    number::lemma_div_unique(n * t, t, n, 0);
    reveal_strlit(".");
    assert("."@ =~= seq!['.']);
    assert(text::decimal(0) =~= seq!['0']);
    assert(text::zero_padded(text::decimal(0), p) =~= Seq::new(p, |i: int| '0'));
    assert(number::fixed(x, p) =~= text::decimal(n) + seq!['.'] + Seq::new(p, |i: int| '0'));
}

/// Rounding to an integer takes the nearest one, and the even one of two that
/// are equally near.
pub proof fn law_half_even(n: nat, d: nat)
    requires
        d > 0,
    ensures
        -(d as int) <= 2 * (number::half_even(n, d) * d - n) <= d,
        2 * (number::half_even(n, d) * d - n) == d || 2 * (n - number::half_even(n, d) * d) == d ==> number::half_even(n, d)
            % 2 == 0,
{
    let q = n / d;
    let r = n % d;
    vstd::arithmetic::div_mod::lemma_fundamental_div_mod(n as int, d as int);
    vstd::arithmetic::div_mod::lemma_mod_bound(n as int, d as int);
    assert(n == q * d + r) by (nonlinear_arith)
        requires
            n == d * q + r,
    ;
    assert((q + 1) * d == q * d + d) by (nonlinear_arith);
}

/// A ratio below `2^1024` is rounded to a number that lies no further from it
/// than half the distance to the next number, and of two numbers equally near
/// to the one whose last bit is zero; only a ratio above all numbers and past
/// the middle to where the next one would be gives infinity.
pub proof fn law_rounded_is_nearest(negative: bool, n: nat, d: nat)
    requires
        n > 0,
        d > 0,
        n < d * number::pow2(1024),
    ensures
        ({
            let x = number::rounded(negative, n, d);
            let miss = x.above() * d - n * x.below();
            let gap = d * number::up2(x.exponent());
            &&& x.negative() == negative
            &&& !x.nan()
            &&& x.infinite() ==> 2 * n >= 0x3F_FFFF_FFFF_FFFF * (d * number::pow2(971))
            &&& !x.infinite() ==> -gap <= 2 * miss <= gap
            &&& !x.infinite() && (2 * miss == gap || 2 * miss == -gap) ==> x.mantissa() % 2 == 0
        }),
{
    assert(n * 1 == n) by (nonlinear_arith);
    assert(number::less_pow2(n, d, 1024));
    let e = number::lemma_exponent_exists(n, d, -1074, 971);
    number::lemma_exponent_unique(n, d, e);
    number::lemma_quotient_bound(n, d, e);
    let a = n * number::up2(-e);
    let b = d * number::up2(e);
    if e > 0 {
        number::lemma_pow2_positive(e as nat);
    }
    assert(b > 0) by (nonlinear_arith)
        requires
            d > 0,
            number::up2(e) > 0,
            b == d * number::up2(e),
    ;
    let q = a / b;
    let m = number::half_even(a, b);
    law_half_even(a, b);
    vstd::arithmetic::div_mod::lemma_fundamental_div_mod(a as int, b as int);
    vstd::arithmetic::div_mod::lemma_mod_bound(a as int, b as int);
    assert(q < 0x20_0000_0000_0000) by (nonlinear_arith)
        requires
            a == b * q + a % b,
            a % b >= 0,
            a < b * 0x20_0000_0000_0000,
            b > 0,
    ;
    number::lemma_pow2_small();
    if e > -1074 {
        number::lemma_less_pow2_shift(n, d, e, 52);
        assert(q >= 0x10_0000_0000_0000) by (nonlinear_arith)
            requires
                a == b * q + a % b,
                a % b < b,
                a >= b * 0x10_0000_0000_0000,
                b > 0,
        ;
    }
    if m == 0x20_0000_0000_0000 {
        lemma_rounded_up(negative, n, d, e);
    } else {
        lemma_rounded_within(negative, n, d, e, m);
    }
}

/// The case in which rounding keeps the exponent.
proof fn lemma_rounded_within(negative: bool, n: nat, d: nat, e: int, m: nat)
    requires
        n > 0,
        d > 0,
        number::less_pow2(n, d, 1024),
        -1074 <= e <= 971,
        number::is_exponent(n, d, e),
        m == number::half_even(n * number::up2(-e), d * number::up2(e)),
        m < 0x20_0000_0000_0000,
        e > -1074 ==> m >= 0x10_0000_0000_0000,
        d * number::up2(e) > 0,
    ensures
        ({
            let x = number::rounded(negative, n, d);
            let miss = x.above() * d - n * x.below();
            let gap = d * number::up2(x.exponent());
            &&& x.negative() == negative
            &&& !x.nan()
            &&& !x.infinite()
            &&& -gap <= 2 * miss <= gap
            &&& 2 * miss == gap || 2 * miss == -gap ==> x.mantissa() % 2 == 0
        }),
{
    number::lemma_exponent_unique(n, d, e);
    let a = n * number::up2(-e);
    let b = d * number::up2(e);
    law_half_even(a, b);
    let x = number::rounded(negative, n, d);
    assert(x == number::assemble(negative, m, e));
    assert(x.mantissa() == m && x.exponent() == e);
    let u = number::up2(e);
    assert((m * u) * d == m * (d * u)) by (nonlinear_arith);
    assert(x.above() * d - n * x.below() == m * b - a);
}

/// The case in which rounding leads to the next power of two.
proof fn lemma_rounded_up(negative: bool, n: nat, d: nat, e: int)
    requires
        n > 0,
        d > 0,
        n < d * number::pow2(1024),
        -1074 <= e <= 971,
        number::is_exponent(n, d, e),
        n * number::up2(-e) < (d * number::up2(e)) * 0x20_0000_0000_0000,
        number::half_even(n * number::up2(-e), d * number::up2(e)) == 0x20_0000_0000_0000,
    ensures
        ({
            let x = number::rounded(negative, n, d);
            let miss = x.above() * d - n * x.below();
            let gap = d * number::up2(x.exponent());
            &&& x.negative() == negative
            &&& !x.nan()
            &&& x.infinite() ==> 2 * n >= 0x3F_FFFF_FFFF_FFFF * (d * number::pow2(971))
            &&& !x.infinite() ==> -gap <= 2 * miss <= gap
            &&& !x.infinite() && (2 * miss == gap || 2 * miss == -gap) ==> x.mantissa() % 2 == 0
        }),
{
    assert(n * 1 == n) by (nonlinear_arith);
    number::lemma_exponent_unique(n, d, e);
    let a = n * number::up2(-e);
    let b = d * number::up2(e);
    let m = 0x20_0000_0000_0000nat;
    let h = 0x10_0000_0000_0000nat;
    if e > 0 {
        number::lemma_pow2_positive(e as nat);
    }
    assert(b > 0) by (nonlinear_arith)
        requires
            d > 0,
            number::up2(e) > 0,
            b == d * number::up2(e),
    ;
    law_half_even(a, b);
    let x = number::rounded(negative, n, d);
    assert(x == number::assemble(negative, h, e + 1));
    if e == 971 {
        assert(x.infinite());
        assert(number::up2(-e) == 1 && number::up2(e) == number::pow2(971));
        assert(2 * (m * b - a) <= b);
        assert(2 * a >= 0x3F_FFFF_FFFF_FFFF * b) by (nonlinear_arith)
            requires
                2 * (m * b - a) <= b,
                m == 0x20_0000_0000_0000,
        ;
    } else {
        assert(x.mantissa() == h && x.exponent() == e + 1);
        let (u, v) = (number::up2(e + 1), number::up2(-(e + 1)));
        if e >= 0 {
            number::lemma_up2_step(h, e);
            number::lemma_up2_step(d, e);
            number::lemma_up2_step(n, -e);
            number::lemma_up2_step(n, -(e + 1));
            let w = number::up2(e);
            assert(h * u == m * w) by (nonlinear_arith)
                requires
                    h * u == 2 * (h * w),
                    m == 2 * h,
            ;
            assert((m * w) * d == m * (d * w)) by (nonlinear_arith);
            assert(x.above() * d - n * x.below() == m * b - a);
        } else {
            number::lemma_up2_step(h, e + 1);
            number::lemma_up2_step(d, e);
            number::lemma_up2_step(d, e + 1);
            number::lemma_up2_step(n, -(e + 1));
            assert(a == 2 * (n * v));
            assert(x.above() == h);
            assert(m * d == 2 * (h * d)) by (nonlinear_arith)
                requires
                    m == 2 * h,
            ;
            assert(2 * (x.above() * d - n * x.below()) == m * b - a);
        }
    }
}

/// The digits of a power of ten as it is written: nothing, or the letter, a
/// sign where there is one, and digits.
pub struct Power {
    pub letter: char,
    pub sign: Option<bool>,
    pub digits: Seq<char>,
}

/// All characters are decimal digits.
pub open spec fn digits(s: Seq<char>) -> bool {
    forall|k: int| 0 <= k < s.len() ==> '0' <= #[trigger] s[k] <= '9'
}

pub open spec fn sound_power(p: Option<Power>) -> bool {
    p matches Some(q) ==> (q.letter == 'e' || q.letter == 'E') && q.digits.len() > 0 && digits(
        q.digits,
    )
}

pub open spec fn power_text(p: Option<Power>) -> Seq<char> {
    match p {
        None => seq![],
        Some(q) => seq![q.letter] + (match q.sign {
            None => seq![],
            Some(minus) => if minus {
                seq!['-']
            } else {
                seq!['+']
            },
        }) + q.digits,
    }
}

/// The power `x` is the one that is written.
pub open spec fn power_of(p: Option<Power>, x: int) -> bool {
    match p {
        None => x == 0,
        Some(q) => text::digits_value(q.digits, 10) matches Some(v) && x == (if q.sign == Some(
            true,
        ) {
            -v
        } else {
            v as int
        }),
    }
}

proof fn lemma_power(s: Seq<char>, b: int, p: Option<Power>, x: int)
    requires
        0 <= b <= s.len(),
        s.skip(b) == power_text(p),
        sound_power(p),
        power_of(p, x),
    ensures
        number::exponent_part(s, b) == Some(x),
{
    let t = s.skip(b);
    assert(t.len() == s.len() - b);
    assert forall|j: int| 0 <= j < t.len() implies s[b + j] == #[trigger] t[j] by {}
    if let Some(q) = p {
        assert(t[0] == q.letter);
        assert(s[b] == t[0]);
        let k: int = if q.sign is Some {
            2
        } else {
            1
        };
        assert(t.skip(k) =~= q.digits);
        assert(s.skip(b + k) =~= q.digits) by {
            assert(s.skip(b + k) =~= t.skip(k));
        }
        assert(t[1] == if q.sign is None {
            q.digits[0]
        } else if q.sign == Some(true) {
            '-'
        } else {
            '+'
        });
        assert(s[b + 1] == t[1]);
        assert('0' <= q.digits[0] <= '9');
        assert forall|j: int| b + k <= j < s.len() implies text::ascii_digit(#[trigger] s[j]) by {
            assert(s[j] == q.digits[j - b - k]);
        }
        number::lemma_digit_run(s, b + k, s.len() as int);
    }
}

/// Digits with a point among them, and a power of ten behind them, read as the
/// number nearest to what they write: all digits as one integer, times ten to
/// the power, less the digits behind the point.
pub proof fn law_decimals_in_text(
    negative: bool,
    a: Seq<char>,
    point: bool,
    f: Seq<char>,
    p: Option<Power>,
    c: nat,
    x: int,
)
    requires
        digits(a),
        digits(f),
        a.len() + f.len() > 0,
        !point ==> f.len() == 0,
        sound_power(p),
        text::digits_value(a + f, 10) == Some(c),
        power_of(p, x),
    ensures
        ({
            let dot = if point {
                seq!['.']
            } else {
                seq![]
            };
            let t = a + dot + f + power_text(p);
            let sign = if negative {
                seq!['-']
            } else {
                seq![]
            };
            number::read(sign + t) == Some(number::decimal_number(negative, c, x - f.len()))
        }),
{
    let dot: Seq<char> = if point {
        seq!['.']
    } else {
        seq![]
    };
    let t = a + dot + f + power_text(p);
    let sign: Seq<char> = if negative {
        seq!['-']
    } else {
        seq![]
    };
    let s = sign + t;
    lemma_not_a_word(t, a, dot, f, p);
    if negative {
        assert(s[0] == '-');
        assert(s.skip(1) =~= t);
    } else {
        assert(s =~= t);
    }
    let n = a.len() as int;
    assert forall|k: int| 0 <= k < n implies text::ascii_digit(#[trigger] t[k]) by {
        assert(t[k] == a[k]);
    }
    let e = power_text(p);
    if n < t.len() {
        assert(t[n] == if point {
            '.'
        } else {
            e[0]
        });
    }
    number::lemma_digit_run(t, 0, n);
    let b = n + dot.len() + f.len();
    assert(t.skip(b) =~= e);
    if point {
        assert forall|k: int| n + 1 <= k < b implies text::ascii_digit(#[trigger] t[k]) by {
            assert(t[k] == f[k - n - 1]);
        }
        if b < t.len() {
            assert(t[b] == e[0]);
        }
        number::lemma_digit_run(t, n + 1, b);
        assert(t.subrange(n + 1, b) =~= f);
    } else {
        assert(f =~= seq![]);
    }
    assert(t.take(n) =~= a);
    lemma_power(t, b, p, x);
    assert(number::numeral(t) == Some((c, x - f.len())));
}

/// What begins with a digit or a point is none of the words.
proof fn lemma_not_a_word(
    t: Seq<char>,
    a: Seq<char>,
    dot: Seq<char>,
    f: Seq<char>,
    p: Option<Power>,
)
    requires
        t == a + dot + f + power_text(p),
        digits(a),
        digits(f),
        a.len() + f.len() > 0,
        dot.len() == 0 || dot == seq!['.'],
        dot.len() == 0 ==> f.len() == 0,
    ensures
        t.len() > 0,
        t[0] != '-' && t[0] != '+',
        !text::same_letters(t, "nan"@),
        !text::same_letters(t, "inf"@),
        !text::same_letters(t, "infinity"@),
{
    reveal_strlit("nan");
    reveal_strlit("inf");
    reveal_strlit("infinity");
    assert(t[0] == if a.len() > 0 {
        a[0]
    } else {
        '.'
    });
    let low = text::ascii_lower(t);
    assert(low[0] == t[0]);
    assert(text::ascii_lower("nan"@)[0] == 'n');
    assert(text::ascii_lower("inf"@)[0] == 'i');
    assert(text::ascii_lower("infinity"@)[0] == 'i');
}

} // verus!
