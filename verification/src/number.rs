//! Double-precision numbers (IEEE 754 binary64) in integer arithmetic.
//!
//! A number is its 64-bit pattern. Every operation is specified as the exact
//! rational result, rounded once to the nearest representable number with
//! ties to the even one, and is computed with natural numbers of any size.

use crate::big::Natural;
use crate::text;
use vstd::prelude::*;
use vstd::slice::slice_subrange;

verus! {

/// Two to the power `k`.
pub open spec fn pow2(k: nat) -> nat
    decreases k,
{
    if k == 0 {
        1
    } else {
        2 * pow2((k - 1) as nat)
    }
}

/// Ten to the power `k`.
pub open spec fn pow10(k: nat) -> nat
    decreases k,
{
    if k == 0 {
        1
    } else {
        10 * pow10((k - 1) as nat)
    }
}

/// Two to the power `k`, one for a negative `k`.
pub open spec fn up2(k: int) -> nat {
    if k > 0 {
        pow2(k as nat)
    } else {
        1
    }
}

/// Ten to the power `k`, one for a negative `k`.
pub open spec fn up10(k: int) -> nat {
    if k > 0 {
        pow10(k as nat)
    } else {
        1
    }
}

/// A double-precision number, as its bit pattern: the sign in the highest
/// bit, then eleven bits of biased exponent, then 52 bits of fraction.
#[derive(Debug, Clone, Copy)]
pub struct Number {
    pub bits: u64,
}

impl Number {
    pub open spec fn negative(self) -> bool {
        self.bits >= 0x8000_0000_0000_0000
    }

    /// The pattern without its sign.
    pub open spec fn magnitude(self) -> int {
        self.bits as int % 0x8000_0000_0000_0000
    }

    pub open spec fn biased(self) -> int {
        self.magnitude() / 0x10_0000_0000_0000
    }

    pub open spec fn fraction(self) -> int {
        self.bits as int % 0x10_0000_0000_0000
    }

    pub open spec fn nan(self) -> bool {
        self.biased() == 2047 && self.fraction() != 0
    }

    pub open spec fn infinite(self) -> bool {
        self.biased() == 2047 && self.fraction() == 0
    }

    pub open spec fn finite(self) -> bool {
        self.biased() < 2047
    }

    /// A finite number is `mantissa * 2^exponent`, up to its sign.
    pub open spec fn mantissa(self) -> nat {
        if self.biased() == 0 {
            self.fraction() as nat
        } else {
            (self.fraction() + 0x10_0000_0000_0000) as nat
        }
    }

    pub open spec fn exponent(self) -> int {
        if self.biased() == 0 {
            -1074
        } else {
            self.biased() - 1075
        }
    }

    /// The size of a finite number as a fraction: the part above the line.
    pub open spec fn above(self) -> nat {
        self.mantissa() * up2(self.exponent())
    }

    /// The size of a finite number as a fraction: the part below the line.
    pub open spec fn below(self) -> nat {
        up2(-self.exponent())
    }
}

/// The number with the given sign, mantissa and exponent, in canonical form.
pub open spec fn assemble(negative: bool, m: nat, e: int) -> Number {
    let sign = if negative {
        0x8000_0000_0000_0000int
    } else {
        0
    };
    let size = if m < 0x10_0000_0000_0000 {
        m as int
    } else {
        (e + 1075) * 0x10_0000_0000_0000 + (m - 0x10_0000_0000_0000)
    };
    Number { bits: (sign + size) as u64 }
}

/// Zero with a sign.
pub open spec fn zero(negative: bool) -> Number {
    assemble(negative, 0, -1074)
}

/// Infinity with a sign.
pub open spec fn infinity(negative: bool) -> Number {
    assemble(negative, 0x10_0000_0000_0000, 972)
}

/// The quiet not-a-number.
pub open spec fn not_a_number() -> Number {
    Number { bits: 0x7FF8_0000_0000_0000 }
}

/// The same number with the sign cleared.
pub open spec fn absolute(n: Number) -> Number {
    Number { bits: n.magnitude() as u64 }
}

// ----------------------------------------------------------- rounding ----

/// `n / d < 2^k`.
pub open spec fn less_pow2(n: nat, d: nat, k: int) -> bool {
    n * up2(-k) < d * up2(k)
}

/// `e` is the exponent at which `n / d` has a mantissa of 53 bits, or the
/// smallest exponent there is.
pub open spec fn is_exponent(n: nat, d: nat, e: int) -> bool {
    &&& e >= -1074
    &&& less_pow2(n, d, e + 53)
    &&& e == -1074 || !less_pow2(n, d, e + 52)
}

pub open spec fn ratio_exponent(n: nat, d: nat) -> int {
    choose|e: int| is_exponent(n, d, e)
}

/// `n / d` rounded to the nearest integer, ties to the even one.
pub open spec fn half_even(n: nat, d: nat) -> nat {
    let q = n / d;
    let r = n % d;
    if 2 * r > d || (2 * r == d && q % 2 == 1) {
        q + 1
    } else {
        q
    }
}

/// The number nearest to `n / d`, with the given sign.
pub open spec fn rounded(negative: bool, n: nat, d: nat) -> Number {
    if n == 0 {
        zero(negative)
    } else if !less_pow2(n, d, 1024) {
        infinity(negative)
    } else {
        let e = ratio_exponent(n, d);
        let m = half_even(n * up2(-e), d * up2(e));
        if m == 0x20_0000_0000_0000 {
            assemble(negative, 0x10_0000_0000_0000, e + 1)
        } else {
            assemble(negative, m, e)
        }
    }
}

/// The number nearest to `m * 2^e`.
pub open spec fn scaled(negative: bool, m: nat, e: int) -> Number {
    rounded(negative, m * up2(e), up2(-e))
}

/// The number nearest to `c * 10^y`.
pub open spec fn decimal_number(negative: bool, c: nat, y: int) -> Number {
    rounded(negative, c * up10(y), up10(-y))
}

pub proof fn lemma_pow2_positive(k: nat)
    ensures
        pow2(k) > 0,
    decreases k,
{
    if k > 0 {
        lemma_pow2_positive((k - 1) as nat);
    }
}

pub proof fn lemma_pow10_positive(k: nat)
    ensures
        pow10(k) > 0,
    decreases k,
{
    if k > 0 {
        lemma_pow10_positive((k - 1) as nat);
    }
}

pub proof fn lemma_pow2_sum(a: nat, b: nat)
    ensures
        pow2(a + b) == pow2(a) * pow2(b),
    decreases a,
{
    let v = pow2(b);
    if a > 0 {
        lemma_pow2_sum((a - 1) as nat, b);
        let w = pow2((a - 1) as nat);
        assert((2 * w) * v == 2 * (w * v)) by (nonlinear_arith);
        assert((a + b - 1) as nat == (a - 1) as nat + b);
    } else {
        assert(1 * v == v) by (nonlinear_arith);
        assert(pow2(0) * v == v) by (nonlinear_arith)
            requires
                pow2(0) == 1,
        ;
    }
}

pub proof fn lemma_pow10_sum(a: nat, b: nat)
    ensures
        pow10(a + b) == pow10(a) * pow10(b),
    decreases a,
{
    let v = pow10(b);
    if a > 0 {
        lemma_pow10_sum((a - 1) as nat, b);
        let w = pow10((a - 1) as nat);
        assert((10 * w) * v == 10 * (w * v)) by (nonlinear_arith);
        assert((a + b - 1) as nat == (a - 1) as nat + b);
    } else {
        assert(pow10(0) * v == v) by (nonlinear_arith)
            requires
                pow10(0) == 1,
        ;
    }
}

/// `n * 2^k` for a `k` that is not positive, and its doubling otherwise.
pub(crate) proof fn lemma_up2_step(n: nat, k: int)
    ensures
        k <= 0 ==> n * up2(k) == n,
        k >= 0 ==> n * up2(k + 1) == 2 * (n * up2(k)),
{
    if k <= 0 {
        assert(n * 1 == n) by (nonlinear_arith);
    }
    if k >= 0 {
        let w = up2(k);
        reveal_with_fuel(pow2, 2);
        assert(up2(k + 1) == 2 * w);
        assert(n * (2 * w) == 2 * (n * w)) by (nonlinear_arith);
    }
}

proof fn lemma_up10_step(n: nat, k: int)
    ensures
        k <= 0 ==> n * up10(k) == n,
        k >= 0 ==> n * up10(k + 1) == 10 * (n * up10(k)),
{
    if k <= 0 {
        assert(n * 1 == n) by (nonlinear_arith);
    }
    if k >= 0 {
        let w = up10(k);
        reveal_with_fuel(pow10, 2);
        assert(up10(k + 1) == 10 * w);
        assert(n * (10 * w) == 10 * (n * w)) by (nonlinear_arith);
    }
}

/// Being below a power of two is kept by the higher powers.
proof fn lemma_less_pow2_up(n: nat, d: nat, k: int, j: int)
    requires
        less_pow2(n, d, k),
        k <= j,
        d > 0,
    ensures
        less_pow2(n, d, j),
    decreases j - k,
{
    if k < j {
        if k >= 0 {
            lemma_up2_step(d, k);
            lemma_up2_step(n, -k);
            lemma_up2_step(n, -(k + 1));
        } else {
            lemma_up2_step(n, -k - 1);
            lemma_up2_step(d, k);
            lemma_up2_step(d, k + 1);
        }
        lemma_less_pow2_up(n, d, k + 1, j);
    }
}

pub(crate) proof fn lemma_exponent_unique(n: nat, d: nat, e: int)
    requires
        d > 0,
        is_exponent(n, d, e),
    ensures
        ratio_exponent(n, d) == e,
{
    let f = ratio_exponent(n, d);
    if f < e {
        lemma_less_pow2_up(n, d, f + 53, e + 52);
    }
    if e < f {
        lemma_less_pow2_up(n, d, e + 53, f + 52);
    }
}

/// At the exponent of a ratio the quotient has at most 53 bits.
pub(crate) proof fn lemma_quotient_bound(n: nat, d: nat, e: int)
    requires
        less_pow2(n, d, e + 53),
    ensures
        n * up2(-e) < (d * up2(e)) * 0x20_0000_0000_0000,
{
    let big = 0x20_0000_0000_0000nat;
    assert(pow2(53) == big) by {
        lemma_pow2_small();
    }
    let k = e + 53;
    if e >= 0 {
        lemma_pow2_sum(e as nat, 53);
        lemma_up2_step(n, -k);
        lemma_up2_step(n, -e);
        lemma_up2_step(d, e);
        let w = pow2(e as nat);
        assert(up2(k) == w * big);
        assert(up2(e) == w);
        assert(d * (w * big) == (d * w) * big) by (nonlinear_arith);
    } else if k >= 0 {
        lemma_pow2_sum(k as nat, (-e) as nat);
        lemma_up2_step(n, -k);
        lemma_up2_step(d, e);
        let w = pow2(k as nat);
        let v = pow2((-e) as nat);
        lemma_pow2_positive((-e) as nat);
        assert(up2(k) == w);
        assert(n * v < (d * w) * v) by (nonlinear_arith)
            requires
                n < d * w,
                v > 0,
        ;
        assert((d * w) * v == d * (w * v)) by (nonlinear_arith);
    } else {
        lemma_pow2_sum((-k) as nat, 53);
        lemma_up2_step(d, k);
        lemma_up2_step(d, e);
        let w = pow2((-k) as nat);
        assert((-e) as nat == (-k) as nat + 53);
        assert((n * w) * big < d * big) by (nonlinear_arith)
            requires
                n * w < d,
                big > 0,
        ;
        assert((n * w) * big == n * (w * big)) by (nonlinear_arith);
    }
}

pub(crate) proof fn lemma_pow2_small()
    ensures
        pow2(52) == 0x10_0000_0000_0000,
        pow2(53) == 0x20_0000_0000_0000,
        pow2(10) == 1024,
{
    reveal_with_fuel(pow2, 60);
}

pub(crate) proof fn lemma_div_unique(n: nat, d: nat, q: nat, r: nat)
    requires
        d > 0,
        n == q * d + r,
        r < d,
    ensures
        n / d == q,
        n % d == r,
{
    vstd::arithmetic::div_mod::lemma_fundamental_div_mod_converse(
        n as int,
        d as int,
        q as int,
        r as int,
    );
}

/// `n * 2^k`.
fn shifted(n: &Natural, k: u32) -> (r: Natural)
    ensures
        r@ == n@ * pow2(k as nat),
{
    let mut out: Natural = n.copy();
    let mut i: u32 = 0;
    assert(n@ * 1 == n@) by (nonlinear_arith);
    while i < k
        invariant
            i <= k,
            out@ == n@ * pow2(i as nat),
        decreases k - i,
    {
        out = out.mul_add(2, 0);
        proof {
            let w = pow2(i as nat);
            assert(n@ * (2 * w) == 2 * (n@ * w)) by (nonlinear_arith);
        }
        i += 1;
    }
    out
}

/// `n * 10^k`.
fn shifted10(n: &Natural, k: u64) -> (r: Natural)
    ensures
        r@ == n@ * pow10(k as nat),
{
    let mut out: Natural = n.copy();
    let mut i: u64 = 0;
    assert(n@ * 1 == n@) by (nonlinear_arith);
    while i < k
        invariant
            i <= k,
            out@ == n@ * pow10(i as nat),
        decreases k - i,
    {
        out = out.mul_add(10, 0);
        proof {
            let w = pow10(i as nat);
            assert(n@ * (10 * w) == 10 * (n@ * w)) by (nonlinear_arith);
        }
        i += 1;
    }
    out
}

/// `n * 2^k`, or `n` for a negative `k`.
fn shift_up(n: &Natural, k: i32) -> (r: Natural)
    ensures
        r@ == n@ * up2(k as int),
{
    if k > 0 {
        shifted(n, k as u32)
    } else {
        proof {
            lemma_up2_step(n@, k as int);
        }
        n.copy()
    }
}

/// `n * 10^k`, or `n` for a negative `k`.
fn shift_up10(n: &Natural, k: i64) -> (r: Natural)
    ensures
        r@ == n@ * up10(k as int),
{
    if k > 0 {
        shifted10(n, k as u64)
    } else {
        proof {
            lemma_up10_step(n@, k as int);
        }
        n.copy()
    }
}

/// The exponent of `n / d`; none where the ratio is too large.
fn find_exponent(n: &Natural, d: &Natural) -> (r: Option<i32>)
    requires
        n@ > 0,
        d@ > 0,
    ensures
        r is Some <==> less_pow2(n@, d@, 1024),
        r matches Some(e) ==> -1074 <= e <= 971 && is_exponent(n@, d@, e as int),
{
    let mut t: i32 = 0;
    let mut b: Natural = d.copy();
    proof {
        lemma_up2_step(d@, 0);
    }
    while t < 1024 && !n.less(&b)
        invariant
            0 <= t <= 1024,
            b@ == d@ * up2(t as int),
            t > 0 ==> !less_pow2(n@, d@, t - 1),
        decreases 1024 - t,
    {
        proof {
            lemma_up2_step(d@, t as int);
            lemma_up2_step(n@, -t as int);
        }
        b = b.mul_add(2, 0);
        t += 1;
    }
    proof {
        lemma_up2_step(n@, -t as int);
    }
    if !n.less(&b) {
        return None;
    }
    proof {
        lemma_less_pow2_up(n@, d@, t as int, 1024);
    }
    if t > 0 {
        return Some(t - 53);
    }
    let mut a: Natural = n.copy();
    while t > -1021
        invariant_except_break
            -1021 <= t <= 0,
            d@ > 0,
            a@ == n@ * up2(-t as int),
            less_pow2(n@, d@, t as int),
        ensures
            -1021 <= t <= 0,
            less_pow2(n@, d@, t as int),
            t == -1021 || !less_pow2(n@, d@, t - 1),
        decreases t + 1021,
    {
        let twice: Natural = a.mul_add(2, 0);
        proof {
            lemma_up2_step(n@, -t as int);
            lemma_up2_step(d@, t - 1);
            assert(-(t - 1) == -t + 1);
        }
        if !twice.less(d) {
            break;
        }
        a = twice;
        t -= 1;
    }
    Some(t - 53)
}

fn assembled(negative: bool, m: u64, e: i32) -> (r: Number)
    requires
        m < 0x20_0000_0000_0000,
        -1074 <= e <= 972,
    ensures
        r == assemble(negative, m as nat, e as int),
{
    let sign: u64 = if negative {
        0x8000_0000_0000_0000
    } else {
        0
    };
    let size: u64 = if m < 0x10_0000_0000_0000 {
        m
    } else {
        (e + 1075) as u64 * 0x10_0000_0000_0000 + (m - 0x10_0000_0000_0000)
    };
    Number { bits: sign + size }
}

/// The number nearest to `n / d`.
pub fn round_ratio(negative: bool, n: &Natural, d: &Natural) -> (r: Number)
    requires
        d@ > 0,
    ensures
        r == rounded(negative, n@, d@),
{
    if n.is_zero() {
        return assembled(negative, 0, -1074);
    }
    match find_exponent(n, d) {
        None => assembled(negative, 0x10_0000_0000_0000, 972),
        Some(e) => {
            let num: Natural = shift_up(n, -e);
            let den: Natural = shift_up(d, e);
            proof {
                lemma_exponent_unique(n@, d@, e as int);
                lemma_quotient_bound(n@, d@, e as int);
                if e > 0 {
                    lemma_pow2_positive(e as nat);
                }
                assert(d@ * up2(e as int) > 0) by (nonlinear_arith)
                    requires
                        d@ > 0,
                        up2(e as int) > 0,
                ;
            }
            let (q, rem): (Natural, Natural) = num.div_rem(&den);
            proof {
                lemma_div_unique(num@, den@, q@, rem@);
                let (a, b) = (q@, den@);
                assert(a < 0x20_0000_0000_0000) by (nonlinear_arith)
                    requires
                        a * b < b * 0x20_0000_0000_0000,
                        b > 0,
                ;
            }
            let low: u64 = q.to_u64();
            let twice: Natural = rem.mul_add(2, 0);
            let m: u64 = if den.less(&twice) || (!twice.less(&den) && low % 2 == 1) {
                low + 1
            } else {
                low
            };
            assert(m == half_even(num@, den@));
            if m == 0x20_0000_0000_0000 {
                assembled(negative, 0x10_0000_0000_0000, e + 1)
            } else {
                assembled(negative, m, e)
            }
        },
    }
}

/// The number nearest to `m * 2^e`.
fn round_scaled(negative: bool, m: &Natural, e: i32) -> (r: Number)
    requires
        -2000 <= e <= 2000,
    ensures
        r == scaled(negative, m@, e as int),
{
    let one: Natural = Natural::from_u64(1);
    let num: Natural = shift_up(m, e);
    let den: Natural = shift_up(&one, -e);
    proof {
        if e < 0 {
            lemma_pow2_positive((-e) as nat);
        }
        let w = up2(-e as int);
        assert(1 * w == w) by (nonlinear_arith);
    }
    round_ratio(negative, &num, &den)
}

/// The number nearest to an integer.
pub open spec fn of_integer(n: nat) -> Number {
    rounded(false, n, 1)
}

/// The number nearest to an integer.
pub fn from_u64(n: u64) -> (r: Number)
    ensures
        r == of_integer(n as nat),
{
    round_ratio(false, &Natural::from_u64(n), &Natural::from_u64(1))
}

// ------------------------------------------------- reading and asking ----

impl Number {
    pub fn is_negative(self) -> (r: bool)
        ensures
            r == self.negative(),
    {
        self.bits >= 0x8000_0000_0000_0000
    }

    pub fn is_nan(self) -> (r: bool)
        ensures
            r == self.nan(),
    {
        self.get_biased() == 2047 && self.bits % 0x10_0000_0000_0000 != 0
    }

    pub fn is_infinite(self) -> (r: bool)
        ensures
            r == self.infinite(),
    {
        self.get_biased() == 2047 && self.bits % 0x10_0000_0000_0000 == 0
    }

    fn get_biased(self) -> (r: u64)
        ensures
            r == self.biased(),
            r <= 2047,
    {
        (self.bits % 0x8000_0000_0000_0000) / 0x10_0000_0000_0000
    }

    fn get_mantissa(self) -> (r: u64)
        ensures
            r == self.mantissa(),
            r < 0x20_0000_0000_0000,
    {
        let f: u64 = self.bits % 0x10_0000_0000_0000;
        if self.get_biased() == 0 {
            f
        } else {
            f + 0x10_0000_0000_0000
        }
    }

    fn get_exponent(self) -> (r: i32)
        ensures
            r == self.exponent(),
            -1074 <= r <= 972,
            self.finite() ==> r <= 971,
    {
        let b: u64 = self.get_biased();
        if b == 0 {
            -1074
        } else {
            b as i32 - 1075
        }
    }

    /// The number is not zero and not a NaN.
    pub open spec fn nonzero(self) -> bool {
        !self.nan() && self.magnitude() != 0
    }

    pub fn is_nonzero(self) -> (r: bool)
        ensures
            r == self.nonzero(),
    {
        !self.is_nan() && self.bits % 0x8000_0000_0000_0000 != 0
    }

    /// The number cut down to an integer from 0 to `max`; 0 for a NaN.
    pub open spec fn clamped(self, max: nat) -> nat {
        if self.nan() || self.negative() {
            0
        } else if self.infinite() || self.above() / self.below() > max {
            max
        } else {
            self.above() / self.below()
        }
    }

    /// The number as an index: cut to an integer and clamped.
    pub fn to_index(self) -> (r: usize)
        ensures
            r == self.clamped(usize::MAX as nat),
    {
        if self.is_nan() || self.is_negative() {
            return 0;
        }
        if self.is_infinite() {
            return usize::MAX;
        }
        let e: i32 = self.get_exponent();
        let num: Natural = shift_up(&Natural::from_u64(self.get_mantissa()), e);
        let den: Natural = shift_up(&Natural::from_u64(1), -e);
        proof {
            if e < 0 {
                lemma_pow2_positive((-e) as nat);
            }
            let w = up2(-e as int);
            assert(1 * w == w) by (nonlinear_arith);
        }
        let (q, rem): (Natural, Natural) = num.div_rem(&den);
        proof {
            lemma_div_unique(num@, den@, q@, rem@);
        }
        let top: Natural = Natural::from_u64(usize::MAX as u64);
        if top.less(&q) {
            usize::MAX
        } else {
            q.to_u64() as usize
        }
    }
}

// --------------------------------------------------------- arithmetic ----

/// The size of a finite number in units of `2^e`, with its sign.
pub open spec fn signed_units(n: Number, e: int) -> int {
    let size = n.mantissa() * up2(n.exponent() - e);
    if n.negative() {
        -size
    } else {
        size as int
    }
}

pub open spec fn min_exponent(a: Number, b: Number) -> int {
    if a.exponent() < b.exponent() {
        a.exponent()
    } else {
        b.exponent()
    }
}

/// The sum: exact, then rounded.
pub open spec fn sum(a: Number, b: Number) -> Number {
    if a.nan() || b.nan() {
        not_a_number()
    } else if a.infinite() {
        if b.infinite() && a.negative() != b.negative() {
            not_a_number()
        } else {
            infinity(a.negative())
        }
    } else if b.infinite() {
        infinity(b.negative())
    } else {
        let e = min_exponent(a, b);
        let s = signed_units(a, e) + signed_units(b, e);
        if s == 0 {
            zero(a.negative() && b.negative())
        } else if s < 0 {
            scaled(true, (-s) as nat, e)
        } else {
            scaled(false, s as nat, e)
        }
    }
}

pub fn plus(a: Number, b: Number) -> (r: Number)
    ensures
        r == sum(a, b),
{
    if a.is_nan() || b.is_nan() {
        return Number { bits: 0x7FF8_0000_0000_0000 };
    }
    if a.is_infinite() {
        if b.is_infinite() && a.is_negative() != b.is_negative() {
            return Number { bits: 0x7FF8_0000_0000_0000 };
        }
        return assembled(a.is_negative(), 0x10_0000_0000_0000, 972);
    }
    if b.is_infinite() {
        return assembled(b.is_negative(), 0x10_0000_0000_0000, 972);
    }
    let ea: i32 = a.get_exponent();
    let eb: i32 = b.get_exponent();
    let e: i32 = if ea < eb {
        ea
    } else {
        eb
    };
    let ua: Natural = shift_up(&Natural::from_u64(a.get_mantissa()), ea - e);
    let ub: Natural = shift_up(&Natural::from_u64(b.get_mantissa()), eb - e);
    if a.is_negative() == b.is_negative() {
        let s: Natural = ua.plus(&ub);
        if s.is_zero() {
            assembled(a.is_negative(), 0, -1074)
        } else {
            round_scaled(a.is_negative(), &s, e)
        }
    } else if ua.less(&ub) {
        round_scaled(b.is_negative(), &ub.minus(&ua), e)
    } else if ub.less(&ua) {
        round_scaled(a.is_negative(), &ua.minus(&ub), e)
    } else {
        assembled(false, 0, -1074)
    }
}

/// `a < b`; false if either is a NaN.
pub open spec fn below(a: Number, b: Number) -> bool {
    if a.nan() || b.nan() {
        false
    } else if a.infinite() {
        a.negative() && !(b.infinite() && b.negative())
    } else if b.infinite() {
        !b.negative()
    } else {
        let e = min_exponent(a, b);
        signed_units(a, e) < signed_units(b, e)
    }
}

/// `a == b`; false if either is a NaN. The two zeros are equal.
pub open spec fn equal(a: Number, b: Number) -> bool {
    if a.nan() || b.nan() {
        false
    } else if a.infinite() || b.infinite() {
        a.infinite() && b.infinite() && a.negative() == b.negative()
    } else {
        let e = min_exponent(a, b);
        signed_units(a, e) == signed_units(b, e)
    }
}

/// Among finite numbers the order of sizes is the order of the patterns.
#[verifier::spinoff_prover]
#[verifier::rlimit(60)]
proof fn lemma_magnitude_order(a: Number, b: Number)
    requires
        a.finite(),
        b.finite(),
        a.magnitude() < b.magnitude(),
    ensures
        ({
            let e = min_exponent(a, b);
            a.mantissa() * up2(a.exponent() - e) < b.mantissa() * up2(b.exponent() - e)
        }),
{
    let e = min_exponent(a, b);
    let (ma, mb) = (a.mantissa(), b.mantissa());
    assert(a.biased() <= b.biased());
    lemma_up2_step(ma, 0);
    lemma_up2_step(mb, 0);
    if a.exponent() < b.exponent() {
        let k = (b.exponent() - a.exponent()) as nat;
        let w = pow2((k - 1) as nat);
        lemma_pow2_positive((k - 1) as nat);
        assert(pow2(k) == 2 * w);
        assert(mb * (2 * w) >= 2 * mb) by (nonlinear_arith)
            requires
                w >= 1,
        ;
    }
}

proof fn lemma_magnitude_zero(n: Number, e: int)
    requires
        n.finite(),
        e <= n.exponent(),
    ensures
        n.magnitude() == 0 <==> n.mantissa() * up2(n.exponent() - e) == 0,
{
    let w = up2(n.exponent() - e);
    if n.exponent() > e {
        lemma_pow2_positive((n.exponent() - e) as nat);
    }
    let m = n.mantissa();
    assert(m * w == 0 <==> m == 0) by (nonlinear_arith)
        requires
            w > 0,
    ;
}

pub fn is_below(a: Number, b: Number) -> (r: bool)
    ensures
        r == below(a, b),
{
    if a.is_nan() || b.is_nan() {
        return false;
    }
    let x: u64 = a.bits % 0x8000_0000_0000_0000;
    let y: u64 = b.bits % 0x8000_0000_0000_0000;
    proof {
        if a.finite() && b.finite() {
            let e = min_exponent(a, b);
            lemma_magnitude_zero(a, e);
            lemma_magnitude_zero(b, e);
            if x < y {
                lemma_magnitude_order(a, b);
            } else if y < x {
                lemma_magnitude_order(b, a);
            }
        }
    }
    if a.is_negative() {
        if b.is_negative() {
            y < x
        } else {
            x != 0 || y != 0
        }
    } else {
        !b.is_negative() && x < y
    }
}

pub fn is_equal(a: Number, b: Number) -> (r: bool)
    ensures
        r == equal(a, b),
{
    if a.is_nan() || b.is_nan() {
        return false;
    }
    let x: u64 = a.bits % 0x8000_0000_0000_0000;
    let y: u64 = b.bits % 0x8000_0000_0000_0000;
    proof {
        if a.finite() && b.finite() {
            let e = min_exponent(a, b);
            lemma_magnitude_zero(a, e);
            lemma_magnitude_zero(b, e);
            if x < y {
                lemma_magnitude_order(a, b);
            } else if y < x {
                lemma_magnitude_order(b, a);
            }
        }
    }
    x == y && (x == 0 || a.is_negative() == b.is_negative())
}

impl PartialEq for Number {
    fn eq(&self, other: &Number) -> (r: bool) {
        is_equal(*self, *other)
    }
}

impl vstd::std_specs::cmp::PartialEqSpecImpl for Number {
    open spec fn obeys_eq_spec() -> bool {
        true
    }

    open spec fn eq_spec(&self, other: &Number) -> bool {
        equal(*self, *other)
    }
}

// ------------------------------------------------------ decimal input ----

/// The first position from `i` on that holds no decimal digit.
pub open spec fn digit_run(s: Seq<char>, i: int) -> int
    decreases s.len() - i,
{
    if 0 <= i < s.len() && text::ascii_digit(s[i]) {
        digit_run(s, i + 1)
    } else {
        i
    }
}

/// The power of ten that the text names from `b` on: nothing, or `e`, an
/// optional sign and at least one digit.
pub open spec fn exponent_part(t: Seq<char>, b: int) -> Option<int> {
    if b >= t.len() {
        Some(0)
    } else if t[b] == 'e' || t[b] == 'E' {
        let signed = b + 1 < t.len() && (t[b + 1] == '-' || t[b + 1] == '+');
        let c = if signed {
            b + 2
        } else {
            b + 1
        };
        if c < t.len() && digit_run(t, c) == t.len() {
            let v = text::digits_value(t.skip(c), 10)->0;
            Some(
                if signed && t[b + 1] == '-' {
                    -v
                } else {
                    v as int
                },
            )
        } else {
            None
        }
    } else {
        None
    }
}

/// An unsigned decimal numeral: digits with an optional point, at least one
/// digit, then an optional power of ten. It stands for `c * 10^y`.
pub open spec fn numeral(t: Seq<char>) -> Option<(nat, int)> {
    let a = digit_run(t, 0);
    let point = a < t.len() && t[a] == '.';
    let b = if point {
        digit_run(t, a + 1)
    } else {
        a
    };
    let fraction = if point {
        t.subrange(a + 1, b)
    } else {
        seq![]
    };
    let digits = t.take(a) + fraction;
    if digits.len() == 0 {
        None
    } else {
        match exponent_part(t, b) {
            Some(x) => Some((text::digits_value(digits, 10)->0, x - fraction.len())),
            None => None,
        }
    }
}

/// The number that a text stands for: an optional sign, then a numeral, or
/// `inf`, `infinity` or `nan` in any case of letters.
pub open spec fn read(s: Seq<char>) -> Option<Number> {
    let negative = s.len() > 0 && s[0] == '-';
    let t = if s.len() > 0 && (s[0] == '-' || s[0] == '+') {
        s.skip(1)
    } else {
        s
    };
    if text::same_letters(t, "nan"@) {
        Some(not_a_number())
    } else if text::same_letters(t, "inf"@) || text::same_letters(t, "infinity"@) {
        Some(infinity(negative))
    } else {
        match numeral(t) {
            Some((c, y)) => Some(decimal_number(negative, c, y)),
            None => None,
        }
    }
}

proof fn lemma_pow2_monotone(a: nat, b: nat)
    requires
        a <= b,
    ensures
        pow2(a) <= pow2(b),
    decreases b - a,
{
    if a < b {
        lemma_pow2_monotone(a, (b - 1) as nat);
    }
}

proof fn lemma_pow10_monotone(a: nat, b: nat)
    requires
        a <= b,
    ensures
        pow10(a) <= pow10(b),
    decreases b - a,
{
    if a < b {
        lemma_pow10_monotone(a, (b - 1) as nat);
    }
}

/// Ten is at least two cubed.
proof fn lemma_pow10_over_pow2(k: nat)
    ensures
        pow10(k) >= pow2(3 * k),
    decreases k,
{
    if k > 0 {
        lemma_pow10_over_pow2((k - 1) as nat);
        reveal_with_fuel(pow2, 4);
        assert(3 * k == 3 * (k - 1) + 3);
    }
}

proof fn lemma_decimal_large(negative: bool, c: nat, y: int)
    requires
        c > 0,
        y >= 342,
    ensures
        decimal_number(negative, c, y) == infinity(negative),
{
    let n = c * up10(y);
    lemma_pow10_over_pow2(342);
    lemma_pow10_monotone(342, y as nat);
    lemma_pow2_monotone(1024, 1026);
    lemma_up2_step(n, -1024);
    lemma_up2_step(1, 1024);
    let w = pow2(1024);
    assert(1 * w == w) by (nonlinear_arith);
    let p = up10(y);
    assert(c * p >= p) by (nonlinear_arith)
        requires
            c >= 1,
            p >= 0,
    ;
    lemma_pow10_positive(y as nat);
}

proof fn lemma_decimal_small(negative: bool, c: nat, len: nat, y: int)
    requires
        c < pow10(len),
        len + y <= -360,
    ensures
        decimal_number(negative, c, y) == zero(negative),
{
    lemma_up10_step(c, y);
    if c > 0 {
        let k = (-y) as nat;
        let d = pow10(k);
        lemma_pow10_positive(k);
        lemma_pow10_sum(len, (k - len) as nat);
        lemma_pow10_monotone(359, (k - len) as nat);
        lemma_pow10_over_pow2(359);
        lemma_pow2_monotone(1075, 1077);
        let (a, b, w) = (pow10(len), pow10((k - len) as nat), pow2(1075));
        lemma_pow2_positive(1075);
        assert(c * w < a * b) by (nonlinear_arith)
            requires
                c < a,
                w <= b,
                w > 0,
        {
            assert(c * w < a * w);
            assert(a * w <= a * b);
        }
        lemma_up2_step(c, 1074);
        lemma_up2_step(d, -1074);
        lemma_up2_step(d, -1021);
        let r = c * up2(1074);
        assert(2 * r < d);
        lemma_pow2_monotone(1021, 1074);
        let v = pow2(1021);
        assert(c * v <= c * pow2(1074)) by (nonlinear_arith)
            requires
                v <= pow2(1074),
        ;
        assert(less_pow2(c, d, -1021));
        lemma_less_pow2_up(c, d, -1021, 1024);
        lemma_exponent_unique(c, d, -1074);
        assert(0nat * d == 0) by (nonlinear_arith);
        lemma_div_unique(r, d, 0, r);
        assert(half_even(r, d) == 0);
    }
}

/// The number nearest to `c * 10^y`, for a `c` of at most `len` digits.
fn round_decimal(negative: bool, c: &Natural, len: usize, y: i128) -> (r: Number)
    requires
        c@ < pow10(len as nat),
        -0x1_0000_0000_0000_0000_0000_0000 <= y <= 0x1_0000_0000_0000_0000_0000_0000,
    ensures
        r == decimal_number(negative, c@, y as int),
{
    if c.is_zero() {
        proof {
            let w = up10(y as int);
            assert(0nat * w == 0) by (nonlinear_arith);
        }
        return assembled(negative, 0, -1074);
    }
    if y > 342 {
        proof {
            lemma_decimal_large(negative, c@, y as int);
        }
        return assembled(negative, 0x10_0000_0000_0000, 972);
    }
    if len as i128 + y < -360 {
        proof {
            lemma_decimal_small(negative, c@, len as nat, y as int);
        }
        return assembled(negative, 0, -1074);
    }
    let one: Natural = Natural::from_u64(1);
    if y >= 0 {
        let num: Natural = shift_up10(c, y as i64);
        round_ratio(negative, &num, &one)
    } else if y >= -0x7FFF_FFFF_FFFF_FFFF {
        let den: Natural = shift_up10(&one, -(y as i64));
        proof {
            lemma_up10_step(c@, y as int);
            lemma_pow10_positive((-y) as nat);
            let w = up10(-y as int);
            assert(1 * w == w) by (nonlinear_arith);
        }
        round_ratio(negative, c, &den)
    } else {
        let half: Natural = shifted10(&one, 0x7FFF_FFFF_FFFF_FFFF);
        let den: Natural = shifted10(&half, (-y - 0x7FFF_FFFF_FFFF_FFFF) as u64);
        proof {
            lemma_up10_step(c@, y as int);
            lemma_pow10_positive((-y) as nat);
            lemma_pow10_sum(0x7FFF_FFFF_FFFF_FFFF, (-y - 0x7FFF_FFFF_FFFF_FFFF) as nat);
            let w = pow10(0x7FFF_FFFF_FFFF_FFFF);
            assert(1 * w == w) by (nonlinear_arith);
        }
        round_ratio(negative, c, &den)
    }
}

fn skip_digits(s: &[char], from: usize) -> (r: usize)
    requires
        from <= s@.len(),
    ensures
        from <= r <= s@.len(),
        r == digit_run(s@, from as int),
        forall|k: int| from <= k < r ==> text::ascii_digit(#[trigger] s@[k]),
{
    let mut i: usize = from;
    while i < s.len() && text::is_ascii_digit(s[i])
        invariant
            from <= i <= s.len(),
            digit_run(s@, from as int) == digit_run(s@, i as int),
            forall|k: int| from <= k < i ==> text::ascii_digit(#[trigger] s@[k]),
        decreases s.len() - i,
    {
        i += 1;
    }
    i
}

/// The value of a run of digits.
fn natural_of(s: &[char]) -> (r: Natural)
    requires
        forall|k: int| 0 <= k < s@.len() ==> text::ascii_digit(#[trigger] s@[k]),
    ensures
        text::digits_value(s@, 10) == Some(r@),
        r@ < pow10(s@.len()),
{
    let mut out: Natural = Natural::from_u64(0);
    let mut i: usize = 0;
    while i < s.len()
        invariant
            i <= s.len(),
            forall|k: int| 0 <= k < s@.len() ==> text::ascii_digit(#[trigger] s@[k]),
            text::digits_value(s@.take(i as int), 10) == Some(out@),
            out@ < pow10(i as nat),
        decreases s.len() - i,
    {
        let d: u32 = s[i] as u32 - 48;
        assert(s@.take(i + 1).drop_last() == s@.take(i as int));
        assert(s@.take(i + 1).last() == s@[i as int]);
        out = out.mul_add(10, d);
        i += 1;
    }
    assert(s@.take(s@.len() as int) == s@);
    out
}

/// The value of a run of digits, cut at `2^80`.
fn saturated(s: &[char]) -> (r: i128)
    requires
        forall|k: int| 0 <= k < s@.len() ==> text::ascii_digit(#[trigger] s@[k]),
    ensures
        text::digits_value(s@, 10) is Some,
        ({
            let v = text::digits_value(s@, 10)->0;
            if v < 0x1_0000_0000_0000_0000_0000 {
                r == v
            } else {
                r == 0x1_0000_0000_0000_0000_0000
            }
        }),
{
    let mut acc: i128 = 0;
    let mut i: usize = 0;
    while i < s.len()
        invariant
            i <= s.len(),
            forall|k: int| 0 <= k < s@.len() ==> text::ascii_digit(#[trigger] s@[k]),
            0 <= acc <= 0x1_0000_0000_0000_0000_0000,
            text::digits_value(s@.take(i as int), 10) is Some,
            ({
                let v = text::digits_value(s@.take(i as int), 10)->0;
                if v < 0x1_0000_0000_0000_0000_0000 {
                    acc == v
                } else {
                    acc == 0x1_0000_0000_0000_0000_0000
                }
            }),
        decreases s.len() - i,
    {
        let d: u32 = s[i] as u32 - 48;
        assert(s@.take(i + 1).drop_last() == s@.take(i as int));
        assert(s@.take(i + 1).last() == s@[i as int]);
        acc = acc * 10 + d as i128;
        if acc > 0x1_0000_0000_0000_0000_0000 {
            acc = 0x1_0000_0000_0000_0000_0000;
        }
        i += 1;
    }
    assert(s@.take(s@.len() as int) == s@);
    acc
}

/// `r` is `v`, cut at `2^80` on either side.
spec fn cut(v: int, r: int) -> bool {
    if v >= 0x1_0000_0000_0000_0000_0000 {
        r == 0x1_0000_0000_0000_0000_0000
    } else if v <= -0x1_0000_0000_0000_0000_0000 {
        r == -0x1_0000_0000_0000_0000_0000
    } else {
        r == v
    }
}

/// Read the power of ten at the end of a numeral.
fn parse_exponent(t: &[char], b: usize) -> (r: Option<i128>)
    requires
        b <= t@.len(),
    ensures
        r is Some <==> exponent_part(t@, b as int) is Some,
        r matches Some(x) ==> cut(exponent_part(t@, b as int)->0, x as int),
{
    if b == t.len() {
        return Some(0);
    }
    if t[b] != 'e' && t[b] != 'E' {
        return None;
    }
    let signed: bool = b + 1 < t.len() && (t[b + 1] == '-' || t[b + 1] == '+');
    let start: usize = if signed {
        b + 2
    } else {
        b + 1
    };
    if start >= t.len() {
        return None;
    }
    if skip_digits(t, start) != t.len() {
        return None;
    }
    let tail: &[char] = slice_subrange(t, start, t.len());
    assert(tail@ == t@.skip(start as int));
    assert forall|k: int| 0 <= k < tail@.len() implies text::ascii_digit(
        #[trigger] tail@[k],
    ) by {
        assert(tail@[k] == t@[k + start]);
    }
    let size: i128 = saturated(tail);
    if signed && t[b + 1] == '-' {
        Some(-size)
    } else {
        Some(size)
    }
}

proof fn lemma_cut(negative: bool, c: nat, len: nat, fraction: nat, v: int, r: int)
    requires
        c < pow10(len),
        len <= 0xFFFF_FFFF_FFFF_FFFF,
        fraction <= 0xFFFF_FFFF_FFFF_FFFF,
        cut(v, r),
    ensures
        decimal_number(negative, c, v - fraction) == decimal_number(negative, c, r - fraction),
{
    if c == 0 {
        let (w1, w2) = (up10(v - fraction), up10(r - fraction));
        assert(0nat * w1 == 0 && 0nat * w2 == 0) by (nonlinear_arith);
    } else if v != r {
        if v > 0 {
            lemma_decimal_large(negative, c, v - fraction);
            lemma_decimal_large(negative, c, r - fraction);
        } else {
            lemma_decimal_small(negative, c, len, v - fraction);
            lemma_decimal_small(negative, c, len, r - fraction);
        }
    }
}

/// Read an unsigned numeral.
fn parse_numeral(negative: bool, t: &[char]) -> (r: Option<Number>)
    ensures
        r == (match numeral(t@) {
            Some((c, y)) => Some(decimal_number(negative, c, y)),
            None => None,
        }),
{
    let a: usize = skip_digits(t, 0);
    let point: bool = a < t.len() && t[a] == '.';
    let b: usize = if point {
        skip_digits(t, a + 1)
    } else {
        a
    };
    let mut digits: Vec<char> = vstd::slice::slice_to_vec(slice_subrange(t, 0, a));
    let mut fraction: usize = 0;
    let ghost tail = if point {
        t@.subrange(a + 1, b as int)
    } else {
        seq![]
    };
    if point {
        let mut more: Vec<char> = vstd::slice::slice_to_vec(slice_subrange(t, a + 1, b));
        digits.append(&mut more);
        fraction = b - a - 1;
    }
    assert(digits@ == t@.take(a as int) + tail);
    if digits.len() == 0 {
        return None;
    }
    assert forall|k: int| 0 <= k < digits@.len() implies text::ascii_digit(
        #[trigger] digits@[k],
    ) by {
        if k < a {
            assert(digits@[k] == t@[k]);
        } else {
            assert(digits@[k] == t@[k + 1]);
        }
    }
    let c: Natural = natural_of(digits.as_slice());
    match parse_exponent(t, b) {
        Some(x) => {
            proof {
                lemma_cut(
                    negative,
                    c@,
                    digits@.len(),
                    fraction as nat,
                    exponent_part(t@, b as int)->0,
                    x as int,
                );
            }
            let y: i128 = x - fraction as i128;
            Some(round_decimal(negative, &c, digits.len(), y))
        },
        None => None,
    }
}

/// Read a number.
pub fn parse(s: &[char]) -> (r: Option<Number>)
    ensures
        r == read(s@),
{
    let negative: bool = s.len() > 0 && s[0] == '-';
    let t: &[char] = if s.len() > 0 && (s[0] == '-' || s[0] == '+') {
        slice_subrange(s, 1, s.len())
    } else {
        s
    };
    let word: String = text::string(t);
    if text::eq_ignore_ascii_case(word.as_str(), "nan") {
        Some(Number { bits: 0x7FF8_0000_0000_0000 })
    } else if text::eq_ignore_ascii_case(word.as_str(), "inf") || text::eq_ignore_ascii_case(
        word.as_str(),
        "infinity",
    ) {
        Some(assembled(negative, 0x10_0000_0000_0000, 972))
    } else {
        parse_numeral(negative, t)
    }
}

// ----------------------------------------------------- decimal output ----

/// `n / d < 10^k`.
pub open spec fn less_pow10(n: nat, d: nat, k: int) -> bool {
    n * up10(-k) < d * up10(k)
}

/// `10^(x - 1) <= n / d < 10^x`.
pub open spec fn is_magnitude(n: nat, d: nat, x: int) -> bool {
    less_pow10(n, d, x) && !less_pow10(n, d, x - 1)
}

pub open spec fn ten_exponent(n: nat, d: nat) -> int {
    choose|x: int| is_magnitude(n, d, x)
}

/// `c * 10^y` reads back as the size of `n`.
pub open spec fn reads_back(n: Number, c: nat, y: int) -> bool {
    decimal_number(false, c, y) == absolute(n)
}

/// The decimal of `k` significant digits that stands for the finite number
/// `n` with the decimal magnitude `x`: of its two neighbours among such
/// decimals the one that reads back as `n`; the nearer one, or the larger of
/// two equally near, where both do.
pub open spec fn candidate(n: Number, x: int, k: nat) -> Option<(nat, int)> {
    let s = k - x;
    let num = n.above() * up10(s);
    let den = n.below() * up10(-s);
    let f = num / den;
    let lo = (f, -s);
    let hi = if f + 1 == pow10(k) {
        (pow10((k - 1) as nat), 1 - s)
    } else {
        (f + 1, -s)
    };
    let lo_reads = reads_back(n, lo.0, lo.1);
    let hi_reads = reads_back(n, hi.0, hi.1);
    if lo_reads && !(hi_reads && 2 * (num % den) >= den) {
        Some(lo)
    } else if hi_reads {
        Some(hi)
    } else {
        None
    }
}

/// The decimal with the fewest significant digits, from `k` on, that stands
/// for `n`.
pub open spec fn shortest(n: Number, x: int, k: nat) -> (nat, int)
    decreases 1500 - k,
{
    match candidate(n, x, k) {
        Some(c) => c,
        None => if k >= 1500 {
            (0, 0)
        } else {
            shortest(n, x, k + 1)
        },
    }
}

pub open spec fn zeros(k: int) -> Seq<char> {
    Seq::new(
        if k > 0 {
            k as nat
        } else {
            0
        },
        |i: int| '0',
    )
}

/// `c * 10^y` in positional notation.
pub open spec fn positional(c: nat, y: int) -> Seq<char> {
    let digits = text::decimal(c);
    let whole = digits.len() + y;
    if y >= 0 {
        digits + zeros(y)
    } else if whole > 0 {
        digits.take(whole) + "."@ + digits.skip(whole)
    } else {
        "0."@ + zeros(-whole) + digits
    }
}

/// The size of a finite number, where it is an integer.
pub open spec fn whole(n: Number) -> Option<nat> {
    if n.finite() && n.above() % n.below() == 0 {
        Some(n.above() / n.below())
    } else {
        None
    }
}

pub open spec fn sign_text(negative: bool) -> Seq<char> {
    if negative {
        "-"@
    } else {
        seq![]
    }
}

/// The text of a number: an integer below `10^15` in decimal notation, any
/// other number by the shortest decimal that reads back as it.
pub open spec fn display(n: Number) -> Seq<char> {
    if n.nan() {
        "NaN"@
    } else if n.infinite() {
        sign_text(n.negative()) + "inf"@
    } else if whole(n) is Some && whole(n)->0 < 1_000_000_000_000_000 {
        sign_text(n.negative() && whole(n)->0 > 0) + text::decimal(whole(n)->0)
    } else {
        let (c, y) = shortest(n, ten_exponent(n.above(), n.below()), 1);
        sign_text(n.negative()) + positional(c, y)
    }
}

/// The text of a number with exactly `p` decimal places, at least one, rounded
/// to nearest with ties to even.
pub open spec fn fixed(n: Number, p: nat) -> Seq<char> {
    if n.nan() {
        "NaN"@
    } else if n.infinite() {
        sign_text(n.negative()) + "inf"@
    } else {
        let units = half_even(n.above() * pow10(p), n.below());
        sign_text(n.negative()) + text::decimal(units / pow10(p)) + "."@ + text::zero_padded(
            text::decimal(units % pow10(p)),
            p,
        )
    }
}

proof fn lemma_less_pow10_up(n: nat, d: nat, k: int, j: int)
    requires
        less_pow10(n, d, k),
        k <= j,
        d > 0,
    ensures
        less_pow10(n, d, j),
    decreases j - k,
{
    if k < j {
        if k >= 0 {
            lemma_up10_step(d, k);
            lemma_up10_step(n, -k);
            lemma_up10_step(n, -(k + 1));
        } else {
            lemma_up10_step(n, -k - 1);
            lemma_up10_step(d, k);
            lemma_up10_step(d, k + 1);
        }
        lemma_less_pow10_up(n, d, k + 1, j);
    }
}

proof fn lemma_magnitude_unique(n: nat, d: nat, x: int)
    requires
        d > 0,
        is_magnitude(n, d, x),
    ensures
        ten_exponent(n, d) == x,
{
    let y = ten_exponent(n, d);
    if y < x {
        lemma_less_pow10_up(n, d, y, x - 1);
    }
    if x < y {
        lemma_less_pow10_up(n, d, x, y - 1);
    }
}

/// The fraction of a finite number lies between the smallest and the largest
/// power of ten that can matter.
pub proof fn lemma_fraction_bounds(n: Number)
    requires
        n.finite(),
        n.magnitude() != 0,
    ensures
        n.above() > 0,
        n.below() > 0,
        less_pow10(n.above(), n.below(), 342),
        !less_pow10(n.above(), n.below(), -1074),
{
    let m = n.mantissa();
    let e = n.exponent();
    assert(m > 0);
    if e > 0 {
        lemma_pow2_positive(e as nat);
    }
    if e < 0 {
        lemma_pow2_positive((-e) as nat);
    }
    let (a, d) = (n.above(), n.below());
    let w = up2(e);
    assert(m * w >= w) by (nonlinear_arith)
        requires
            m >= 1,
            w >= 0,
    ;
    // From above: m < 2^53 and e <= 971.
    lemma_pow2_small();
    lemma_pow2_sum(53, 971);
    if e > 0 {
        lemma_pow2_monotone(e as nat, 971);
    } else {
        lemma_pow2_positive(971);
    }
    let top = pow2(971);
    assert(m * w < 0x20_0000_0000_0000 * top) by (nonlinear_arith)
        requires
            m < 0x20_0000_0000_0000,
            1 <= w <= top,
    ;
    lemma_pow10_over_pow2(342);
    lemma_pow2_monotone(1024, 1026);
    lemma_up10_step(a, -342);
    let p = pow10(342);
    assert(d * p >= p) by (nonlinear_arith)
        requires
            d >= 1,
    ;
    // From below: at least 2^-1074.
    lemma_pow10_over_pow2(1074);
    lemma_pow2_monotone(1074, 3222);
    if e < 0 {
        lemma_pow2_monotone((-e) as nat, 1074);
    } else {
        lemma_pow2_positive(1074);
    }
    lemma_up10_step(d, -1074);
    let q = pow10(1074);
    assert(a * q >= q) by (nonlinear_arith)
        requires
            a >= 1,
    ;
}

/// The fraction of a finite number.
fn fraction_of(n: Number) -> (r: (Natural, Natural))
    requires
        n.finite(),
    ensures
        r.0@ == n.above(),
        r.1@ == n.below(),
        r.1@ > 0,
{
    let e: i32 = n.get_exponent();
    let num: Natural = shift_up(&Natural::from_u64(n.get_mantissa()), e);
    let den: Natural = shift_up(&Natural::from_u64(1), -e);
    proof {
        if e < 0 {
            lemma_pow2_positive((-e) as nat);
        }
        let w = up2(-e as int);
        assert(1 * w == w) by (nonlinear_arith);
    }
    (num, den)
}

fn find_magnitude(n: &Natural, d: &Natural) -> (r: i64)
    requires
        n@ > 0,
        d@ > 0,
        less_pow10(n@, d@, 342),
        !less_pow10(n@, d@, -1074),
    ensures
        r == ten_exponent(n@, d@),
        is_magnitude(n@, d@, r as int),
        -1074 < r <= 342,
{
    let mut x: i64 = 0;
    let mut b: Natural = d.copy();
    proof {
        lemma_up10_step(d@, 0);
        lemma_up10_step(n@, 0);
    }
    while !n.less(&b)
        invariant
            0 <= x <= 342,
            n@ > 0,
            less_pow10(n@, d@, 342),
            b@ == d@ * up10(x as int),
            n@ == n@ * up10(-x as int),
            x > 0 ==> !less_pow10(n@, d@, x - 1),
        decreases 342 - x,
    {
        proof {
            assert(x != 342);
            lemma_up10_step(d@, x as int);
            lemma_up10_step(n@, -(x + 1) as int);
        }
        b = b.mul_add(10, 0);
        x += 1;
    }
    if x > 0 {
        proof {
            lemma_magnitude_unique(n@, d@, x as int);
        }
        return x;
    }
    let mut a: Natural = n.copy();
    loop
        invariant
            -1074 < x <= 0,
            n@ > 0,
            d@ > 0,
            !less_pow10(n@, d@, -1074),
            a@ == n@ * up10(-x as int),
            less_pow10(n@, d@, x as int),
        decreases x + 1074,
    {
        let more: Natural = a.mul_add(10, 0);
        proof {
            lemma_up10_step(n@, -x as int);
            lemma_up10_step(d@, x - 1);
            assert(-(x - 1) == -x + 1);
        }
        if !more.less(d) {
            proof {
                lemma_magnitude_unique(n@, d@, x as int);
            }
            return x;
        }
        a = more;
        x -= 1;
        assert(x != -1074);
    }
}

/// `c * 10^y` reads back as the size of the number.
fn check_back(n: Number, c: &Natural, len: usize, y: i64) -> (r: bool)
    requires
        c@ < pow10(len as nat),
    ensures
        r == reads_back(n, c@, y as int),
{
    round_decimal(false, c, len, y as i128).bits == n.bits % 0x8000_0000_0000_0000
}

/// With `k` digits the quotient stays below `10^k`.
proof fn lemma_digits_bound(n: nat, d: nat, x: int, k: nat)
    requires
        d > 0,
        less_pow10(n, d, x),
    ensures
        n * up10(k - x) < (d * up10(x - k)) * pow10(k),
{
    let s = k - x;
    if x >= k {
        lemma_pow10_sum((x - k) as nat, k);
        lemma_up10_step(n, s);
        lemma_up10_step(n, -x);
        if x > 0 {
            let (v, w) = (pow10((x - k) as nat), pow10(k));
            lemma_pow10_positive(k);
            assert(up10(x) == v * w);
            assert(up10(x - k) == v);
            assert(d * (v * w) == (d * v) * w) by (nonlinear_arith);
        } else {
            assert(d * 1 * 1 == d) by (nonlinear_arith);
        }
    } else if x >= 0 {
        lemma_pow10_sum(x as nat, s as nat);
        lemma_up10_step(n, -x);
        lemma_up10_step(d, -s);
        let (v, w) = (pow10(x as nat), pow10(s as nat));
        lemma_pow10_positive(s as nat);
        assert(up10(x) == v);
        assert(n * w < (d * v) * w) by (nonlinear_arith)
            requires
                n < d * v,
                w > 0,
        ;
        assert((d * v) * w == d * (v * w)) by (nonlinear_arith);
    } else {
        lemma_pow10_sum((-x) as nat, k);
        lemma_up10_step(d, x);
        lemma_up10_step(d, -s);
        let (v, w) = (pow10((-x) as nat), pow10(k));
        lemma_pow10_positive(k);
        assert(s as nat == (-x) as nat + k);
        assert((n * v) * w < d * w) by (nonlinear_arith)
            requires
                n * v < d,
                w > 0,
        ;
        assert((n * v) * w == n * (v * w)) by (nonlinear_arith);
    }
}

/// The decimal of `k` digits that stands for the number, if one does.
fn find_candidate(n: Number, num: &Natural, den: &Natural, x: i64, k: usize) -> (r: Option<
    (Natural, i64),
>)
    requires
        num@ == n.above(),
        den@ == n.below(),
        den@ > 0,
        less_pow10(num@, den@, x as int),
        -1074 < x <= 342,
        1 <= k <= 1500,
    ensures
        r is Some <==> candidate(n, x as int, k as nat) is Some,
        r matches Some(p) ==> candidate(n, x as int, k as nat) == Some((p.0@, p.1 as int)),
{
    let s: i64 = k as i64 - x;
    let a: Natural = shift_up10(num, s);
    let b: Natural = shift_up10(den, -s);
    proof {
        if s < 0 {
            lemma_pow10_positive((-s) as nat);
        }
        let w = up10(-s as int);
        assert(den@ * w > 0) by (nonlinear_arith)
            requires
                den@ > 0,
                w > 0,
        ;
        lemma_digits_bound(num@, den@, x as int, k as nat);
    }
    let (f, rem): (Natural, Natural) = a.div_rem(&b);
    proof {
        lemma_div_unique(a@, b@, f@, rem@);
        let (q, d, p) = (f@, b@, pow10(k as nat));
        assert(q < p) by (nonlinear_arith)
            requires
                q * d < d * p,
                d > 0,
        ;
    }
    let next: Natural = f.mul_add(1, 1);
    let one: Natural = Natural::from_u64(1);
    let full: Natural = shifted10(&one, k as u64);
    proof {
        let p = pow10(k as nat);
        assert(1 * p == p) by (nonlinear_arith);
        let g = f@;
        assert(g * 1 == g) by (nonlinear_arith);
        lemma_pow10_monotone((k - 1) as nat, k as nat);
        lemma_pow10_positive((k - 1) as nat);
    }
    let carried: bool = !next.less(&full);
    let (hi, hi_y): (Natural, i64) = if carried {
        proof {
            let p = pow10((k - 1) as nat);
            assert(1 * p == p) by (nonlinear_arith);
        }
        (shifted10(&one, (k - 1) as u64), 1 - s)
    } else {
        (next, -s)
    };
    let lo_reads: bool = check_back(n, &f, k, -s);
    let hi_reads: bool = check_back(n, &hi, k, hi_y);
    let twice: Natural = rem.mul_add(2, 0);
    if lo_reads && !(hi_reads && !twice.less(&b)) {
        Some((f, -s))
    } else if hi_reads {
        Some((hi, hi_y))
    } else {
        None
    }
}

/// Decimal notation of a natural number.
fn decimal_of(n: &Natural) -> (r: String)
    ensures
        r@ == text::decimal(n@),
    decreases n@,
{
    let ten: Natural = Natural::from_u64(10);
    let (q, r): (Natural, Natural) = n.div_rem(&ten);
    proof {
        lemma_div_unique(n@, 10, q@, r@);
    }
    let mut out: String = if q.is_zero() {
        String::new()
    } else {
        decimal_of(&q)
    };
    out.push(text::to_digit_char(r.to_u64()));
    assert(n@ < 10 ==> out@ == seq![text::digit_char(n@)]);
    out
}

fn append_zeros(out: &mut String, k: i64)
    ensures
        final(out)@ == old(out)@ + zeros(k as int),
{
    let mut i: i64 = 0;
    let ghost start = out@;
    assert(start + zeros(0) == start);
    while i < k
        invariant
            0 <= i,
            i <= k || i == 0,
            out@ == start + zeros(i as int),
        decreases k - i,
    {
        out.push('0');
        i += 1;
        assert(out@ =~= start + zeros(i as int));
    }
    assert(zeros(i as int) =~= zeros(k as int));
}

/// `c * 10^y` in positional notation.
fn positional_of(c: &Natural, y: i64) -> (r: String)
    requires
        -10_000 <= y <= 10_000,
    ensures
        r@ == positional(c@, y as int),
{
    let digits: Vec<char> = text::chars(decimal_of(c).as_str());
    let mut out: String = String::new();
    if y >= 0 {
        out = text::string(digits.as_slice());
        append_zeros(&mut out, y);
        return out;
    }
    let drop: usize = (-y) as usize;
    if digits.len() > drop {
        let cut: usize = digits.len() - drop;
        out = text::string(slice_subrange(digits.as_slice(), 0, cut));
        out.append(".");
        let tail: String = text::string(slice_subrange(digits.as_slice(), cut, digits.len()));
        out.append(tail.as_str());
    } else {
        out = text::owned("0.");
        append_zeros(&mut out, (drop - digits.len()) as i64);
        let tail: String = text::string(digits.as_slice());
        out.append(tail.as_str());
    }
    out
}

/// The size of a finite number, where it is an integer below `10^15`.
fn small_whole(n: Number) -> (r: Option<u64>)
    requires
        n.finite(),
    ensures
        r is Some <==> (whole(n) is Some && whole(n)->0 < 1_000_000_000_000_000),
        r matches Some(v) ==> whole(n) == Some(v as nat),
{
    let (num, den): (Natural, Natural) = fraction_of(n);
    let (q, rem): (Natural, Natural) = num.div_rem(&den);
    proof {
        lemma_div_unique(num@, den@, q@, rem@);
    }
    if rem.is_zero() && q.less(&Natural::from_u64(1_000_000_000_000_000)) {
        Some(q.to_u64())
    } else {
        None
    }
}

pub(crate) proof fn lemma_zero_is_whole(n: Number)
    requires
        n.finite(),
        n.magnitude() == 0,
    ensures
        whole(n) == Some(0nat),
{
    let d = n.below();
    lemma_pow2_positive(1074);
    assert(n.above() == 0) by {
        let w = up2(n.exponent());
        assert(0nat * w == 0) by (nonlinear_arith);
    }
    lemma_div_unique(0, d, 0, 0);
}

/// The text of a number.
pub fn to_text(n: Number) -> (r: String)
    ensures
        r@ == display(n),
{
    if n.is_nan() {
        return text::owned("NaN");
    }
    let mut out: String = String::new();
    if n.is_infinite() {
        if n.is_negative() {
            out.append("-");
        }
        assert(out@ == sign_text(n.negative()));
        out.append("inf");
        return out;
    }
    if let Some(v) = small_whole(n) {
        if n.is_negative() && v > 0 {
            out.append("-");
        }
        assert(out@ == sign_text(n.negative() && v > 0));
        let digits: String = text::decimal_string(v);
        out.append(digits.as_str());
        return out;
    }
    proof {
        if n.magnitude() == 0 {
            lemma_zero_is_whole(n);
        }
        lemma_fraction_bounds(n);
    }
    if n.is_negative() {
        out.append("-");
    }
    assert(out@ == sign_text(n.negative()));
    let (num, den): (Natural, Natural) = fraction_of(n);
    let x: i64 = find_magnitude(&num, &den);
    let mut k: usize = 1;
    loop
        invariant
            1 <= k <= 1500,
            n.finite(),
            num@ == n.above(),
            den@ == n.below(),
            den@ > 0,
            less_pow10(num@, den@, x as int),
            -1074 < x <= 342,
            x == ten_exponent(n.above(), n.below()),
            out@ == sign_text(n.negative()),
            !n.nan(),
            !n.infinite(),
            !(whole(n) is Some && whole(n)->0 < 1_000_000_000_000_000),
            shortest(n, x as int, 1) == shortest(n, x as int, k as nat),
        decreases 1500 - k,
    {
        match find_candidate(n, &num, &den, x, k) {
            Some((c, y)) => {
                let tail: String = positional_of(&c, y);
                out.append(tail.as_str());
                return out;
            },
            None => {
                if k == 1500 {
                    let tail: String = positional_of(&Natural::from_u64(0), 0);
                    out.append(tail.as_str());
                    return out;
                }
            },
        }
        k += 1;
    }
}

/// The text of a number with exactly `p` decimal places, at least one.
pub fn to_fixed(n: Number, p: usize) -> (r: String)
    requires
        0 < p <= 18,
    ensures
        r@ == fixed(n, p as nat),
{
    if n.is_nan() {
        return text::owned("NaN");
    }
    let mut out: String = String::new();
    if n.is_negative() {
        out.append("-");
    }
    assert(out@ == sign_text(n.negative()));
    if n.is_infinite() {
        out.append("inf");
        return out;
    }
    let (num, den): (Natural, Natural) = fraction_of(n);
    let a: Natural = shifted10(&num, p as u64);
    let (q, rem): (Natural, Natural) = a.div_rem(&den);
    proof {
        lemma_div_unique(a@, den@, q@, rem@);
    }
    let twice: Natural = rem.mul_add(2, 0);
    let two: Natural = Natural::from_u64(2);
    let (half, odd): (Natural, Natural) = q.div_rem(&two);
    proof {
        lemma_div_unique(q@, 2, half@, odd@);
    }
    let units: Natural = if den.less(&twice) || (!twice.less(&den) && !odd.is_zero()) {
        q.mul_add(1, 1)
    } else {
        q.mul_add(1, 0)
    };
    let unit: Natural = shifted10(&Natural::from_u64(1), p as u64);
    proof {
        let (g, w) = (q@, pow10(p as nat));
        assert(g * 1 == g && 1 * w == w) by (nonlinear_arith);
        lemma_pow10_positive(p as nat);
        lemma_pow10_monotone(p as nat, 18);
        reveal_with_fuel(pow10, 20);
    }
    let (front, back): (Natural, Natural) = units.div_rem(&unit);
    proof {
        lemma_div_unique(units@, unit@, front@, back@);
    }
    let front_text: String = decimal_of(&front);
    out.append(front_text.as_str());
    out.append(".");
    let back_text: String = text::padded_string(back.to_u64(), p);
    out.append(back_text.as_str());
    out
}

// --------------------------------------------------------------- laws ----

/// Comparing with a power of two does not depend on how it is written.
pub(crate) proof fn lemma_less_pow2_shift(n: nat, d: nat, e: int, k: nat)
    ensures
        less_pow2(n, d, e + k) <==> n * up2(-e) < (d * up2(e)) * pow2(k),
{
    let p = pow2(k);
    lemma_pow2_positive(k);
    let j = e + k;
    if e >= 0 {
        lemma_pow2_sum(e as nat, k);
        let w = pow2(e as nat);
        assert(up2(e) == w);
        assert(up2(j) == w * p);
        assert(d * (w * p) == (d * w) * p) by (nonlinear_arith);
    } else if j >= 0 {
        lemma_pow2_sum(j as nat, (-e) as nat);
        let w = pow2(j as nat);
        let v = pow2((-e) as nat);
        lemma_pow2_positive((-e) as nat);
        assert(up2(j) == w);
        assert(p == w * v);
        assert(n * 1 < d * w <==> n * v < (d * 1) * (w * v)) by (nonlinear_arith)
            requires
                v > 0,
        ;
    } else {
        lemma_pow2_sum((-j) as nat, k);
        let w = pow2((-j) as nat);
        assert((-e) as nat == (-j) as nat + k);
        assert(up2(-e) == w * p);
        assert(n * w < d * 1 <==> n * (w * p) < (d * 1) * p) by (nonlinear_arith)
            requires
                p > 0,
        ;
    }
}

/// A ratio that is exactly the size of a finite number rounds to that number.
proof fn lemma_rounded_exact(x: Number, n: nat, d: nat)
    requires
        x.finite(),
        x.magnitude() != 0,
        d > 0,
        n * up2(-x.exponent()) == x.mantissa() * (d * up2(x.exponent())),
    ensures
        rounded(x.negative(), n, d) == x,
{
    let m = x.mantissa();
    let e = x.exponent();
    let a = n * up2(-e);
    let b = d * up2(e);
    assert(m > 0);
    if e > 0 {
        lemma_pow2_positive(e as nat);
    }
    assert(up2(e) > 0);
    assert(b > 0) by (nonlinear_arith)
        requires
            d > 0,
            up2(e) > 0,
            b == d * up2(e),
    ;
    assert(a > 0) by (nonlinear_arith)
        requires
            a == m * b,
            m > 0,
            b > 0,
    ;
    assert(n > 0) by (nonlinear_arith)
        requires
            a > 0,
            a == n * up2(-e),
            n >= 0,
    ;
    lemma_pow2_small();
    lemma_less_pow2_shift(n, d, e, 53);
    lemma_less_pow2_shift(n, d, e, 52);
    assert(m * b < b * 0x20_0000_0000_0000) by (nonlinear_arith)
        requires
            m < 0x20_0000_0000_0000,
            b > 0,
    ;
    if x.biased() != 0 {
        assert(m * b >= b * 0x10_0000_0000_0000) by (nonlinear_arith)
            requires
                m >= 0x10_0000_0000_0000,
                b > 0,
        ;
    }
    assert(is_exponent(n, d, e));
    lemma_exponent_unique(n, d, e);
    lemma_less_pow2_up(n, d, e + 53, 1024);
    lemma_div_unique(a, b, m, 0);
    assert(half_even(a, b) == m);
    assert(assemble(x.negative(), m, e) == x);
}

/// An integer below 10^15 reads back as the number it is the size of.
proof fn lemma_whole_reads_back(x: Number, w: nat)
    requires
        whole(x) == Some(w),
        w > 0,
    ensures
        decimal_number(x.negative(), w, 0) == x,
{
    let e = x.exponent();
    if e < 0 {
        lemma_pow2_positive((-e) as nat);
    }
    let (a, b) = (x.above(), x.below());
    vstd::arithmetic::div_mod::lemma_fundamental_div_mod(a as int, b as int);
    assert(b * w == a);
    assert(w * b == b * w) by (nonlinear_arith);
    assert(1 * up2(e) == up2(e)) by (nonlinear_arith);
    assert(x.magnitude() != 0) by {
        if x.magnitude() == 0 {
            assert(x.mantissa() == 0);
            assert(0 * up2(e) == 0) by (nonlinear_arith);
        }
    }
    lemma_rounded_exact(x, w, 1);
    assert(w * 1 == w) by (nonlinear_arith);
}

pub open spec fn pow5(k: nat) -> nat
    decreases k,
{
    if k == 0 {
        1
    } else {
        5 * pow5((k - 1) as nat)
    }
}

proof fn lemma_pow10_factors(k: nat)
    ensures
        pow10(k) == pow2(k) * pow5(k),
    decreases k,
{
    if k > 0 {
        lemma_pow10_factors((k - 1) as nat);
        let a = pow2((k - 1) as nat);
        let b = pow5((k - 1) as nat);
        assert((2 * a) * (5 * b) == 10 * (a * b)) by (nonlinear_arith);
    } else {
        assert(pow2(0) * pow5(0) == 1) by (nonlinear_arith)
            requires
                pow2(0) == 1,
                pow5(0) == 1,
        ;
    }
}

proof fn lemma_magnitude_exists(n: nat, d: nat, lo: int, hi: int) -> (x: int)
    requires
        !less_pow10(n, d, lo),
        less_pow10(n, d, hi),
        lo < hi,
    ensures
        lo < x <= hi,
        is_magnitude(n, d, x),
    decreases hi - lo,
{
    if less_pow10(n, d, lo + 1) {
        lo + 1
    } else {
        lemma_magnitude_exists(n, d, lo + 1, hi)
    }
}

/// With 1074 decimal places every finite number is exact.
proof fn lemma_exact_candidate(x: Number, z: int)
    requires
        x.finite(),
        x.magnitude() != 0,
        -1074 < z <= 342,
    ensures
        candidate(x, z, (z + 1074) as nat) is Some,
{
    lemma_fraction_bounds(x);
    let e = x.exponent();
    let (a, b) = (x.above(), x.below());
    let p = pow10(1074);
    lemma_pow10_positive(1074);
    let q = if e < 0 {
        (-e) as nat
    } else {
        0
    };
    assert(b == pow2(q));
    lemma_pow2_sum(q, (1074 - q) as nat);
    lemma_pow10_factors(1074);
    let r = pow2((1074 - q) as nat) * pow5(1074);
    assert(p == b * r) by (nonlinear_arith)
        requires
            p == pow2(1074) * pow5(1074),
            pow2(1074) == b * pow2((1074 - q) as nat),
            r == pow2((1074 - q) as nat) * pow5(1074),
    ;
    let num = a * p;
    let f = a * r;
    assert(num == f * b + 0) by (nonlinear_arith)
        requires
            num == a * p,
            p == b * r,
            f == a * r,
    ;
    lemma_div_unique(num, b, f, 0);
    assert(b * 1 == b) by (nonlinear_arith);
    assert(f * 1 == f) by (nonlinear_arith);
    assert(f * b == x.mantissa() * (p * up2(e))) by (nonlinear_arith)
        requires
            f * b == num,
            num == a * p,
            a == x.mantissa() * up2(e),
    ;
    let y = absolute(x);
    assert(y.finite() && y.magnitude() == x.magnitude() && y.exponent() == e && y.mantissa()
        == x.mantissa() && !y.negative());
    lemma_rounded_exact(y, f, p);
    assert(reads_back(x, f, -1074));
}

/// Some candidate from `k` on makes the shortest decimal read back.
proof fn lemma_shortest_reads_back(x: Number, z: int, k: nat, j: nat)
    requires
        k <= j <= 1500,
        candidate(x, z, j) is Some,
    ensures
        reads_back(x, shortest(x, z, k).0, shortest(x, z, k).1),
    decreases j - k,
{
    if candidate(x, z, k) is None {
        lemma_shortest_reads_back(x, z, k + 1, j);
    }
}

pub(crate) proof fn lemma_exponent_exists(n: nat, d: nat, lo: int, hi: int) -> (e: int)
    requires
        -1074 <= lo <= hi,
        lo == -1074 || !less_pow2(n, d, lo + 52),
        less_pow2(n, d, hi + 53),
    ensures
        lo <= e <= hi,
        is_exponent(n, d, e),
    decreases hi - lo,
{
    if less_pow2(n, d, lo + 53) {
        lo
    } else {
        lemma_exponent_exists(n, d, lo + 1, hi)
    }
}

/// The sign of a rounded number does not touch its size.
proof fn lemma_sign(x: Number, n: nat, d: nat)
    requires
        x.finite(),
        x.magnitude() != 0,
        d > 0,
        rounded(false, n, d) == absolute(x),
    ensures
        rounded(x.negative(), n, d) == x,
{
    if n > 0 && less_pow2(n, d, 1024) {
        let e = lemma_exponent_exists(n, d, -1074, 971);
        lemma_exponent_unique(n, d, e);
        lemma_quotient_bound(n, d, e);
        let a = n * up2(-e);
        let b = d * up2(e);
        if e > 0 {
            lemma_pow2_positive(e as nat);
        }
        assert(b > 0) by (nonlinear_arith)
            requires
                d > 0,
                up2(e) > 0,
                b == d * up2(e),
        ;
        assert(a / b < 0x20_0000_0000_0000) by (nonlinear_arith)
            requires
                a < b * 0x20_0000_0000_0000,
                b > 0,
        ;
        let m = half_even(a, b);
        assert(m <= 0x20_0000_0000_0000);
    }
}

/// The decimal that is shown reads back as the number.
proof fn lemma_shown_reads_back(x: Number)
    requires
        x.finite(),
        x.magnitude() != 0,
    ensures
        ({
            let (c, y) = shortest(x, ten_exponent(x.above(), x.below()), 1);
            decimal_number(x.negative(), c, y) == x
        }),
{
    lemma_fraction_bounds(x);
    let (a, b) = (x.above(), x.below());
    let z = lemma_magnitude_exists(a, b, -1074, 342);
    lemma_magnitude_unique(a, b, z);
    lemma_exact_candidate(x, z);
    lemma_shortest_reads_back(x, z, 1, (z + 1074) as nat);
    let (c, y) = shortest(x, z, 1);
    let (n, d) = (c * up10(y), up10(-y));
    if y < 0 {
        lemma_pow10_positive((-y) as nat);
    }
    lemma_sign(x, n, d);
}

/// All characters are decimal digits.
spec fn all_digits(s: Seq<char>) -> bool {
    forall|k: int| 0 <= k < s.len() ==> text::ascii_digit(#[trigger] s[k])
}

pub(crate) proof fn lemma_digit_run(s: Seq<char>, i: int, j: int)
    requires
        0 <= i <= j <= s.len(),
        forall|k: int| i <= k < j ==> text::ascii_digit(#[trigger] s[k]),
        j == s.len() || !text::ascii_digit(s[j]),
    ensures
        digit_run(s, i) == j,
    decreases j - i,
{
    if i < j {
        lemma_digit_run(s, i + 1, j);
    }
}

proof fn lemma_digits_concat(a: Seq<char>, b: Seq<char>, va: nat, vb: nat)
    requires
        text::digits_value(a, 10) == Some(va),
        text::digits_value(b, 10) == Some(vb),
    ensures
        text::digits_value(a + b, 10) == Some(va * pow10(b.len()) + vb),
    decreases b.len(),
{
    if b.len() == 0 {
        assert(a + b =~= a);
        assert(va * 1 == va) by (nonlinear_arith);
    } else {
        let c = b.drop_last();
        assert((a + b).drop_last() =~= a + c);
        let vc = text::digits_value(c, 10)->0;
        lemma_digits_concat(a, c, va, vc);
        let p = pow10(c.len());
        let d = text::digit_value(b.last(), 10)->0;
        assert((va * p + vc) * 10 + d == va * (10 * p) + (vc * 10 + d)) by (nonlinear_arith);
    }
}

proof fn lemma_zeros(k: int)
    ensures
        all_digits(zeros(k)),
        text::digits_value(zeros(k), 10) == Some(0nat),
    decreases k,
{
    if k > 0 {
        lemma_zeros(k - 1);
        assert(zeros(k).drop_last() =~= zeros(k - 1));
    }
}

/// A run of digits is a numeral.
proof fn lemma_whole_numeral(t: Seq<char>, v: nat)
    requires
        t.len() > 0,
        all_digits(t),
        text::digits_value(t, 10) == Some(v),
    ensures
        numeral(t) == Some((v, 0int)),
{
    lemma_digit_run(t, 0, t.len() as int);
    assert(t.take(t.len() as int) + Seq::<char>::empty() =~= t);
}

/// Digits around a point are a numeral.
proof fn lemma_point_numeral(a: Seq<char>, b: Seq<char>, v: nat)
    requires
        a.len() > 0,
        all_digits(a),
        all_digits(b),
        text::digits_value(a + b, 10) == Some(v),
    ensures
        numeral(a + "."@ + b) == Some((v, -(b.len() as int))),
{
    reveal_strlit(".");
    let t = a + "."@ + b;
    let n = a.len() as int;
    assert(t[n] == '.');
    assert forall|k: int| 0 <= k < n implies text::ascii_digit(#[trigger] t[k]) by {
        assert(t[k] == a[k]);
    }
    lemma_digit_run(t, 0, n);
    assert forall|k: int| n + 1 <= k < t.len() implies text::ascii_digit(#[trigger] t[k]) by {
        assert(t[k] == b[k - n - 1]);
    }
    lemma_digit_run(t, n + 1, t.len() as int);
    assert(t.subrange(n + 1, t.len() as int) =~= b);
    assert(t.take(n) =~= a);
}

/// Positional notation stands for the decimal it writes out.
proof fn lemma_positional(negative: bool, c: nat, y: int)
    ensures
        ({
            let t = positional(c, y);
            t.len() > 0 && text::ascii_digit(t[0]) && (numeral(t) matches Some((d, z))
                && decimal_number(negative, d, z) == decimal_number(negative, c, y))
        }),
        forall|k: int|
            0 <= k < positional(c, y).len() ==> text::ascii_digit(#[trigger] positional(c, y)[k])
                || positional(c, y)[k] == '.',
{
    let digits = text::decimal(c);
    text::lemma_decimal(c);
    let t = positional(c, y);
    let n = digits.len() as int;
    let whole = n + y;
    reveal_strlit(".");
    reveal_strlit("0.");
    if y >= 0 {
        let z = zeros(y);
        lemma_zeros(y);
        lemma_digits_concat(digits, z, c, 0);
        assert(all_digits(t)) by {
            assert forall|k: int| 0 <= k < t.len() implies text::ascii_digit(#[trigger] t[k]) by {
                if k < n {
                    assert(t[k] == digits[k]);
                } else {
                    assert(t[k] == z[k - n]);
                }
            }
        }
        assert(t[0] == digits[0]);
        let v = c * pow10(z.len()) + 0;
        lemma_whole_numeral(t, v as nat);
        assert(v == c * up10(y)) by {
            if y == 0 {
                assert(c * 1 == c) by (nonlinear_arith);
            }
        }
        assert(v * 1 == v) by (nonlinear_arith);
    } else if whole > 0 {
        let a = digits.take(whole);
        let b = digits.skip(whole);
        assert(a + b =~= digits);
        assert(all_digits(a)) by {
            assert forall|k: int| 0 <= k < a.len() implies text::ascii_digit(#[trigger] a[k]) by {
                assert(a[k] == digits[k]);
            }
        }
        assert(all_digits(b)) by {
            assert forall|k: int| 0 <= k < b.len() implies text::ascii_digit(#[trigger] b[k]) by {
                assert(b[k] == digits[whole + k]);
            }
        }
        lemma_point_numeral(a, b, c);
        assert(t[0] == digits[0]);
        assert forall|k: int| 0 <= k < t.len() implies text::ascii_digit(#[trigger] t[k]) || t[k]
            == '.' by {
            if k < whole {
                assert(t[k] == digits[k]);
            } else if k > whole {
                assert(t[k] == digits[k - 1]);
            }
        }
    } else {
        let zero = seq!['0'];
        let z = zeros(-whole);
        let b = z + digits;
        lemma_zeros(-whole);
        lemma_digits_concat(z, digits, 0, c);
        assert(0 * pow10(digits.len()) + c == c) by (nonlinear_arith);
        assert(zero.drop_last() =~= Seq::<char>::empty());
        assert(text::digits_value(zero, 10) == Some(0nat)) by {
            assert(text::digits_value(zero.drop_last(), 10) == Some(0nat));
        }
        lemma_digits_concat(zero, b, 0, c);
        assert(0 * pow10(b.len()) + c == c) by (nonlinear_arith);
        assert(all_digits(b)) by {
            assert forall|k: int| 0 <= k < b.len() implies text::ascii_digit(#[trigger] b[k]) by {
                if k < z.len() {
                    assert(b[k] == z[k]);
                } else {
                    assert(b[k] == digits[k - z.len()]);
                }
            }
        }
        lemma_point_numeral(zero, b, c);
        assert(t =~= zero + "."@ + b);
        assert forall|k: int| 0 <= k < t.len() implies text::ascii_digit(#[trigger] t[k]) || t[k]
            == '.' by {
            if k > 1 {
                assert(t[k] == b[k - 2]);
            }
        }
    }
}

/// Text that begins with a digit is no name of a number.
proof fn lemma_not_named(t: Seq<char>)
    requires
        t.len() > 0,
        text::ascii_digit(t[0]),
    ensures
        !text::same_letters(t, "nan"@),
        !text::same_letters(t, "inf"@),
        !text::same_letters(t, "infinity"@),
{
    reveal_strlit("nan");
    reveal_strlit("inf");
    reveal_strlit("infinity");
    assert(text::ascii_lower(t)[0] == t[0]);
    assert(text::ascii_lower("nan"@)[0] == 'n');
    assert(text::ascii_lower("inf"@)[0] == 'i');
    assert(text::ascii_lower("infinity"@)[0] == 'i');
}

/// A signed numeral reads as the number it stands for.
proof fn lemma_signed_numeral(negative: bool, t: Seq<char>, c: nat, y: int)
    requires
        t.len() > 0,
        text::ascii_digit(t[0]),
        numeral(t) == Some((c, y)),
    ensures
        read(sign_text(negative) + t) == Some(decimal_number(negative, c, y)),
{
    reveal_strlit("-");
    lemma_not_named(t);
    let s = sign_text(negative) + t;
    if negative {
        assert(s[0] == '-');
        assert(s.skip(1) =~= t);
    } else {
        assert(s =~= t);
    }
}

proof fn lemma_display_reads_back(x: Number)
    requires
        x.finite(),
        x.bits != 0x8000_0000_0000_0000,
    ensures
        read(display(x)) == Some(x),
{
    if whole(x) is Some && whole(x)->0 < 1_000_000_000_000_000 {
        let w = whole(x)->0;
        let t = text::decimal(w);
        text::lemma_decimal(w);
        lemma_whole_numeral(t, w);
        lemma_signed_numeral(x.negative() && w > 0, t, w, 0);
        if w > 0 {
            lemma_whole_reads_back(x, w);
        } else {
            lemma_zero_size(x);
            assert(0 * up10(0) == 0) by (nonlinear_arith);
        }
    } else {
        assert(x.magnitude() != 0) by {
            if x.magnitude() == 0 {
                lemma_zero_is_whole(x);
            }
        }
        lemma_shown_reads_back(x);
        let (c, y) = shortest(x, ten_exponent(x.above(), x.below()), 1);
        lemma_positional(x.negative(), c, y);
        let (d, z) = numeral(positional(c, y))->0;
        lemma_signed_numeral(x.negative(), positional(c, y), d, z);
    }
}

/// The two zeros have one text and are equal.
pub proof fn lemma_negative_zero(x: Number)
    requires
        x.bits == 0x8000_0000_0000_0000,
    ensures
        x.finite(),
        zero(false).finite(),
        zero(false).bits == 0,
        display(x) == display(zero(false)),
        equal(zero(false), x),
{
    let z = zero(false);
    lemma_zero_is_whole(x);
    lemma_zero_is_whole(z);
    let e = min_exponent(z, x);
    assert(x.mantissa() == 0 && z.mantissa() == 0);
    assert(0 * up2(x.exponent() - e) == 0) by (nonlinear_arith);
    assert(0 * up2(z.exponent() - e) == 0) by (nonlinear_arith);
}

/// The text of a finite number reads back as an equal number, and but for the
/// sign of zero as that very number.
pub proof fn law_display_reads_back(x: Number)
    requires
        x.finite(),
    ensures
        read(display(x)) matches Some(y) && equal(y, x),
        x.bits != 0x8000_0000_0000_0000 ==> read(display(x)) == Some(x),
{
    if x.bits == 0x8000_0000_0000_0000 {
        lemma_negative_zero(x);
        lemma_display_reads_back(zero(false));
    } else {
        lemma_display_reads_back(x);
    }
}

/// The text of a finite number holds an optional minus sign, then digits and
/// at most a point.
pub proof fn law_display_is_a_numeral(x: Number)
    requires
        x.finite(),
    ensures
        display(x).len() > 0,
        display(x)[0] == '-' || text::ascii_digit(display(x)[0]),
        forall|k: int|
            0 <= k < display(x).len() ==> text::ascii_digit(#[trigger] display(x)[k]) || display(
                x,
            )[k] == '.' || display(x)[k] == '-',
{
    reveal_strlit("-");
    let s = display(x);
    if whole(x) is Some && whole(x)->0 < 1_000_000_000_000_000 {
        let w = whole(x)->0;
        text::lemma_decimal(w);
        let t = text::decimal(w);
        let sign = sign_text(x.negative() && w > 0);
        assert(sign.len() == 0 ==> s[0] == t[0]);
        assert forall|k: int| 0 <= k < s.len() implies text::ascii_digit(#[trigger] s[k]) || s[k]
            == '.' || s[k] == '-' by {
            if k >= sign.len() {
                assert(s[k] == t[k - sign.len()]);
            }
        }
    } else {
        let (c, y) = shortest(x, ten_exponent(x.above(), x.below()), 1);
        lemma_positional(x.negative(), c, y);
        let t = positional(c, y);
        let sign = sign_text(x.negative());
        assert(sign.len() == 0 ==> s[0] == t[0]);
        assert forall|k: int| 0 <= k < s.len() implies text::ascii_digit(#[trigger] s[k]) || s[k]
            == '.' || s[k] == '-' by {
            if k >= sign.len() {
                assert(s[k] == t[k - sign.len()]);
            }
        }
    }
}

/// A number of size zero is a zero.
proof fn lemma_zero_size(x: Number)
    requires
        whole(x) == Some(0nat),
        !x.negative() || x.bits != 0x8000_0000_0000_0000,
    ensures
        x == zero(false),
{
    let e = x.exponent();
    if e > 0 {
        lemma_pow2_positive(e as nat);
    }
    if e < 0 {
        lemma_pow2_positive((-e) as nat);
    }
    let (a, b) = (x.above(), x.below());
    vstd::arithmetic::div_mod::lemma_fundamental_div_mod(a as int, b as int);
    assert(b * 0 == 0) by (nonlinear_arith);
    assert(x.mantissa() == 0) by (nonlinear_arith)
        requires
            a == 0,
            a == x.mantissa() * up2(e),
            up2(e) > 0,
            x.mantissa() >= 0,
    ;
}

/// The place of a number among all others: its pattern counted up from zero,
/// and down for the negative ones.
pub open spec fn standing(n: Number) -> int {
    if n.bits < 0x8000_0000_0000_0000 {
        n.bits as int
    } else {
        0x8000_0000_0000_0000 - n.bits
    }
}

/// The pattern stands for a number, finite or infinite.
pub open spec fn numeric(n: Number) -> bool {
    n.bits <= 0x7FF0_0000_0000_0000 || 0x8000_0000_0000_0000 <= n.bits <= 0xFFF0_0000_0000_0000
}

/// Numbers are ordered as their patterns are, so that the two zeros are equal;
/// what is no number is neither below nor equal to anything.
pub proof fn law_numbers_are_ordered(a: Number, b: Number)
    ensures
        numeric(a) && numeric(b) ==> (below(a, b) <==> standing(a) < standing(b)),
        numeric(a) && numeric(b) ==> (equal(a, b) <==> standing(a) == standing(b)),
        !numeric(a) || !numeric(b) ==> !below(a, b) && !equal(a, b),
{
    let (x, y) = (a.magnitude(), b.magnitude());
    assert(numeric(a) == !a.nan());
    assert(numeric(b) == !b.nan());
    if a.finite() && b.finite() {
        let e = min_exponent(a, b);
        lemma_magnitude_zero(a, e);
        lemma_magnitude_zero(b, e);
        if x < y {
            lemma_magnitude_order(a, b);
        } else if y < x {
            lemma_magnitude_order(b, a);
        }
    }
}

/// The power of two just at or below an integer of at most 53 bits.
pub(crate) proof fn lemma_top_bit(n: nat, k: nat) -> (r: nat)
    requires
        1 <= n < 0x20_0000_0000_0000,
        n < 2 * pow2(k),
        k <= 52,
    ensures
        r <= k,
        pow2(r) <= n < 2 * pow2(r),
    decreases k,
{
    if n >= pow2(k) {
        k
    } else {
        lemma_top_bit(n, (k - 1) as nat)
    }
}

/// The pattern of an integer: its highest bit at `k`.
pub(crate) proof fn lemma_integer_pattern(n: nat, k: nat)
    requires
        1 <= n < 0x20_0000_0000_0000,
        k <= 52,
        pow2(k) <= n < 2 * pow2(k),
    ensures
        ({
            let m = n * pow2((52 - k) as nat);
            &&& 0x10_0000_0000_0000 <= m < 0x20_0000_0000_0000
            &&& of_integer(n).bits == (k + 1023) * 0x10_0000_0000_0000 + (m
                - 0x10_0000_0000_0000)
        }),
{
    let j = (52 - k) as nat;
    let (p, q) = (pow2(k), pow2(j));
    let m = n * q;
    lemma_pow2_small();
    lemma_pow2_sum(k, j);
    lemma_pow2_positive(j);
    assert(p * q == 0x10_0000_0000_0000);
    assert(p * q <= n * q < 2 * (p * q)) by (nonlinear_arith)
        requires
            p <= n < 2 * p,
            q > 0,
    ;
    let bits = (k + 1023) * 0x10_0000_0000_0000 + (m - 0x10_0000_0000_0000);
    let x = Number { bits: bits as u64 };
    assert(0 <= bits < 0x7FF0_0000_0000_0000);
    assert(x.biased() == k + 1023);
    assert(x.fraction() == m - 0x10_0000_0000_0000);
    assert(x.mantissa() == m);
    assert(x.exponent() == k - 52);
    let e = x.exponent();
    assert(up2(-e) == q);
    assert(up2(e) == 1);
    assert(1 * up2(e) == 1) by (nonlinear_arith)
        requires
            up2(e) == 1,
    ;
    assert(m * (1 * up2(e)) == m) by (nonlinear_arith)
        requires
            1 * up2(e) == 1,
    ;
    lemma_rounded_exact(x, n, 1);
}

/// Integers of at most 53 bits are exact: different ones are different
/// numbers, in the same order, and sums come out exactly.
pub proof fn law_integers_are_exact(m: nat, n: nat)
    requires
        m < 0x20_0000_0000_0000,
        n < 0x20_0000_0000_0000,
    ensures
        numeric(of_integer(m)) && standing(of_integer(m)) >= 0,
        standing(of_integer(m)) < standing(of_integer(n)) <==> m < n,
        standing(of_integer(m)) == 0 <==> m == 0,
        m + n < 0x20_0000_0000_0000 ==> sum(of_integer(m), of_integer(n)) == of_integer(m + n),
{
    lemma_pow2_small();
    lemma_integer_bounds(m);
    lemma_integer_bounds(n);
    if m < n {
        lemma_integers_ordered(m, n);
    } else if n < m {
        lemma_integers_ordered(n, m);
    }
    if m + n < 0x20_0000_0000_0000 {
        lemma_integer_sum(m, n);
    }
}

/// An integer is below the infinities, and zero only where it is zero.
pub(crate) proof fn lemma_integer_bounds(n: nat)
    requires
        n < 0x20_0000_0000_0000,
    ensures
        of_integer(n).bits < 0x7FF0_0000_0000_0000,
        of_integer(n).bits == 0 <==> n == 0,
        n > 0 ==> of_integer(n).bits >= 0x3FF0_0000_0000_0000,
{
    if n > 0 {
        lemma_pow2_small();
        let k = lemma_top_bit(n, 52);
        lemma_integer_pattern(n, k);
    }
}

proof fn lemma_integers_ordered(m: nat, n: nat)
    requires
        m < n < 0x20_0000_0000_0000,
    ensures
        of_integer(m).bits < of_integer(n).bits,
{
    lemma_integer_bounds(m);
    lemma_integer_bounds(n);
    if m > 0 {
        lemma_pow2_small();
        let j = lemma_top_bit(m, 52);
        let k = lemma_top_bit(n, 52);
        lemma_integer_pattern(m, j);
        lemma_integer_pattern(n, k);
        if j > k {
            lemma_pow2_monotone((k + 1) as nat, j);
        }
        if j == k {
            let q = pow2((52 - k) as nat);
            lemma_pow2_positive((52 - k) as nat);
            assert(m * q < n * q) by (nonlinear_arith)
                requires
                    m < n,
                    q > 0,
            ;
        }
    }
}

/// An integer in units of `2^e`, for an exponent at or below its own.
proof fn lemma_integer_units(n: nat, e: int)
    requires
        n < 0x20_0000_0000_0000,
        e <= of_integer(n).exponent(),
        e <= 0,
    ensures
        signed_units(of_integer(n), e) == n * up2(-e),
        of_integer(n).exponent() <= 0,
{
    let x = of_integer(n);
    lemma_integer_bounds(n);
    if n == 0 {
        assert(x.mantissa() == 0);
        assert(0 * up2(x.exponent() - e) == 0) by (nonlinear_arith);
        assert(0 * up2(-e) == 0) by (nonlinear_arith);
    } else {
        lemma_pow2_small();
        let k = lemma_top_bit(n, 52);
        lemma_integer_pattern(n, k);
        let j = (52 - k) as nat;
        let q = pow2(j);
        let m = n * q;
        assert(x.biased() == k + 1023);
        assert(x.mantissa() == m);
        assert(x.exponent() == k - 52);
        let i = (x.exponent() - e) as nat;
        lemma_pow2_sum(j, i);
        let w = pow2(i);
        assert(up2(x.exponent() - e) == w);
        assert(up2(-e) == q * w);
        assert((n * q) * w == n * (q * w)) by (nonlinear_arith);
    }
}

proof fn lemma_integer_sum(m: nat, n: nat)
    requires
        m + n < 0x20_0000_0000_0000,
    ensures
        sum(of_integer(m), of_integer(n)) == of_integer(m + n),
{
    let (a, b) = (of_integer(m), of_integer(n));
    lemma_integer_bounds(m);
    lemma_integer_bounds(n);
    lemma_integer_bounds(m + n);
    assert(a.finite() && b.finite());
    let e = min_exponent(a, b);
    assert(e <= 0) by {
        lemma_integer_exponent(m);
    }
    lemma_integer_units(m, e);
    lemma_integer_units(n, e);
    let w = up2(-e);
    if e < 0 {
        lemma_pow2_positive((-e) as nat);
    }
    assert(m * w + n * w == (m + n) * w) by (nonlinear_arith);
    if m + n == 0 {
        assert(0 * w == 0) by (nonlinear_arith);
        assert(sum(a, b) == zero(false));
        assert(of_integer(0) == zero(false));
    } else {
        let s = ((m + n) * w) as nat;
        assert(s > 0) by (nonlinear_arith)
            requires
                s == (m + n) * w,
                m + n > 0,
                w > 0,
        ;
        assert(sum(a, b) == scaled(false, s, e));
        let x = of_integer(m + n);
        lemma_integer_scaled(m + n, e);
    }
}

proof fn lemma_integer_exponent(n: nat)
    requires
        n < 0x20_0000_0000_0000,
    ensures
        -1074 <= of_integer(n).exponent() <= 0,
{
    lemma_integer_bounds(n);
    if n > 0 {
        lemma_pow2_small();
        let k = lemma_top_bit(n, 52);
        lemma_integer_pattern(n, k);
        assert(of_integer(n).biased() == k + 1023);
    }
}

/// An integer given in units of `2^e` rounds to that integer.
proof fn lemma_integer_scaled(n: nat, e: int)
    requires
        0 < n < 0x20_0000_0000_0000,
        e <= 0,
    ensures
        scaled(false, n * up2(-e), e) == of_integer(n),
{
    lemma_pow2_small();
    let k = lemma_top_bit(n, 52);
    lemma_integer_pattern(n, k);
    lemma_integer_bounds(n);
    let x = of_integer(n);
    let j = (52 - k) as nat;
    let q = pow2(j);
    assert(x.biased() == k + 1023);
    assert(x.mantissa() == n * q);
    assert(x.exponent() == k - 52);
    let w = up2(-e);
    if e < 0 {
        lemma_pow2_positive((-e) as nat);
    }
    let s = n * w;
    assert(s * up2(e) == s) by (nonlinear_arith)
        requires
            up2(e) == 1,
    ;
    assert(up2(-x.exponent()) == q);
    assert(up2(x.exponent()) == 1);
    assert((n * w) * q == (n * q) * (w * 1)) by (nonlinear_arith);
    lemma_rounded_exact(x, s, w);
}

/// Decimal notation stands for its integer, with a minus sign for its
/// opposite, and an integer below `10^15` is shown that way.
pub proof fn law_integers_in_text(n: nat)
    ensures
        read(text::decimal(n)) == Some(of_integer(n)),
        read(seq!['-'] + text::decimal(n)) == Some(rounded(true, n, 1)),
        n < 1_000_000_000_000_000 ==> display(of_integer(n)) == text::decimal(n),
        0 < n < 1_000_000_000_000_000 ==> rounded(true, n, 1).bits == of_integer(n).bits
            + 0x8000_0000_0000_0000 && display(rounded(true, n, 1)) == seq!['-'] + text::decimal(n),
{
    let t = text::decimal(n);
    text::lemma_decimal(n);
    lemma_whole_numeral(t, n);
    lemma_signed_numeral(false, t, n, 0);
    lemma_signed_numeral(true, t, n, 0);
    reveal_strlit("-");
    assert(sign_text(true) =~= seq!['-']);
    assert(sign_text(false) + t =~= t);
    assert(n * up10(0) == n) by (nonlinear_arith)
        requires
            up10(0) == 1,
    ;
    if n < 1_000_000_000_000_000 {
        let x = of_integer(n);
        lemma_integer_bounds(n);
        lemma_integer_exponent(n);
        if n == 0 {
            lemma_zero_is_whole(x);
        } else {
            lemma_pow2_small();
            let k = lemma_top_bit(n, 52);
            lemma_integer_pattern(n, k);
            let q = pow2((52 - k) as nat);
            lemma_pow2_positive((52 - k) as nat);
            let y = Number { bits: (x.bits + 0x8000_0000_0000_0000) as u64 };
            assert(x.biased() == k + 1023 && y.biased() == k + 1023);
            assert(x.mantissa() == n * q && y.mantissa() == n * q);
            assert(x.exponent() == k - 52 && y.exponent() == k - 52);
            assert(x.below() == q && y.below() == q);
            assert(up2(x.exponent()) == 1);
            assert((n * q) * 1 == n * q) by (nonlinear_arith);
            assert(x.above() == n * q && y.above() == n * q);
            lemma_div_unique(n * q, q, n, 0);
            assert(whole(x) == Some(n) && whole(y) == Some(n));
            assert(x.negative() == false && y.negative());
            lemma_whole_reads_back(y, n);
            assert(decimal_number(true, n, 0) == rounded(true, n, 1));
        }
    }
}

/// An integer is its own index.
pub proof fn lemma_clamped_integer(n: nat, max: nat)
    requires
        n < 0x20_0000_0000_0000,
        n <= max,
    ensures
        of_integer(n).clamped(max) == n,
{
    let x = of_integer(n);
    lemma_integer_bounds(n);
    if n == 0 {
        lemma_zero_is_whole(x);
    } else {
        lemma_pow2_small();
        let k = lemma_top_bit(n, 52);
        lemma_integer_pattern(n, k);
        let q = pow2((52 - k) as nat);
        lemma_pow2_positive((52 - k) as nat);
        assert(x.biased() == k + 1023);
        assert(x.mantissa() == n * q);
        assert(x.exponent() == k - 52);
        assert(x.below() == q);
        assert((n * q) * 1 == n * q) by (nonlinear_arith);
        assert(x.above() == n * q);
        lemma_div_unique(n * q, q, n, 0);
    }
}

} // verus!
