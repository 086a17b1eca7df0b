//! Natural numbers of any size, as limbs of 32 bits, least significant
//! first. Leading zero limbs are allowed.

use vstd::prelude::*;

verus! {

/// The weight of limb number `k`.
pub open spec fn weight(k: nat) -> nat
    decreases k,
{
    if k == 0 {
        1
    } else {
        0x1_0000_0000 * weight((k - 1) as nat)
    }
}

/// The number that the limbs stand for.
pub open spec fn limbs_value(s: Seq<u32>) -> nat
    decreases s.len(),
{
    if s.len() == 0 {
        0
    } else {
        limbs_value(s.drop_last()) + s.last() as nat * weight((s.len() - 1) as nat)
    }
}

/// A natural number.
pub struct Natural {
    limbs: Vec<u32>,
}

impl View for Natural {
    type V = nat;

    closed spec fn view(&self) -> nat {
        limbs_value(self.limbs@)
    }
}

proof fn lemma_weight_positive(k: nat)
    ensures
        weight(k) > 0,
    decreases k,
{
    if k > 0 {
        lemma_weight_positive((k - 1) as nat);
    }
}

proof fn lemma_weight_sum(a: nat, b: nat)
    ensures
        weight(a + b) == weight(a) * weight(b),
    decreases a,
{
    if a > 0 {
        lemma_weight_sum((a - 1) as nat, b);
        let w = weight((a - 1) as nat);
        let v = weight(b);
        assert((0x1_0000_0000 * w) * v == 0x1_0000_0000 * (w * v)) by (nonlinear_arith);
        assert((a + b - 1) as nat == (a - 1) as nat + b);
    } else {
        assert(weight(0) * weight(b) == weight(b)) by (nonlinear_arith)
            requires
                weight(0) == 1,
        ;
    }
}

proof fn lemma_push(s: Seq<u32>, x: u32)
    ensures
        limbs_value(s.push(x)) == limbs_value(s) + x as nat * weight(s.len()),
{
    assert(s.push(x).drop_last() == s);
}

proof fn lemma_take_next(s: Seq<u32>, i: int)
    requires
        0 <= i < s.len(),
    ensures
        limbs_value(s.take(i + 1)) == limbs_value(s.take(i)) + s[i] as nat * weight(i as nat),
{
    assert(s.take(i + 1).drop_last() == s.take(i));
}

proof fn lemma_below_weight(s: Seq<u32>)
    ensures
        limbs_value(s) < weight(s.len()),
    decreases s.len(),
{
    if s.len() > 0 {
        lemma_below_weight(s.drop_last());
        let w = weight((s.len() - 1) as nat);
        let x = s.last() as nat;
        assert(x * w <= 0xFFFF_FFFF * w) by (nonlinear_arith)
            requires
                x <= 0xFFFF_FFFF,
        ;
    }
}

proof fn lemma_split(s: Seq<u32>, i: int)
    requires
        0 <= i <= s.len(),
    ensures
        limbs_value(s) == limbs_value(s.take(i)) + weight(i as nat) * limbs_value(s.skip(i)),
    decreases s.len(),
{
    if i == s.len() {
        assert(s.take(i) == s);
        assert(limbs_value(s.skip(i)) == 0);
    } else {
        let t = s.drop_last();
        lemma_split(t, i);
        assert(t.take(i) == s.take(i));
        assert(s.skip(i).drop_last() == t.skip(i));
        let k = (s.len() - 1 - i) as nat;
        lemma_weight_sum(i as nat, k);
        let a = weight(i as nat);
        let b = limbs_value(t.skip(i));
        let x = s.last() as nat;
        let w = weight(k);
        assert(a * b + x * (a * w) == a * (b + x * w)) by (nonlinear_arith);
    }
}

proof fn lemma_zero_top(s: Seq<u32>, i: int)
    requires
        0 <= i <= s.len(),
        forall|k: int| i <= k < s.len() ==> s[k] == 0,
    ensures
        limbs_value(s) == limbs_value(s.take(i)),
    decreases s.len(),
{
    if i == s.len() {
        assert(s.take(i) == s);
    } else {
        lemma_zero_top(s.drop_last(), i);
        assert(s.drop_last().take(i) == s.take(i));
        assert(s.last() as nat * weight((s.len() - 1) as nat) == 0) by (nonlinear_arith)
            requires
                s.last() == 0,
        ;
    }
}

impl Natural {
    /// Limb number `i`, zero above the stored ones.
    closed spec fn limb(self, i: int) -> u32 {
        if 0 <= i < self.limbs@.len() {
            self.limbs@[i]
        } else {
            0
        }
    }

    fn get(&self, i: usize) -> (r: u32)
        ensures
            r == self.limb(i as int),
    {
        if i < self.limbs.len() {
            self.limbs[i]
        } else {
            0
        }
    }

    /// The value of the `k` lowest limbs.
    closed spec fn low(self, k: nat) -> nat {
        limbs_value(Seq::new(k, |i: int| self.limb(i)))
    }

    proof fn lemma_low_next(self, k: nat)
        ensures
            self.low(k + 1) == self.low(k) + self.limb(k as int) as nat * weight(k),
    {
        let s = Seq::new(k + 1, |i: int| self.limb(i));
        assert(s.drop_last() == Seq::new(k, |i: int| self.limb(i)));
    }

    proof fn lemma_low_all(self, k: nat)
        requires
            k >= self.limbs@.len(),
        ensures
            self.low(k) == self@,
    {
        let s = Seq::new(k, |i: int| self.limb(i));
        lemma_zero_top(s, self.limbs@.len() as int);
        assert(s.take(self.limbs@.len() as int) == self.limbs@);
    }

    pub fn from_u64(n: u64) -> (r: Natural)
        ensures
            r@ == n,
    {
        let mut limbs: Vec<u32> = Vec::new();
        limbs.push((n % 0x1_0000_0000) as u32);
        limbs.push((n / 0x1_0000_0000) as u32);
        proof {
            let e = Seq::<u32>::empty();
            lemma_push(e, limbs@[0]);
            lemma_push(e.push(limbs@[0]), limbs@[1]);
            assert(limbs@ == e.push(limbs@[0]).push(limbs@[1]));
            reveal_with_fuel(weight, 3);
            assert(limbs@[0] as nat * weight(0) == limbs@[0]) by (nonlinear_arith)
                requires
                    weight(0) == 1,
            ;
            assert(limbs@[1] as nat * weight(1) == limbs@[1] * 0x1_0000_0000) by (nonlinear_arith)
                requires
                    weight(1) == 0x1_0000_0000,
            ;
        }
        Natural { limbs }
    }

    pub fn copy(&self) -> (r: Natural)
        ensures
            r@ == self@,
    {
        let mut limbs: Vec<u32> = Vec::new();
        let mut i: usize = 0;
        while i < self.limbs.len()
            invariant
                i <= self.limbs.len(),
                limbs@ == self.limbs@.take(i as int),
            decreases self.limbs.len() - i,
        {
            limbs.push(self.limbs[i]);
            assert(self.limbs@.take(i + 1) == self.limbs@.take(i as int).push(
                self.limbs@[i as int],
            ));
            i += 1;
        }
        assert(self.limbs@.take(i as int) == self.limbs@);
        Natural { limbs }
    }

    /// `self * m + c`.
    pub fn mul_add(&self, m: u32, c: u32) -> (r: Natural)
        ensures
            r@ == self@ * m + c,
    {
        let mut out: Vec<u32> = Vec::new();
        let mut carry: u64 = c as u64;
        let mut i: usize = 0;
        proof {
            assert(limbs_value(self.limbs@.take(0)) == 0);
            assert(limbs_value(self.limbs@.take(0)) * m == 0) by (nonlinear_arith)
                requires
                    limbs_value(self.limbs@.take(0)) == 0,
            ;
            assert(carry as nat * weight(0) == carry) by (nonlinear_arith)
                requires
                    weight(0) == 1,
            ;
        }
        while i < self.limbs.len()
            invariant
                i <= self.limbs.len(),
                out@.len() == i,
                carry < 0x1_0000_0000,
                limbs_value(out@) + carry as nat * weight(i as nat) == limbs_value(
                    self.limbs@.take(i as int),
                ) * m + c,
            decreases self.limbs.len() - i,
        {
            let x: u64 = self.limbs[i] as u64;
            assert(x * m <= 0xFFFF_FFFF * 0xFFFF_FFFF) by (nonlinear_arith)
                requires
                    x <= 0xFFFF_FFFF,
                    m <= 0xFFFF_FFFF,
            ;
            let t: u64 = x * m as u64 + carry;
            let lo: u32 = (t % 0x1_0000_0000) as u32;
            let hi: u64 = t / 0x1_0000_0000;
            proof {
                lemma_push(out@, lo);
                lemma_take_next(self.limbs@, i as int);
                let w = weight(i as nat);
                let v = limbs_value(self.limbs@.take(i as int));
                assert(weight((i + 1) as nat) == 0x1_0000_0000 * w);
                assert(hi as nat * (0x1_0000_0000 * w) + lo as nat * w == t as nat * w)
                    by (nonlinear_arith)
                    requires
                        t == hi * 0x1_0000_0000 + lo,
                ;
                assert(t as nat * w == x as nat * w * m + carry as nat * w) by (nonlinear_arith)
                    requires
                        t == x * m + carry,
                ;
                assert((v + x as nat * w) * m == v * m + x as nat * w * m) by (nonlinear_arith);
            }
            out.push(lo);
            carry = hi;
            i += 1;
        }
        assert(self.limbs@.take(i as int) == self.limbs@);
        proof {
            lemma_push(out@, carry as u32);
        }
        out.push(carry as u32);
        Natural { limbs: out }
    }

    /// `self + other`.
    pub fn plus(&self, other: &Natural) -> (r: Natural)
        ensures
            r@ == self@ + other@,
    {
        let n: usize = if self.limbs.len() > other.limbs.len() {
            self.limbs.len()
        } else {
            other.limbs.len()
        };
        let mut out: Vec<u32> = Vec::new();
        let mut carry: u64 = 0;
        let mut i: usize = 0;
        assert(self.low(0) == 0 && other.low(0) == 0);
        while i < n
            invariant
                i <= n,
                out@.len() == i,
                carry <= 1,
                limbs_value(out@) + carry as nat * weight(i as nat) == self.low(i as nat)
                    + other.low(i as nat),
            decreases n - i,
        {
            let x: u64 = self.get(i) as u64;
            let y: u64 = other.get(i) as u64;
            let t: u64 = x + y + carry;
            let lo: u32 = (t % 0x1_0000_0000) as u32;
            let hi: u64 = t / 0x1_0000_0000;
            proof {
                lemma_push(out@, lo);
                self.lemma_low_next(i as nat);
                other.lemma_low_next(i as nat);
                let w = weight(i as nat);
                assert(weight((i + 1) as nat) == 0x1_0000_0000 * w);
                assert(hi as nat * (0x1_0000_0000 * w) + lo as nat * w == x as nat * w + y as nat
                    * w + carry as nat * w) by (nonlinear_arith)
                    requires
                        x + y + carry == hi * 0x1_0000_0000 + lo,
                ;
            }
            out.push(lo);
            carry = hi;
            i += 1;
        }
        proof {
            self.lemma_low_all(n as nat);
            other.lemma_low_all(n as nat);
            lemma_push(out@, carry as u32);
        }
        out.push(carry as u32);
        Natural { limbs: out }
    }

    /// `self - other`.
    pub fn minus(&self, other: &Natural) -> (r: Natural)
        requires
            self@ >= other@,
        ensures
            r@ == self@ - other@,
    {
        let n: usize = if self.limbs.len() > other.limbs.len() {
            self.limbs.len()
        } else {
            other.limbs.len()
        };
        let mut out: Vec<u32> = Vec::new();
        let mut borrow: u64 = 0;
        let mut i: usize = 0;
        assert(self.low(0) == 0 && other.low(0) == 0);
        while i < n
            invariant
                i <= n,
                out@.len() == i,
                borrow <= 1,
                limbs_value(out@) + other.low(i as nat) == self.low(i as nat) + borrow as nat
                    * weight(i as nat),
            decreases n - i,
        {
            let x: u64 = self.get(i) as u64;
            let y: u64 = other.get(i) as u64;
            let (d, b): (u64, u64) = if x >= y + borrow {
                (x - y - borrow, 0)
            } else {
                (x + 0x1_0000_0000 - y - borrow, 1)
            };
            proof {
                lemma_push(out@, d as u32);
                self.lemma_low_next(i as nat);
                other.lemma_low_next(i as nat);
                let w = weight(i as nat);
                assert(weight((i + 1) as nat) == 0x1_0000_0000 * w);
                assert(d as nat * w + y as nat * w + borrow as nat * w == x as nat * w + b as nat
                    * (0x1_0000_0000 * w)) by (nonlinear_arith)
                    requires
                        d + y + borrow == x + b * 0x1_0000_0000,
                ;
            }
            out.push(d as u32);
            borrow = b;
            i += 1;
        }
        proof {
            self.lemma_low_all(n as nat);
            other.lemma_low_all(n as nat);
            lemma_below_weight(out@);
            if borrow == 1 {
                assert(borrow as nat * weight(n as nat) == weight(n as nat)) by (nonlinear_arith)
                    requires
                        borrow == 1,
                ;
            }
            assert(0nat * weight(n as nat) == 0) by (nonlinear_arith);
        }
        Natural { limbs: out }
    }

    /// `self < other`.
    pub fn less(&self, other: &Natural) -> (r: bool)
        ensures
            r == (self@ < other@),
    {
        let n: usize = if self.limbs.len() > other.limbs.len() {
            self.limbs.len()
        } else {
            other.limbs.len()
        };
        proof {
            self.lemma_low_all(n as nat);
            other.lemma_low_all(n as nat);
        }
        let mut i: usize = n;
        while i > 0
            invariant
                i <= n,
                self@ - self.low(i as nat) == other@ - other.low(i as nat),
            decreases i,
        {
            let x: u32 = self.get(i - 1);
            let y: u32 = other.get(i - 1);
            let ghost k = (i - 1) as nat;
            let ghost w = weight(k);
            proof {
                self.lemma_low_next(k);
                other.lemma_low_next(k);
                lemma_below_weight(Seq::new(k, |j: int| self.limb(j)));
                lemma_below_weight(Seq::new(k, |j: int| other.limb(j)));
            }
            if x < y {
                assert(x as nat * w + w <= y as nat * w) by (nonlinear_arith)
                    requires
                        x < y,
                ;
                return true;
            }
            if x > y {
                assert(y as nat * w + w <= x as nat * w) by (nonlinear_arith)
                    requires
                        y < x,
                ;
                return false;
            }
            i -= 1;
        }
        assert(self.low(0) == 0 && other.low(0) == 0);
        false
    }

    pub fn is_zero(&self) -> (r: bool)
        ensures
            r == (self@ == 0),
    {
        !Natural::from_u64(0).less(self)
    }

    /// Quotient and remainder.
    pub fn div_rem(&self, d: &Natural) -> (r: (Natural, Natural))
        requires
            d@ > 0,
        ensures
            self@ == r.0@ * d@ + r.1@,
            r.1@ < d@,
        decreases (if d@ <= self@ { self@ - d@ + 1 } else { 0 }),
    {
        if self.less(d) {
            assert(0nat * d@ == 0) by (nonlinear_arith);
            return (Natural::from_u64(0), self.copy());
        }
        let twice: Natural = d.mul_add(2, 0);
        let (q, r): (Natural, Natural) = self.div_rem(&twice);
        let ghost (a, b) = (q@, d@);
        assert(a * (b * 2) == (a * 2) * b) by (nonlinear_arith);
        assert((a * 2 + 1) * b == (a * 2) * b + b) by (nonlinear_arith);
        if r.less(d) {
            (q.mul_add(2, 0), r)
        } else {
            (q.mul_add(2, 1), r.minus(d))
        }
    }

    /// The value, where it fits.
    pub fn to_u64(&self) -> (r: u64)
        requires
            self@ < 0x1_0000_0000_0000_0000,
        ensures
            r == self@,
    {
        let lo: u32 = self.get(0);
        let hi: u32 = self.get(1);
        proof {
            let n = if self.limbs@.len() > 2 {
                self.limbs@.len()
            } else {
                2
            };
            self.lemma_low_all(n);
            let s = Seq::new(n, |i: int| self.limb(i));
            lemma_split(s, 2);
            self.lemma_low_next(0);
            self.lemma_low_next(1);
            assert(s.take(2) == Seq::new(2, |i: int| self.limb(i)));
            reveal_with_fuel(weight, 3);
            assert(self.low(0) == 0);
            let rest = limbs_value(s.skip(2));
            assert(weight(2) * rest >= 0x1_0000_0000_0000_0000 || rest == 0) by (nonlinear_arith)
                requires
                    weight(2) == 0x1_0000_0000_0000_0000,
            ;
        }
        hi as u64 * 0x1_0000_0000 + lo as u64
    }
}

} // verus!
