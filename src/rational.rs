use vstd::arithmetic::div_mod::{
    lemma_div_by_self, lemma_div_of0, lemma_fundamental_div_mod, lemma_mod_multiples_basic,
    lemma_mod_self_0,
};
use vstd::prelude::*;

verus! {

/// Greatest common divisor, by Euclid's recurrence.
pub open spec fn gcd(a: nat, b: nat) -> nat
    decreases b,
{
    if b == 0 {
        a
    } else {
        gcd(b, a % b)
    }
}

pub open spec fn abs(x: int) -> nat {
    if x < 0 {
        (-x) as nat
    } else {
        x as nat
    }
}

/// The fraction `p.0 / p.1` (with `p.1 > 0`) with both parts divided by their gcd.
pub open spec fn reduce(p: (int, int)) -> (int, int) {
    let g = gcd(abs(p.0), p.1 as nat) as int;
    if p.0 < 0 {
        (-(abs(p.0) as int / g), p.1 / g)
    } else {
        (p.0 / g, p.1 / g)
    }
}

/// Whether a pair fits the stored form: an `i32` numerator and a positive `i32` denominator.
pub open spec fn fits(p: (int, int)) -> bool {
    i32::MIN <= p.0 <= i32::MAX && 1 <= p.1 <= i32::MAX
}

/// The stored number for a pair, when it fits.
pub open spec fn stored(p: (int, int)) -> Option<Rational> {
    if fits(p) {
        Some(Rational { num: p.0 as i32, den: p.1 as i32 })
    } else {
        None
    }
}

/// `a / b` as an unreduced pair with a positive denominator (`b.0 != 0`).
pub open spec fn div_pair(a: (int, int), b: (int, int)) -> (int, int) {
    if b.0 > 0 {
        (a.0 * b.1, a.1 * b.0)
    } else {
        (-(a.0 * b.1), a.1 * (-b.0))
    }
}

/// `a - r * b` as an unreduced pair.
pub open spec fn sub_mul_pair(a: (int, int), r: (int, int), b: (int, int)) -> (int, int) {
    (a.0 * r.1 * b.1 - r.0 * b.0 * a.1, a.1 * r.1 * b.1)
}

/// `p` and `q` stand for the same rational number.
pub open spec fn same_value(p: (int, int), q: (int, int)) -> bool {
    p.0 * q.1 == q.0 * p.1
}

/// `p < q` for pairs with positive denominators.
pub open spec fn pair_lt(p: (int, int), q: (int, int)) -> bool {
    p.0 * q.1 < q.0 * p.1
}

/// An exact rational number `num / den`; a well-formed one has `den > 0`.
/// Arithmetic results come in lowest terms. `==` compares the stored parts, so
/// `1/2` and `2/4` differ under it; `same_as` compares values.
#[derive(Clone, Copy, Debug, PartialEq, Eq, Structural)]
pub struct Rational {
    pub num: i32,
    pub den: i32,
}

impl Rational {
    pub open spec fn wf(self) -> bool {
        self.den > 0
    }

    pub open spec fn view(self) -> (int, int) {
        (self.num as int, self.den as int)
    }

    pub open spec fn one_spec() -> Rational {
        Rational { num: 1, den: 1 }
    }

    pub open spec fn zero_spec() -> Rational {
        Rational { num: 0, den: 1 }
    }

    pub fn new(num: i32, den: i32) -> (r: Rational)
        requires
            den > 0,
        ensures
            r.num == num,
            r.den == den,
    {
        Rational { num, den }
    }

    pub fn from_int(n: i32) -> (r: Rational)
        ensures
            r.num == n,
            r.den == 1,
    {
        Rational { num: n, den: 1 }
    }

    pub fn zero() -> (r: Rational)
        ensures
            r == Rational::zero_spec(),
    {
        Rational { num: 0, den: 1 }
    }

    pub fn is_zero(&self) -> (r: bool)
        ensures
            r == (self.num == 0),
    {
        self.num == 0
    }

    pub fn is_one(&self) -> (r: bool)
        ensures
            r == (self.num == self.den),
    {
        self.num == self.den
    }

    pub fn is_positive(&self) -> (r: bool)
        ensures
            r == (self.num > 0),
    {
        self.num > 0
    }

    pub fn is_negative(&self) -> (r: bool)
        ensures
            r == (self.num < 0),
    {
        self.num < 0
    }

    /// Whether the two stand for the same number.
    pub fn same_as(&self, o: &Rational) -> (r: bool)
        ensures
            r == same_value(self@, o@),
    {
        proof {
            lemma_mul_bound(self.num as int, o.den as int, 0x8000_0000, 0x8000_0000);
            lemma_mul_bound(o.num as int, self.den as int, 0x8000_0000, 0x8000_0000);
        }
        (self.num as i64) * (o.den as i64) == (o.num as i64) * (self.den as i64)
    }

    /// Exact comparison `self < o`.
    pub fn lt(&self, o: &Rational) -> (r: bool)
        requires
            self.wf(),
            o.wf(),
        ensures
            r == pair_lt(self@, o@),
    {
        proof {
            lemma_mul_bound(self.num as int, o.den as int, 0x8000_0000, 0x8000_0000);
            lemma_mul_bound(o.num as int, self.den as int, 0x8000_0000, 0x8000_0000);
        }
        (self.num as i64) * (o.den as i64) < (o.num as i64) * (self.den as i64)
    }

    /// Exact quotient `self / o` in lowest terms; `None` when it does not fit.
    pub fn div(&self, o: &Rational) -> (r: Option<Rational>)
        requires
            self.wf(),
            o.wf(),
            o.num != 0,
        ensures
            r == stored(reduce(div_pair(self@, o@))),
            r matches Some(q) ==> q.wf() && same_value(q@, div_pair(self@, o@)),
    {
        proof {
            lemma_mul_bound(self.num as int, o.den as int, 0x8000_0000, 0x8000_0000);
            lemma_mul_bound(self.den as int, o.num as int, 0x8000_0000, 0x8000_0000);
            if o.num > 0 {
                lemma_mul_pos(self.den as int, o.num as int);
            } else {
                lemma_mul_pos(self.den as int, -o.num);
                assert(-(self.den as int * o.num as int) == self.den as int * (-o.num)) by (nonlinear_arith);
            }
        }
        proof {
            lemma_reduce_value(div_pair(self@, o@));
        }
        let n: i128 = (self.num as i128) * (o.den as i128);
        let d: i128 = (self.den as i128) * (o.num as i128);
        if o.num > 0 {
            reduced(n, d)
        } else {
            reduced(-n, -d)
        }
    }

    /// Exact `self - r * b` in lowest terms; `None` when it does not fit.
    pub fn sub_mul(&self, r: &Rational, b: &Rational) -> (res: Option<Rational>)
        requires
            self.wf(),
            r.wf(),
            b.wf(),
        ensures
            res == stored(reduce(sub_mul_pair(self@, r@, b@))),
            res matches Some(q) ==> q.wf() && same_value(q@, sub_mul_pair(self@, r@, b@)),
    {
        proof {
            let big: int = 0x8000_0000;
            lemma_mul_bound(self.num as int, r.den as int, big, big);
            lemma_mul_bound(self.num as int * r.den as int, b.den as int, big * big, big);
            lemma_mul_bound(r.num as int, b.num as int, big, big);
            lemma_mul_bound(r.num as int * b.num as int, self.den as int, big * big, big);
            lemma_mul_bound(self.den as int, r.den as int, big, big);
            lemma_mul_bound(self.den as int * r.den as int, b.den as int, big * big, big);
            lemma_mul_pos(self.den as int, r.den as int);
            lemma_mul_pos(self.den as int * r.den as int, b.den as int);
        }
        proof {
            lemma_reduce_value(sub_mul_pair(self@, r@, b@));
        }
        let x: i128 = (self.num as i128) * (r.den as i128) * (b.den as i128);
        let y: i128 = (r.num as i128) * (b.num as i128) * (self.den as i128);
        let d: i128 = (self.den as i128) * (r.den as i128) * (b.den as i128);
        reduced(x - y, d)
    }
}

proof fn lemma_mul_bound(x: int, y: int, mx: int, my: int) by (nonlinear_arith)
    requires
        -mx <= x <= mx,
        -my <= y <= my,
    ensures
        -(mx * my) <= x * y <= mx * my,
{
}

/// Chains of `<` and `<=` on pairs with positive denominators.
pub proof fn lemma_pair_lt_trans(p: (int, int), q: (int, int), r: (int, int))
    requires
        p.1 > 0,
        q.1 > 0,
        r.1 > 0,
    ensures
        !pair_lt(q, p) && pair_lt(q, r) ==> pair_lt(p, r),
        pair_lt(p, q) && !pair_lt(r, q) ==> pair_lt(p, r),
{
    lemma_pair_chain(p.0, p.1, q.0, q.1, r.0, r.1);
}

proof fn lemma_pair_chain(pn: int, pd: int, qn: int, qd: int, rn: int, rd: int) by (nonlinear_arith)
    requires
        pd > 0,
        qd > 0,
        rd > 0,
    ensures
        pn * qd <= qn * pd && qn * rd < rn * qd ==> pn * rd < rn * pd,
        pn * qd < qn * pd && qn * rd <= rn * qd ==> pn * rd < rn * pd,
{
    if pn * qd <= qn * pd && qn * rd < rn * qd {
        assert(pn * qd * rd <= qn * pd * rd);
        assert(qn * rd * pd < rn * qd * pd);
    }
    if pn * qd < qn * pd && qn * rd <= rn * qd {
        assert(pn * qd * rd < qn * pd * rd);
        assert(qn * rd * pd <= rn * qd * pd);
    }
}

pub proof fn lemma_mul_pos(x: int, y: int) by (nonlinear_arith)
    requires
        x > 0,
        y > 0,
    ensures
        x * y > 0,
{
}

proof fn lemma_gcd_positive(a: nat, b: nat)
    requires
        a > 0 || b > 0,
    ensures
        gcd(a, b) > 0,
    decreases b,
{
    if b > 0 {
        lemma_gcd_positive(b, a % b);
    }
}

/// The gcd divides both of its arguments.
pub proof fn lemma_gcd_divides(a: nat, b: nat)
    requires
        a > 0 || b > 0,
    ensures
        gcd(a, b) > 0,
        (a as int) % (gcd(a, b) as int) == 0,
        (b as int) % (gcd(a, b) as int) == 0,
    decreases b,
{
    lemma_gcd_positive(a, b);
    let g = gcd(a, b) as int;
    if b == 0 {
        lemma_mod_self_0(a as int);
        lemma_mod_multiples_basic(0, g);
    } else {
        lemma_gcd_divides(b, a % b);
        assert(g == gcd(b, a % b) as int);
        lemma_fundamental_div_mod(a as int, b as int);
        lemma_fundamental_div_mod(b as int, g);
        lemma_fundamental_div_mod((a % b) as int, g);
        let s = (b as int) / g;
        let t = ((a % b) as int) / g;
        let k = (a as int) / (b as int);
        assert(a as int == (s * k + t) * g) by (nonlinear_arith)
            requires
                a as int == (b as int) * k + (a % b) as int,
                b as int == g * s,
                (a % b) as int == g * t,
        ;
        lemma_mod_multiples_basic(s * k + t, g);
    }
}

/// Reducing keeps the value of a fraction: `reduce(p)` and `p` are equal as rationals,
/// and the reduced denominator stays positive.
pub proof fn lemma_reduce_value(p: (int, int))
    requires
        p.1 > 0,
    ensures
        reduce(p).1 > 0,
        reduce(p).0 * p.1 == p.0 * reduce(p).1,
{
    let m = abs(p.0);
    lemma_gcd_divides(m, p.1 as nat);
    let g = gcd(m, p.1 as nat) as int;
    lemma_fundamental_div_mod(m as int, g);
    lemma_fundamental_div_mod(p.1, g);
    let u = (m as int) / g;
    let v = p.1 / g;
    assert(v > 0) by (nonlinear_arith)
        requires
            p.1 == g * v,
            p.1 > 0,
            g > 0,
    ;
    assert(u * p.1 == (m as int) * v) by (nonlinear_arith)
        requires
            m as int == g * u,
            p.1 == g * v,
    ;
    if p.0 < 0 {
        assert(reduce(p) == (-u, v));
        assert((-u) * p.1 == p.0 * v) by (nonlinear_arith)
            requires
                u * p.1 == (m as int) * v,
                m as int == -p.0,
        ;
    } else {
        assert(reduce(p) == (u, v));
    }
}

/// A positive number divided by itself reduces to one.
pub proof fn lemma_reduce_same(n: int)
    requires
        n > 0,
    ensures
        reduce((n, n)) == (1int, 1int),
{
    lemma_mod_self_0(n);
    assert(gcd(n as nat, 0) == n);
    lemma_div_by_self(n);
}

/// Zero over any positive denominator reduces to `0 / 1`.
pub proof fn lemma_reduce_zero(d: int)
    requires
        d > 0,
    ensures
        reduce((0, d)) == (0int, 1int),
{
    lemma_small_mod_zero(d);
    assert(gcd(d as nat, 0) == d);
    lemma_div_by_self(d);
    lemma_div_of0(d);
}

proof fn lemma_small_mod_zero(d: int)
    requires
        d > 0,
    ensures
        gcd(0, d as nat) == gcd(d as nat, 0),
{
    assert(0nat % (d as nat) == 0) by (nonlinear_arith)
        requires
            d > 0,
    ;
}

/// The lowest-terms form of `n / d`, when it fits.
fn reduced(n: i128, d: i128) -> (r: Option<Rational>)
    requires
        d > 0,
        -0x4000_0000_0000_0000_0000_0000_0000_0000 < n < 0x4000_0000_0000_0000_0000_0000_0000_0000,
        d < 0x4000_0000_0000_0000_0000_0000_0000_0000,
    ensures
        r == stored(reduce((n as int, d as int))),
{
    let mag: u128 = if n < 0 {
        (-n) as u128
    } else {
        n as u128
    };
    assert(mag as nat == abs(n as int));
    let mut a: u128 = mag;
    let mut b: u128 = d as u128;
    while b != 0
        invariant
            gcd(a as nat, b as nat) == gcd(abs(n as int), d as nat),
        decreases b,
    {
        let t = a % b;
        a = b;
        b = t;
    }
    let g = a;
    proof {
        lemma_gcd_positive(abs(n as int), d as nat);
    }
    let q: u128 = mag / g;
    let e: u128 = (d as u128) / g;
    if n < 0 {
        if q > 0x8000_0000 || e > 0x7fff_ffff || e < 1 {
            return None;
        }
        let num: i64 = -(q as i64);
        Some(Rational { num: num as i32, den: e as i32 })
    } else {
        if q > 0x7fff_ffff || e > 0x7fff_ffff || e < 1 {
            return None;
        }
        Some(Rational { num: q as i32, den: e as i32 })
    }
}

/// Exact comparison of the quotients `b1 / a1 < b2 / a2`, for positive `a1`, `a2`.
pub fn quotient_lt(b1: &Rational, a1: &Rational, b2: &Rational, a2: &Rational) -> (r: bool)
    requires
        b1.wf(),
        a1.wf(),
        b2.wf(),
        a2.wf(),
        a1.num > 0,
        a2.num > 0,
    ensures
        r == pair_lt(div_pair(b1@, a1@), div_pair(b2@, a2@)),
{
    proof {
        let big: int = 0x8000_0000;
        lemma_mul_bound(b1.num as int, a1.den as int, big, big);
        lemma_mul_bound(b1.den as int, a1.num as int, big, big);
        lemma_mul_bound(b2.num as int, a2.den as int, big, big);
        lemma_mul_bound(b2.den as int, a2.num as int, big, big);
        lemma_mul_bound(b1.num as int * a1.den as int, b2.den as int * a2.num as int, big * big, big * big);
        lemma_mul_bound(b2.num as int * a2.den as int, b1.den as int * a1.num as int, big * big, big * big);
    }
    let pn: i128 = (b1.num as i128) * (a1.den as i128);
    let pd: i128 = (b1.den as i128) * (a1.num as i128);
    let qn: i128 = (b2.num as i128) * (a2.den as i128);
    let qd: i128 = (b2.den as i128) * (a2.num as i128);
    pn * qd < qn * pd
}

} // verus!
