//! Exact rational numbers kept in lowest terms by Euclid's algorithm.
use vstd::arithmetic::div_mod::{lemma_fundamental_div_mod, lemma_mod_multiples_basic};
use vstd::prelude::*;

verus! {

/// Greatest common divisor, by Euclid's algorithm.
pub open spec fn gcd(a: nat, b: nat) -> nat
    decreases b,
{
    if b == 0 {
        a
    } else {
        gcd(b, a % b)
    }
}

pub open spec fn abs(n: int) -> nat {
    if n < 0 {
        (-n) as nat
    } else {
        n as nat
    }
}

pub proof fn lemma_gcd_divides(a: nat, b: nat)
    ensures
        (a > 0 || b > 0) ==> gcd(a, b) > 0,
        gcd(a, b) > 0 ==> a % gcd(a, b) == 0 && b % gcd(a, b) == 0,
    decreases b,
{
    if b != 0 {
        lemma_gcd_divides(b, a % b);
        let g = gcd(b, a % b);
        if g > 0 {
            lemma_fundamental_div_mod(a as int, b as int);
            lemma_fundamental_div_mod(b as int, g as int);
            lemma_fundamental_div_mod((a % b) as int, g as int);
            let k = (a / b) * (b / g) + (a % b) / g;
            assert(a == k * g) by (nonlinear_arith)
                requires
                    a == b * (a / b) + a % b,
                    b == g * (b / g),
                    (a % b) as int == g * ((a % b) / g),
                    k == (a / b) * (b / g) + (a % b) / g,
            ;
            lemma_mod_multiples_basic(k as int, g as int);
        }
    }
}

/// The pair `(n, d)` divided by the greatest common divisor of `|n|` and `d`.
pub open spec fn reduce(n: int, d: int) -> (int, int) {
    let g = gcd(abs(n), d as nat);
    let q = (abs(n) / g) as int;
    (if n < 0 { -q } else { q }, d / (g as int))
}

pub open spec fn fits(p: (int, int)) -> bool {
    i64::MIN <= p.0 <= i64::MAX && 0 < p.1 <= i64::MAX
}

/// The fraction `n / d` in lowest terms, when it fits in the machine representation.
pub open spec fn frac_of(n: int, d: int) -> Option<Frac> {
    let p = reduce(n, d);
    if fits(p) {
        Some(Frac { num: p.0 as i64, den: p.1 as i64 })
    } else {
        None
    }
}

pub proof fn lemma_reduce_same(n: int, d: int)
    requires
        d > 0,
    ensures
        reduce(n, d).1 > 0,
        reduce(n, d).0 * d == n * reduce(n, d).1,
{
    let g = gcd(abs(n), d as nat);
    lemma_gcd_divides(abs(n), d as nat);
    lemma_fundamental_div_mod(abs(n) as int, g as int);
    lemma_fundamental_div_mod(d, g as int);
    let q = (abs(n) / g) as int;
    let e = d / (g as int);
    assert(e > 0) by (nonlinear_arith)
        requires
            d == g * e,
            d > 0,
            g > 0,
    ;
    if n < 0 {
        assert((-q) * d == n * e) by (nonlinear_arith)
            requires
                -n == g * q,
                d == g * e,
        ;
    } else {
        assert(q * d == n * e) by (nonlinear_arith)
            requires
                n == g * q,
                d == g * e,
        ;
    }
}

/// A rational number `num / den` with `den > 0`.
#[derive(Clone, Copy, Debug, PartialEq, Eq, Structural)]
pub struct Frac {
    pub num: i64,
    pub den: i64,
}

pub open spec fn frac_add(a: Frac, b: Frac) -> Option<Frac> {
    frac_of(a.num * b.den + b.num * a.den, a.den * b.den)
}

pub open spec fn frac_sub(a: Frac, b: Frac) -> Option<Frac> {
    frac_of(a.num * b.den - b.num * a.den, a.den * b.den)
}

pub open spec fn frac_mul(a: Frac, b: Frac) -> Option<Frac> {
    frac_of(a.num * b.num, a.den * b.den)
}

impl Frac {
    pub open spec fn wf(self) -> bool {
        self.den > 0
    }

    /// The two fractions denote the same rational number.
    pub open spec fn same(self, o: Frac) -> bool {
        self.num * o.den == o.num * self.den
    }

    pub open spec fn le(self, o: Frac) -> bool {
        self.num * o.den <= o.num * self.den
    }

    pub open spec fn lt(self, o: Frac) -> bool {
        self.num * o.den < o.num * self.den
    }

    /// The fraction `n / d` in lowest terms.
    pub fn new(n: i64, d: i64) -> (r: Frac)
        requires
            d > 0,
        ensures
            r.wf(),
            r.same(Frac { num: n, den: d }),
            Some(r) == frac_of(n as int, d as int),
    {
        proof {
            lemma_reduce_same(n as int, d as int);
            lemma_gcd_divides(abs(n as int), d as nat);
            assert(reduce(n as int, d as int).1 <= d) by (nonlinear_arith)
                requires
                    d > 0,
                    gcd(abs(n as int), d as nat) > 0,
                    reduce(n as int, d as int).1 == (d as int) / (gcd(abs(n as int), d as nat) as int),
            ;
            assert(abs(n as int) / gcd(abs(n as int), d as nat) <= abs(n as int)) by (nonlinear_arith)
                requires
                    gcd(abs(n as int), d as nat) > 0,
            ;
        }
        from_wide(n as i128, d as i128).unwrap()
    }

    pub fn whole(n: i64) -> (r: Frac)
        ensures
            r == (Frac { num: n, den: 1 }),
    {
        Frac { num: n, den: 1 }
    }

    pub fn zero() -> (r: Frac)
        ensures
            r == (Frac { num: 0, den: 1 }),
    {
        Frac { num: 0, den: 1 }
    }

    pub fn add(self, o: Frac) -> (r: Option<Frac>)
        requires
            self.wf(),
            o.wf(),
        ensures
            r == frac_add(self, o),
    {
        proof {
            lemma_wide_products(self, o);
        }
        from_wide(
            self.num as i128 * o.den as i128 + o.num as i128 * self.den as i128,
            self.den as i128 * o.den as i128,
        )
    }

    pub fn sub(self, o: Frac) -> (r: Option<Frac>)
        requires
            self.wf(),
            o.wf(),
        ensures
            r == frac_sub(self, o),
    {
        proof {
            lemma_wide_products(self, o);
        }
        from_wide(
            self.num as i128 * o.den as i128 - o.num as i128 * self.den as i128,
            self.den as i128 * o.den as i128,
        )
    }

    pub fn mul(self, o: Frac) -> (r: Option<Frac>)
        requires
            self.wf(),
            o.wf(),
        ensures
            r == frac_mul(self, o),
    {
        proof {
            lemma_wide_products(self, o);
        }
        from_wide(self.num as i128 * o.num as i128, self.den as i128 * o.den as i128)
    }

    pub fn same_value(&self, o: &Frac) -> (r: bool)
        ensures
            r == self.same(*o),
    {
        proof {
            lemma_mul_bound_signed(self.num as int, o.den as int);
            lemma_mul_bound_signed(o.num as int, self.den as int);
        }
        self.num as i128 * o.den as i128 == o.num as i128 * self.den as i128
    }

    pub fn less_eq(&self, o: &Frac) -> (r: bool)
        ensures
            r == self.le(*o),
    {
        proof {
            lemma_mul_bound_signed(self.num as int, o.den as int);
            lemma_mul_bound_signed(o.num as int, self.den as int);
        }
        (self.num as i128 * o.den as i128) <= (o.num as i128 * self.den as i128)
    }

    pub fn less_than(&self, o: &Frac) -> (r: bool)
        ensures
            r == self.lt(*o),
    {
        proof {
            lemma_mul_bound_signed(self.num as int, o.den as int);
            lemma_mul_bound_signed(o.num as int, self.den as int);
        }
        (self.num as i128 * o.den as i128) < (o.num as i128 * self.den as i128)
    }
}

proof fn lemma_wide_products(a: Frac, b: Frac)
    requires
        a.wf(),
        b.wf(),
    ensures
        -0x4000_0000_0000_0000_0000_0000_0000_0000 < a.num * b.den
            < 0x4000_0000_0000_0000_0000_0000_0000_0000,
        -0x4000_0000_0000_0000_0000_0000_0000_0000 < b.num * a.den
            < 0x4000_0000_0000_0000_0000_0000_0000_0000,
        -0x4000_0000_0000_0000_0000_0000_0000_0000 < a.num * b.num
            <= 0x4000_0000_0000_0000_0000_0000_0000_0000,
        0 < a.den * b.den < 0x4000_0000_0000_0000_0000_0000_0000_0000,
{
    lemma_mul_bound(a.num as int, b.den as int);
    lemma_mul_bound(b.num as int, a.den as int);
    lemma_mul_bound_signed(a.num as int, b.num as int);
    lemma_mul_bound(a.den as int, b.den as int);
    assert(0 < a.den * b.den) by (nonlinear_arith)
        requires
            a.den > 0,
            b.den > 0,
    ;
}

proof fn lemma_mul_bound(x: int, y: int)
    requires
        i64::MIN <= x <= i64::MAX,
        0 < y <= i64::MAX,
    ensures
        -0x4000_0000_0000_0000_0000_0000_0000_0000 < x * y < 0x4000_0000_0000_0000_0000_0000_0000_0000,
{
    assert(-0x4000_0000_0000_0000_0000_0000_0000_0000 < x * y < 0x4000_0000_0000_0000_0000_0000_0000_0000)
        by (nonlinear_arith)
        requires
            -0x8000_0000_0000_0000 <= x <= 0x7fff_ffff_ffff_ffff,
            0 < y <= 0x7fff_ffff_ffff_ffff,
    ;
}

pub proof fn lemma_mul_bound_signed(x: int, y: int)
    requires
        i64::MIN <= x <= i64::MAX,
        i64::MIN <= y <= i64::MAX,
    ensures
        -0x4000_0000_0000_0000_0000_0000_0000_0000 < x * y <= 0x4000_0000_0000_0000_0000_0000_0000_0000,
{
    assert(-0x4000_0000_0000_0000_0000_0000_0000_0000 < x * y <= 0x4000_0000_0000_0000_0000_0000_0000_0000)
        by (nonlinear_arith)
        requires
            -0x8000_0000_0000_0000 <= x <= 0x7fff_ffff_ffff_ffff,
            -0x8000_0000_0000_0000 <= y <= 0x7fff_ffff_ffff_ffff,
    ;
}

fn gcd_wide(a: u128, b: u128) -> (r: u128)
    ensures
        r == gcd(a as nat, b as nat),
{
    let mut x = a;
    let mut y = b;
    while y != 0
        invariant
            gcd(x as nat, y as nat) == gcd(a as nat, b as nat),
        decreases y,
    {
        let t = x % y;
        x = y;
        y = t;
    }
    x
}

/// The fraction `n / d` in lowest terms, or `None` when it does not fit.
pub fn from_wide(n: i128, d: i128) -> (r: Option<Frac>)
    requires
        d > 0,
        n > i128::MIN,
    ensures
        r == frac_of(n as int, d as int),
{
    let an: u128 = if n < 0 {
        (-n) as u128
    } else {
        n as u128
    };
    let g = gcd_wide(an, d as u128);
    proof {
        lemma_gcd_divides(an as nat, d as nat);
    }
    let q = an / g;
    let e = (d as u128) / g;
    proof {
        assert(q <= an) by (nonlinear_arith)
            requires
                g > 0,
                q == (an as int) / (g as int),
        ;
        assert(e <= d) by (nonlinear_arith)
            requires
                g > 0,
                e == (d as int) / (g as int),
                d > 0,
        ;
    }
    let rn: i128 = if n < 0 {
        -(q as i128)
    } else {
        q as i128
    };
    if rn < (i64::MIN as i128) || rn > i64::MAX as i128 || e == 0 || e > i64::MAX as u128 {
        None
    } else {
        Some(Frac { num: rn as i64, den: e as i64 })
    }
}

} // verus!
