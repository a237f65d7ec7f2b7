use vstd::prelude::*;

use crate::types::SymErr;
use vstd::arithmetic::div_mod::{lemma_div_multiples_vanish, lemma_fundamental_div_mod};
use vstd::string::StrSliceExecFns;

verus! {

/// An exact number: `Rational(numerator, denominator)`.
///
/// A well-formed value has a positive denominator; every value produced by
/// the arithmetic below is, in addition, in lowest terms.
#[derive(Clone, Copy, Debug, PartialEq, Eq, Structural)]
pub enum Number {
    Rational(i64, i64),
}

/// Greatest common divisor by Euclid's algorithm.
pub open spec fn gcd(a: nat, b: nat) -> nat
    decreases b,
{
    if b == 0 {
        a
    } else {
        gcd(b, a % b)
    }
}

pub open spec fn abs(x: int) -> nat {
    if x < 0 {
        (-x) as nat
    } else {
        x as nat
    }
}

/// A value that an `i64` holds.
pub open spec fn fits(x: int) -> bool {
    i64::MIN <= x <= i64::MAX
}

/// `b` to the power `e`, over the naturals.
pub open spec fn power(b: nat, e: nat) -> nat
    decreases e,
{
    if e == 0 {
        1
    } else {
        b * power(b, (e - 1) as nat)
    }
}

/// The fraction `n / d` (with `d > 0`) in lowest terms, if both parts fit in `i64`.
pub open spec fn lowest(n: int, d: int) -> Option<Number> {
    let g = gcd(abs(n), abs(d));
    let p: int = if n < 0 {
        -(abs(n) / g)
    } else {
        (abs(n) / g) as int
    };
    let q: int = (abs(d) / g) as int;
    if d > 0 && fits(p) && fits(q) {
        Some(Number::Rational(p as i64, q as i64))
    } else {
        None
    }
}

impl Number {
    pub open spec fn num(self) -> int {
        match self {
            Number::Rational(n, _) => n as int,
        }
    }

    pub open spec fn den(self) -> int {
        match self {
            Number::Rational(_, d) => d as int,
        }
    }

    pub open spec fn wf(self) -> bool {
        self.den() > 0
    }

    /// Well-formed and in lowest terms.
    pub open spec fn reduced(self) -> bool {
        self.wf() && gcd(abs(self.num()), abs(self.den())) == 1
    }

    pub open spec fn is_integer(self) -> bool {
        self.den() == 1
    }

    pub open spec fn spec_add(self, rhs: Number) -> Option<Number> {
        if self.wf() && rhs.wf() {
            lowest(self.num() * rhs.den() + rhs.num() * self.den(), self.den() * rhs.den())
        } else {
            None
        }
    }

    pub open spec fn spec_sub(self, rhs: Number) -> Option<Number> {
        if self.wf() && rhs.wf() {
            lowest(self.num() * rhs.den() - rhs.num() * self.den(), self.den() * rhs.den())
        } else {
            None
        }
    }

    pub open spec fn spec_mul(self, rhs: Number) -> Option<Number> {
        if self.wf() && rhs.wf() {
            lowest(self.num() * rhs.num(), self.den() * rhs.den())
        } else {
            None
        }
    }

    /// Division; dividing by zero has no exact value.
    pub open spec fn spec_div(self, rhs: Number) -> Option<Number> {
        if self.wf() && rhs.wf() && rhs.num() != 0 {
            if rhs.num() > 0 {
                lowest(self.num() * rhs.den(), self.den() * rhs.num())
            } else {
                lowest(-(self.num() * rhs.den()), -(self.den() * rhs.num()))
            }
        } else {
            None
        }
    }

    pub open spec fn spec_neg(self) -> Option<Number> {
        if self.num() == i64::MIN {
            None
        } else {
            Some(Number::Rational((-self.num()) as i64, self.den() as i64))
        }
    }

    /// `self` raised to the integer `rhs`, when both powers stay small.
    /// A non-integer exponent, or zero raised to a negative power, has no
    /// exact value here.
    pub open spec fn spec_pow(self, rhs: Number) -> Option<Number> {
        if !self.wf() || !rhs.wf() || !rhs.is_integer() {
            None
        } else {
            let e = abs(rhs.num());
            let odd = e % 2 == 1;
            if rhs.num() >= 0 {
                power_ratio(self.num() < 0 && odd, abs(self.num()), abs(self.den()), e)
            } else if self.num() == 0 {
                None
            } else {
                power_ratio(self.num() < 0 && odd, abs(self.den()), abs(self.num()), e)
            }
        }
    }
}

/// `(±n^e) / d^e` in lowest terms, when `n^e` and `d^e` are small.
pub open spec fn power_ratio(negative: bool, n: nat, d: nat, e: nat) -> Option<Number> {
    let pn = power(n, e);
    let pd = power(d, e);
    if pn <= i64::MAX && pd <= i64::MAX {
        lowest(
            if negative {
                -pn
            } else {
                pn as int
            },
            pd as int,
        )
    } else {
        None
    }
}

proof fn lemma_gcd_bounds(a: nat, b: nat)
    requires
        b > 0,
    ensures
        0 < gcd(a, b) <= b,
    decreases b,
{
    if a % b != 0 {
        lemma_gcd_bounds(b, a % b);
    } else {
        assert(gcd(b, 0) == b);
    }
}

proof fn lemma_power_grows(b: nat, e1: nat, e2: nat)
    requires
        b >= 1,
        e1 <= e2,
    ensures
        power(b, e1) <= power(b, e2),
        power(b, e2) >= 1,
    decreases e2,
{
    if e2 > 0 {
        lemma_power_grows(b, 0, (e2 - 1) as nat);
        if e1 < e2 {
            lemma_power_grows(b, e1, (e2 - 1) as nat);
        }
        let p = power(b, (e2 - 1) as nat);
        assert(b * p >= p) by (nonlinear_arith)
            requires
                b >= 1,
                p >= 1,
        ;
    }
}

proof fn lemma_product_bound(x: int, y: int)
    requires
        -0x8000_0000_0000_0000 <= x <= 0x8000_0000_0000_0000,
        -0x7fff_ffff_ffff_ffff <= y <= 0x7fff_ffff_ffff_ffff,
    ensures
        -0x3fff_ffff_ffff_ffff_8000_0000_0000_0000 <= x * y <= 0x3fff_ffff_ffff_ffff_8000_0000_0000_0000,
        x > 0 && y > 0 ==> x * y > 0,
        x < 0 && y > 0 ==> x * y < 0,
{
    assert(-0x3fff_ffff_ffff_ffff_8000_0000_0000_0000 <= x * y <= 0x3fff_ffff_ffff_ffff_8000_0000_0000_0000)
        by (nonlinear_arith)
        requires
            -0x8000_0000_0000_0000 <= x <= 0x8000_0000_0000_0000,
            -0x7fff_ffff_ffff_ffff <= y <= 0x7fff_ffff_ffff_ffff,
    ;
    assert(x > 0 && y > 0 ==> x * y > 0) by (nonlinear_arith);
    assert(x < 0 && y > 0 ==> x * y < 0) by (nonlinear_arith);
}

proof fn lemma_square_bound(x: int, y: int)
    requires
        -0x8000_0000_0000_0000 <= x <= 0x8000_0000_0000_0000,
        -0x8000_0000_0000_0000 <= y <= 0x8000_0000_0000_0000,
    ensures
        -0x4000_0000_0000_0000_0000_0000_0000_0000 <= x * y <= 0x4000_0000_0000_0000_0000_0000_0000_0000,
{
    assert(-0x4000_0000_0000_0000_0000_0000_0000_0000 <= x * y <= 0x4000_0000_0000_0000_0000_0000_0000_0000)
        by (nonlinear_arith)
        requires
            -0x8000_0000_0000_0000 <= x <= 0x8000_0000_0000_0000,
            -0x8000_0000_0000_0000 <= y <= 0x8000_0000_0000_0000,
    ;
}

/// `g` divides `x`.
pub open spec fn divides(g: int, x: int) -> bool {
    exists|k: int| x == #[trigger] (k * g)
}

proof fn lemma_gcd_divides(a: nat, b: nat)
    ensures
        divides(gcd(a, b) as int, a as int),
        divides(gcd(a, b) as int, b as int),
    decreases b,
{
    let g = gcd(a, b) as int;
    if b == 0 {
        assert(a as int == 1 * g);
        assert(b as int == 0 * g);
    } else {
        lemma_gcd_divides(b, a % b);
        let k1 = choose|k: int| b as int == #[trigger] (k * g);
        let k2 = choose|k: int| (a % b) as int == #[trigger] (k * g);
        lemma_fundamental_div_mod(a as int, b as int);
        let q = (a as int) / (b as int);
        assert(a as int == (q * k1 + k2) * g) by (nonlinear_arith)
            requires
                a as int == (b as int) * q + (a % b) as int,
                b as int == k1 * g,
                (a % b) as int == k2 * g,
        ;
    }
}

/// Every common divisor of `a` and `b` divides their greatest common divisor.
proof fn lemma_common_divisor(a: nat, b: nat, c: int)
    requires
        c > 0,
        divides(c, a as int),
        divides(c, b as int),
    ensures
        divides(c, gcd(a, b) as int),
    decreases b,
{
    if b > 0 {
        let k1 = choose|k: int| a as int == #[trigger] (k * c);
        let k2 = choose|k: int| b as int == #[trigger] (k * c);
        lemma_fundamental_div_mod(a as int, b as int);
        let q = (a as int) / (b as int);
        assert((a % b) as int == (k1 - q * k2) * c) by (nonlinear_arith)
            requires
                a as int == (b as int) * q + (a % b) as int,
                a as int == k1 * c,
                b as int == k2 * c,
        ;
        lemma_common_divisor(b, a % b, c);
    }
}

/// Dividing both parts by their greatest common divisor leaves no common
/// divisor but 1.
proof fn lemma_reduced_coprime(a: nat, b: nat)
    requires
        b > 0,
    ensures
        gcd(a / gcd(a, b), b / gcd(a, b)) == 1,
{
    let g = gcd(a, b);
    lemma_gcd_bounds(a, b);
    lemma_gcd_divides(a, b);
    let k1 = choose|k: int| a as int == #[trigger] (k * g);
    let k2 = choose|k: int| b as int == #[trigger] (k * g);
    lemma_div_multiples_vanish(k1, g as int);
    lemma_div_multiples_vanish(k2, g as int);
    assert(k1 * g == g * k1) by (nonlinear_arith);
    assert(k2 * g == g * k2) by (nonlinear_arith);
    let a1 = a / g;
    let b1 = b / g;
    assert(a1 == k1 && b1 == k2);
    assert(b1 > 0) by (nonlinear_arith)
        requires
            b1 as int == k2,
            b as int == k2 * g,
            b > 0,
            g > 0,
    ;
    let h = gcd(a1, b1);
    lemma_gcd_bounds(a1, b1);
    lemma_gcd_divides(a1, b1);
    let j1 = choose|k: int| a1 as int == #[trigger] (k * h);
    let j2 = choose|k: int| b1 as int == #[trigger] (k * h);
    assert(a as int == j1 * (h * g)) by (nonlinear_arith)
        requires
            a1 as int == j1 * h,
            a as int == (a1 as int) * g,
    ;
    assert(b as int == j2 * (h * g)) by (nonlinear_arith)
        requires
            b1 as int == j2 * h,
            b as int == (b1 as int) * g,
    ;
    assert(h * g > 0) by (nonlinear_arith)
        requires
            h > 0,
            g > 0,
    ;
    lemma_common_divisor(a, b, (h * g) as int);
    let m = choose|k: int| g as int == #[trigger] (k * (h * g));
    assert(h == 1) by (nonlinear_arith)
        requires
            g as int == m * (h * g),
            g > 0,
            h > 0,
    ;
}

/// The reduced fraction has the value of `n / d`, with a positive denominator.
proof fn lemma_lowest_value(n: int, d: int)
    requires
        d > 0,
        lowest(n, d) is Some,
    ensures
        lowest(n, d)->0.num() * d == n * lowest(n, d)->0.den(),
        lowest(n, d)->0.den() > 0,
        gcd(abs(lowest(n, d)->0.num()), abs(lowest(n, d)->0.den())) == 1,
{
    lemma_reduced_coprime(abs(n), abs(d));
    let g = gcd(abs(n), abs(d));
    lemma_gcd_bounds(abs(n), abs(d));
    lemma_gcd_divides(abs(n), abs(d));
    let k1 = choose|k: int| abs(n) as int == #[trigger] (k * g);
    let k2 = choose|k: int| abs(d) as int == #[trigger] (k * g);
    lemma_div_multiples_vanish(k1, g as int);
    lemma_div_multiples_vanish(k2, g as int);
    assert(k1 * g == g * k1) by (nonlinear_arith);
    assert(k2 * g == g * k2) by (nonlinear_arith);
    assert(abs(n) / g == k1);
    assert(abs(d) / g == k2);
    let x = lowest(n, d)->0;
    if n < 0 {
        assert(x.num() == -k1);
        assert((-k1) * d == n * k2) by (nonlinear_arith)
            requires
                -n == k1 * g,
                d == k2 * g,
        ;
    } else {
        assert(x.num() == k1);
        assert(k1 * d == n * k2) by (nonlinear_arith)
            requires
                n == k1 * g,
                d == k2 * g,
        ;
    }
    assert(k2 > 0) by (nonlinear_arith)
        requires
            d == k2 * g,
            d > 0,
            g > 0,
    ;
}

/// Exact arithmetic: whenever the sum, difference, product or quotient of
/// two well-formed numbers is representable, it is exactly the rational
/// result, in lowest terms with a positive denominator; nothing is rounded.
pub proof fn lemma_exact_arithmetic(a: Number, b: Number)
    requires
        a.wf(),
        b.wf(),
    ensures
        a.spec_add(b) matches Some(c) ==> c.reduced() && c.num() * (a.den() * b.den()) == (a.num()
            * b.den() + b.num() * a.den()) * c.den(),
        a.spec_sub(b) matches Some(c) ==> c.reduced() && c.num() * (a.den() * b.den()) == (a.num()
            * b.den() - b.num() * a.den()) * c.den(),
        a.spec_mul(b) matches Some(c) ==> c.reduced() && c.num() * (a.den() * b.den()) == (a.num()
            * b.num()) * c.den(),
        a.spec_div(b) matches Some(c) ==> c.reduced() && c.num() * (a.den() * b.num()) == (a.num()
            * b.den()) * c.den(),
{
    assert(a.den() * b.den() > 0) by (nonlinear_arith)
        requires
            a.den() > 0,
            b.den() > 0,
    ;
    if a.spec_add(b) is Some {
        lemma_lowest_value(a.num() * b.den() + b.num() * a.den(), a.den() * b.den());
    }
    if a.spec_sub(b) is Some {
        lemma_lowest_value(a.num() * b.den() - b.num() * a.den(), a.den() * b.den());
    }
    if a.spec_mul(b) is Some {
        lemma_lowest_value(a.num() * b.num(), a.den() * b.den());
    }
    if a.spec_div(b) is Some {
        if b.num() > 0 {
            assert(a.den() * b.num() > 0) by (nonlinear_arith)
                requires
                    a.den() > 0,
                    b.num() > 0,
            ;
            lemma_lowest_value(a.num() * b.den(), a.den() * b.num());
        } else {
            assert(-(a.den() * b.num()) > 0) by (nonlinear_arith)
                requires
                    a.den() > 0,
                    b.num() < 0,
            ;
            lemma_lowest_value(-(a.num() * b.den()), -(a.den() * b.num()));
            let c = a.spec_div(b)->0;
            assert(c.num() * (a.den() * b.num()) == (a.num() * b.den()) * c.den()) by (nonlinear_arith)
                requires
                    c.num() * (-(a.den() * b.num())) == (-(a.num() * b.den())) * c.den(),
            ;
        }
    }
}

fn gcf(a: u128, b: u128) -> (r: u128)
    ensures
        r == gcd(a as nat, b as nat),
    decreases b,
{
    if b == 0 {
        a
    } else {
        gcf(b, a % b)
    }
}

/// Brings `n / d` to lowest terms; `None` when a part does not fit in `i64`.
fn reduce(n: i128, d: i128) -> (r: Option<Number>)
    requires
        d > 0,
        n > i128::MIN,
    ensures
        r == lowest(n as int, d as int),
{
    let m: u128 = if n < 0 {
        (-n) as u128
    } else {
        n as u128
    };
    let g = gcf(m, d as u128);
    proof {
        lemma_gcd_bounds(m as nat, d as nat);
    }
    let p = m / g;
    let q = (d as u128) / g;
    let p_fits = if n < 0 {
        p <= 0x8000_0000_0000_0000
    } else {
        p <= 0x7fff_ffff_ffff_ffff
    };
    if p_fits && q <= 0x7fff_ffff_ffff_ffff {
        let p = if n < 0 {
            (-(p as i128)) as i64
        } else {
            p as i64
        };
        Some(Number::Rational(p, q as i64))
    } else {
        None
    }
}

/// `b^e`, or `None` as soon as it passes `i64::MAX`.
fn power_capped(b: u64, e: u64) -> (r: Option<u64>)
    requires
        b <= 0x8000_0000_0000_0000,
    ensures
        r == (if power(b as nat, e as nat) <= i64::MAX {
            Some(power(b as nat, e as nat) as u64)
        } else {
            None::<u64>
        }),
{
    if b <= 1 {
        proof {
            lemma_power_small(b as nat, e as nat);
        }
        return if b == 0 && e > 0 {
            Some(0)
        } else {
            Some(1)
        };
    }
    let mut acc: u64 = 1;
    let mut i: u64 = 0;
    while i < e
        invariant
            2 <= b <= 0x8000_0000_0000_0000,
            i <= e,
            acc == power(b as nat, i as nat),
            acc <= i64::MAX,
        decreases e - i,
    {
        proof {
            assert(power(b as nat, (i + 1) as nat) == b * power(b as nat, i as nat));
        }
        if acc > 0x7fff_ffff_ffff_ffff / b {
            proof {
                assert(b * acc > 0x7fff_ffff_ffff_ffff) by (nonlinear_arith)
                    requires
                        acc > 0x7fff_ffff_ffff_ffffu64 / b,
                        b >= 2,
                ;
                lemma_power_grows(b as nat, (i + 1) as nat, e as nat);
            }
            return None;
        }
        proof {
            assert(b * acc <= 0x7fff_ffff_ffff_ffff) by (nonlinear_arith)
                requires
                    acc <= 0x7fff_ffff_ffff_ffffu64 / b,
                    b >= 2,
            ;
        }
        assert(acc * b == b * acc) by (nonlinear_arith);
        acc = acc * b;
        i = i + 1;
    }
    Some(acc)
}

proof fn lemma_power_small(b: nat, e: nat)
    requires
        b <= 1,
    ensures
        power(b, e) == (if b == 0 && e > 0 {
            0nat
        } else {
            1nat
        }),
    decreases e,
{
    if e > 0 {
        lemma_power_small(b, (e - 1) as nat);
    }
}

fn power_ratio_exec(negative: bool, n: u64, d: u64, e: u64) -> (r: Option<Number>)
    requires
        n <= 0x8000_0000_0000_0000,
        d <= 0x8000_0000_0000_0000,
        d > 0,
    ensures
        r == power_ratio(negative, n as nat, d as nat, e as nat),
{
    let pn = power_capped(n, e);
    let pd = power_capped(d, e);
    match (pn, pd) {
        (Some(pn), Some(pd)) => {
            proof {
                lemma_power_grows(d as nat, 0, e as nat);
            }
            let signed: i128 = if negative {
                -(pn as i128)
            } else {
                pn as i128
            };
            reduce(signed, pd as i128)
        },
        _ => None,
    }
}

fn magnitude(x: i64) -> (r: u64)
    ensures
        r == abs(x as int),
{
    if x < 0 {
        ((-(x as i128)) as u64)
    } else {
        x as u64
    }
}

impl Number {
    pub fn add(self, rhs: Number) -> (r: Option<Number>)
        ensures
            r == self.spec_add(rhs),
    {
        let Number::Rational(an, ad) = self;
        let Number::Rational(bn, bd) = rhs;
        if ad <= 0 || bd <= 0 {
            return None;
        }
        proof {
            lemma_product_bound(an as int, bd as int);
            lemma_product_bound(bn as int, ad as int);
            lemma_square_bound(an as int, bn as int);
            lemma_product_bound(ad as int, bd as int);
            lemma_product_bound(bn as int, ad as int);
        }
        let n = (an as i128) * (bd as i128) + (bn as i128) * (ad as i128);
        let d = (ad as i128) * (bd as i128);
        reduce(n, d)
    }

    pub fn sub(self, rhs: Number) -> (r: Option<Number>)
        ensures
            r == self.spec_sub(rhs),
    {
        let Number::Rational(an, ad) = self;
        let Number::Rational(bn, bd) = rhs;
        if ad <= 0 || bd <= 0 {
            return None;
        }
        proof {
            lemma_product_bound(an as int, bd as int);
            lemma_product_bound(bn as int, ad as int);
            lemma_square_bound(an as int, bn as int);
            lemma_product_bound(ad as int, bd as int);
            lemma_product_bound(bn as int, ad as int);
        }
        let n = (an as i128) * (bd as i128) - (bn as i128) * (ad as i128);
        let d = (ad as i128) * (bd as i128);
        reduce(n, d)
    }

    pub fn mul(self, rhs: Number) -> (r: Option<Number>)
        ensures
            r == self.spec_mul(rhs),
    {
        let Number::Rational(an, ad) = self;
        let Number::Rational(bn, bd) = rhs;
        if ad <= 0 || bd <= 0 {
            return None;
        }
        proof {
            lemma_product_bound(an as int, bd as int);
            lemma_product_bound(bn as int, ad as int);
            lemma_square_bound(an as int, bn as int);
            lemma_product_bound(ad as int, bd as int);
            lemma_product_bound(bn as int, ad as int);
        }
        let n = (an as i128) * (bn as i128);
        let d = (ad as i128) * (bd as i128);
        reduce(n, d)
    }

    pub fn div(self, rhs: Number) -> (r: Option<Number>)
        ensures
            r == self.spec_div(rhs),
    {
        let Number::Rational(an, ad) = self;
        let Number::Rational(bn, bd) = rhs;
        if ad <= 0 || bd <= 0 || bn == 0 {
            return None;
        }
        proof {
            lemma_product_bound(an as int, bd as int);
            lemma_product_bound(bn as int, ad as int);
            lemma_square_bound(an as int, bn as int);
            lemma_product_bound(ad as int, bd as int);
            lemma_product_bound(bn as int, ad as int);
        }
        let n = (an as i128) * (bd as i128);
        assert((ad as int) * (bn as int) == (bn as int) * (ad as int)) by (nonlinear_arith);
        let d = (ad as i128) * (bn as i128);
        if bn > 0 {
            reduce(n, d)
        } else {
            reduce(-n, -d)
        }
    }

    pub fn neg(self) -> (r: Option<Number>)
        ensures
            r == self.spec_neg(),
    {
        let Number::Rational(n, d) = self;
        if n == i64::MIN {
            None
        } else {
            Some(Number::Rational(-n, d))
        }
    }

    pub fn pow(self, rhs: Number) -> (r: Option<Number>)
        ensures
            r == self.spec_pow(rhs),
    {
        let Number::Rational(an, ad) = self;
        let Number::Rational(bn, bd) = rhs;
        if ad <= 0 || bd != 1 {
            return None;
        }
        let e = magnitude(bn);
        let odd = e % 2 == 1;
        if bn >= 0 {
            power_ratio_exec(an < 0 && odd, magnitude(an), magnitude(ad), e)
        } else if an == 0 {
            None
        } else {
            power_ratio_exec(an < 0 && odd, magnitude(ad), magnitude(an), e)
        }
    }
}

pub open spec fn is_digit(c: char) -> bool {
    '0' <= c <= '9'
}

pub open spec fn all_digits(s: Seq<char>) -> bool {
    forall|i: int| 0 <= i < s.len() ==> is_digit(#[trigger] s[i])
}

/// The value of a string of decimal digits.
pub open spec fn digits_value(s: Seq<char>) -> nat
    decreases s.len(),
{
    if s.len() == 0 {
        0
    } else {
        digits_value(s.drop_last()) * 10 + ((s.last() as nat) - ('0' as nat)) as nat
    }
}

/// `s[k]` is the one decimal point of `s`, with digits on both sides of it.
pub open spec fn decimal_point(s: Seq<char>, k: int) -> bool {
    0 <= k < s.len() && s[k] == '.' && all_digits(s.take(k)) && all_digits(s.skip(k + 1))
}

/// The largest magnitude that an `i64` of the given sign holds.
pub open spec fn limit(negative: bool) -> nat {
    if negative {
        0x8000_0000_0000_0000
    } else {
        0x7fff_ffff_ffff_ffff
    }
}

pub open spec fn signed(negative: bool, v: nat) -> int {
    if negative {
        -v
    } else {
        v as int
    }
}

/// What an unsigned literal denotes, given the sign before it: digits give
/// an integer, digits with one decimal point the exact fraction that the
/// point implies.
pub open spec fn unsigned_of(s: Seq<char>, negative: bool) -> Result<Number, SymErr> {
    if s.len() > 0 && all_digits(s) {
        if digits_value(s) <= limit(negative) {
            Ok(Number::Rational(signed(negative, digits_value(s)) as i64, 1))
        } else {
            Err(SymErr::NotANumber)
        }
    } else if s.len() > 1 && exists|k: int| decimal_point(s, k) {
        let k = choose|k: int| decimal_point(s, k);
        let v = digits_value(s.take(k) + s.skip(k + 1));
        let d = power(10, (s.len() - k - 1) as nat);
        if v <= limit(negative) && d <= i64::MAX {
            match lowest(signed(negative, v), d as int) {
                Some(x) => Ok(x),
                None => Err(SymErr::NotANumber),
            }
        } else {
            Err(SymErr::NotANumber)
        }
    } else {
        Err(SymErr::NotANumber)
    }
}

/// What a numeric literal denotes: an optional `+` or `-`, then an
/// unsigned literal.
pub open spec fn number_of(s: Seq<char>) -> Result<Number, SymErr> {
    if s.len() > 0 && s[0] == '-' {
        unsigned_of(s.skip(1), true)
    } else if s.len() > 0 && s[0] == '+' {
        unsigned_of(s.skip(1), false)
    } else {
        unsigned_of(s, false)
    }
}

proof fn lemma_digits_grow(s: Seq<char>, n: int)
    requires
        0 <= n <= s.len(),
        all_digits(s),
    ensures
        digits_value(s.take(n)) <= digits_value(s),
    decreases s.len(),
{
    if n < s.len() {
        let t = s.drop_last();
        assert(t.take(n) =~= s.take(n));
        lemma_digits_grow(t, n);
        assert(all_digits(t));
    } else {
        assert(s.take(n) =~= s);
    }
}

proof fn lemma_point_digits(s: Seq<char>, k: int)
    requires
        decimal_point(s, k),
    ensures
        forall|j: int| 0 <= j < s.len() && j != k ==> is_digit(#[trigger] s[j]),
{
    assert forall|j: int| 0 <= j < s.len() && j != k implies is_digit(#[trigger] s[j]) by {
        if j < k {
            assert(s.take(k)[j] == s[j]);
        } else {
            assert(s.skip(k + 1)[j - k - 1] == s[j]);
        }
    }
}

proof fn lemma_point_unique(s: Seq<char>, k1: int, k2: int)
    requires
        decimal_point(s, k1),
        decimal_point(s, k2),
    ensures
        k1 == k2,
{
    if k1 < k2 {
        assert(s.skip(k1 + 1)[k2 - k1 - 1] == s[k2]);
    } else if k2 < k1 {
        assert(s.skip(k2 + 1)[k1 - k2 - 1] == s[k1]);
    }
}

/// Reads an unsigned literal that follows the given sign.
fn parse_unsigned(from: &str, negative: bool) -> (r: Result<Number, SymErr>)
    ensures
        r == unsigned_of(from@, negative),
{
    let top: u64 = if negative {
        0x8000_0000_0000_0000
    } else {
        0x7fff_ffff_ffff_ffff
    };
    let len = from.unicode_len();
    let ghost s = from@;
    let mut acc: u64 = 0;
    let mut point: usize = 0;
    let mut seen_point = false;
    let mut i: usize = 0;
    // the digits read so far, without the point
    let ghost mut read: Seq<char> = Seq::empty();
    while i < len
        invariant
            len == s.len(),
            s == from@,
            i <= len,
            acc == digits_value(read),
            top == limit(negative),
            acc <= top,
            all_digits(read),
            !seen_point ==> read == s.take(i as int),
            seen_point ==> point < i && s[point as int] == '.' && read == s.take(point as int)
                + s.subrange(point + 1, i as int),
            forall|j: int| 0 <= j < i && j != point ==> is_digit(#[trigger] s[j]),
            !seen_point ==> forall|j: int| 0 <= j < i ==> is_digit(#[trigger] s[j]),
        decreases len - i,
    {
        let c = from.get_char(i);
        if '0' <= c && c <= '9' {
            let d = (c as u64) - ('0' as u64);
            if acc > (top - d) / 10 {
                proof {
                    let next = read.push(c);
                    assert(next.drop_last() =~= read);
                    assert(acc * 10 + d > top) by (nonlinear_arith)
                        requires
                            acc > (top - d) / 10,
                            d <= 9,
                            d <= top,
                    ;
                    assert(digits_value(next) > limit(negative));
                    assert(all_digits(next));
                    if !seen_point {
                        assert(next =~= s.take(i + 1));
                        if all_digits(s) {
                            lemma_digits_grow(s, i + 1);
                        }
                    }
                    assert forall|k: int| decimal_point(s, k) implies digits_value(
                        s.take(k) + s.skip(k + 1),
                    ) > limit(negative) by {
                        lemma_point_digits(s, k);
                        let whole = s.take(k) + s.skip(k + 1);
                        assert(all_digits(whole));
                        if seen_point {
                            lemma_point_unique(s, k, point as int);
                        } else {
                            assert(k > i);
                        }
                        assert(whole.take(next.len() as int) =~= next);
                        lemma_digits_grow(whole, next.len() as int);
                    }
                }
                return Err(SymErr::NotANumber);
            }
            proof {
                assert(acc * 10 + d <= top) by (nonlinear_arith)
                    requires
                        acc <= (top - d) / 10,
                        d <= 9,
                        d <= top,
                ;
                let next = read.push(c);
                assert(next.drop_last() =~= read);
                if !seen_point {
                    assert(next =~= s.take(i + 1));
                } else {
                    assert(next =~= s.take(point as int) + s.subrange(point + 1, i + 1));
                }
                read = next;
            }
            acc = acc * 10 + d;
        } else if c == '.' && !seen_point {
            seen_point = true;
            point = i;
            proof {
                assert(s.subrange(point + 1, i + 1) =~= Seq::<char>::empty());
                assert(read + Seq::<char>::empty() =~= read);
            }
        } else {
            proof {
                assert(!all_digits(s));
                assert forall|k: int| !decimal_point(s, k) by {
                    if decimal_point(s, k) {
                        lemma_point_digits(s, k);
                    }
                }
            }
            return Err(SymErr::NotANumber);
        }
        i = i + 1;
    }
    if !seen_point {
        if len == 0 {
            return Err(SymErr::NotANumber);
        }
        proof {
            assert(s.take(len as int) =~= s);
        }
        let v: i64 = if negative {
            (-(acc as i128)) as i64
        } else {
            acc as i64
        };
        return Ok(Number::Rational(v, 1));
    }
    proof {
        assert(s.subrange(point + 1, len as int) =~= s.skip(point + 1));
        assert(decimal_point(s, point as int));
        assert forall|k: int| decimal_point(s, k) implies k == point by {
            lemma_point_unique(s, k, point as int);
        }
        assert(!all_digits(s));
    }
    if len == 1 {
        return Err(SymErr::NotANumber);
    }
    match power_capped(10, (len - point - 1) as u64) {
        None => Err(SymErr::NotANumber),
        Some(d) => {
            proof {
                lemma_power_grows(10, 0, (len - point - 1) as nat);
            }
            let n: i128 = if negative {
                -(acc as i128)
            } else {
                acc as i128
            };
            match reduce(n, d as i128) {
                Some(x) => Ok(x),
                None => Err(SymErr::NotANumber),
            }
        },
    }
}

impl Number {
    /// Reads a numeric literal: an optional sign, then digits with at most
    /// one decimal point.
    pub fn parse(from: &str) -> (r: Result<Number, SymErr>)
        ensures
            r == number_of(from@),
    {
        let len = from.unicode_len();
        if len > 0 {
            let c = from.get_char(0);
            if c == '-' || c == '+' {
                let rest = from.substring_char(1, len);
                assert(rest@ =~= from@.skip(1));
                return parse_unsigned(rest, c == '-');
            }
        }
        parse_unsigned(from, false)
    }
}

} // verus!
