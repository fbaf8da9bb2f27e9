//! Exact non-negative rational numbers on machine words.
//!
//! Every centrality score is a fraction of two integers, so the library keeps
//! scores as a numerator over a positive denominator and reduces by a common
//! divisor after each operation.  Operations whose reduced result no longer
//! fits a `u64` report that instead of silently losing precision.

use vstd::prelude::*;

verus! {

/// Mathematical value of a rational: an integer numerator over an integer
/// denominator.  Ghost only; the spec-level ledger that contracts speak of.
pub struct Frac {
    pub n: int,
    pub d: int,
}

/// A fraction is well formed when its denominator is positive and its
/// numerator non-negative.
pub open spec fn frac_wf(a: Frac) -> bool {
    1 <= a.d && 0 <= a.n
}

/// Two fractions denote the same value exactly when they cross-multiply
/// equally.
pub open spec fn frac_eq(a: Frac, b: Frac) -> bool {
    a.n * b.d == b.n * a.d
}

/// `a <= b` as values, by cross multiplication.
pub open spec fn frac_le(a: Frac, b: Frac) -> bool {
    a.n * b.d <= b.n * a.d
}

pub open spec fn frac_zero() -> Frac {
    Frac { n: 0, d: 1 }
}

pub open spec fn frac_one() -> Frac {
    Frac { n: 1, d: 1 }
}

pub open spec fn frac_add(a: Frac, b: Frac) -> Frac {
    Frac { n: a.n * b.d + b.n * a.d, d: a.d * b.d }
}

pub open spec fn frac_mul(a: Frac, b: Frac) -> Frac {
    Frac { n: a.n * b.n, d: a.d * b.d }
}

pub open spec fn frac_div(a: Frac, b: Frac) -> Frac {
    Frac { n: a.n * b.d, d: a.d * b.n }
}

/// `|a - b|` as a fraction.
pub open spec fn frac_abs_diff(a: Frac, b: Frac) -> Frac {
    if a.n * b.d >= b.n * a.d {
        Frac { n: a.n * b.d - b.n * a.d, d: a.d * b.d }
    } else {
        Frac { n: b.n * a.d - a.n * b.d, d: a.d * b.d }
    }
}

/// Sum of a sequence of fractions, left to right.
pub open spec fn frac_sum(s: Seq<Frac>) -> Frac
    decreases s.len(),
{
    if s.len() == 0 {
        frac_zero()
    } else {
        frac_add(frac_sum(s.drop_last()), s.last())
    }
}

/// Equivalence is transitive; the shared denominator cancels because it is
/// positive.
pub proof fn lemma_frac_eq_trans(a: Frac, b: Frac, c: Frac)
    requires
        frac_wf(a),
        frac_wf(b),
        frac_wf(c),
        frac_eq(a, b),
        frac_eq(b, c),
    ensures
        frac_eq(a, c),
{
    assert(a.n * c.d * b.d == c.n * a.d * b.d) by (nonlinear_arith)
        requires
            a.n * b.d == b.n * a.d,
            b.n * c.d == c.n * b.d,
    ;
    assert(a.n * c.d == c.n * a.d) by (nonlinear_arith)
        requires
            a.n * c.d * b.d == c.n * a.d * b.d,
            b.d >= 1,
    ;
}

/// A rational equivalent to a positive fraction has a positive numerator.
pub proof fn lemma_frac_eq_pos(c: Rational, f: Frac)
    requires
        c.wf(),
        frac_wf(f),
        f.n >= 1,
        frac_eq(c.v(), f),
    ensures
        c.num >= 1,
{
    assert(c.num >= 1) by (nonlinear_arith)
        requires
            c.num * f.d == f.n * c.den,
            f.n >= 1,
            f.d >= 1,
            c.den >= 1,
            c.num >= 0,
    ;
}

/// Equivalent fractions compare the same way against any third fraction.
pub proof fn lemma_frac_le_congruence(t: Frac, a: Frac, b: Frac)
    requires
        frac_wf(t),
        frac_wf(a),
        frac_wf(b),
        frac_eq(a, b),
    ensures
        frac_le(t, a) == frac_le(t, b),
        frac_le(a, t) == frac_le(b, t),
{
    assert((t.n * a.d <= a.n * t.d) == (t.n * b.d <= b.n * t.d)) by (nonlinear_arith)
        requires
            a.n * b.d == b.n * a.d,
            a.d >= 1,
            b.d >= 1,
            t.d >= 1,
    ;
    assert((a.n * t.d <= t.n * a.d) == (b.n * t.d <= t.n * b.d)) by (nonlinear_arith)
        requires
            a.n * b.d == b.n * a.d,
            a.d >= 1,
            b.d >= 1,
            t.d >= 1,
    ;
}

/// Replacing the dividend by an equivalent fraction keeps the quotient
/// equivalent.
pub proof fn lemma_frac_div_congruence_dividend(a: Frac, a2: Frac, t: Frac)
    requires
        frac_wf(a),
        frac_wf(a2),
        frac_wf(t),
        t.n >= 1,
        frac_eq(a, a2),
    ensures
        frac_eq(frac_div(a, t), frac_div(a2, t)),
{
    assert((a.n * t.d) * (a2.d * t.n) == (a2.n * t.d) * (a.d * t.n)) by (nonlinear_arith)
        requires
            a.n * a2.d == a2.n * a.d,
    ;
}

/// Replacing both operands by equivalent fractions keeps the absolute
/// difference equivalent.
pub proof fn lemma_frac_abs_diff_congruence(a: Frac, a2: Frac, b: Frac, b2: Frac)
    requires
        frac_wf(a),
        frac_wf(a2),
        frac_wf(b),
        frac_wf(b2),
        frac_eq(a, a2),
        frac_eq(b, b2),
    ensures
        frac_eq(frac_abs_diff(a, b), frac_abs_diff(a2, b2)),
{
    let k = a2.d * b2.d;
    let m = a.d * b.d;
    assert((a.n * b.d) * k == (a2.n * b2.d) * m) by (nonlinear_arith)
        requires
            a.n * a2.d == a2.n * a.d,
            k == a2.d * b2.d,
            m == a.d * b.d,
    ;
    assert((b.n * a.d) * k == (b2.n * a2.d) * m) by (nonlinear_arith)
        requires
            b.n * b2.d == b2.n * b.d,
            k == a2.d * b2.d,
            m == a.d * b.d,
    ;
    assert(k >= 1 && m >= 1) by (nonlinear_arith)
        requires
            a.d >= 1,
            b.d >= 1,
            a2.d >= 1,
            b2.d >= 1,
            k == a2.d * b2.d,
            m == a.d * b.d,
    ;
    assert((a.n * b.d >= b.n * a.d) == (a2.n * b2.d >= b2.n * a2.d)) by (nonlinear_arith)
        requires
            (a.n * b.d) * k == (a2.n * b2.d) * m,
            (b.n * a.d) * k == (b2.n * a2.d) * m,
            k >= 1,
            m >= 1,
    ;
    if a.n * b.d >= b.n * a.d {
        assert((a.n * b.d - b.n * a.d) * k == (a2.n * b2.d - b2.n * a2.d) * m)
            by (nonlinear_arith)
            requires
                (a.n * b.d) * k == (a2.n * b2.d) * m,
                (b.n * a.d) * k == (b2.n * a2.d) * m,
        ;
    } else {
        assert((b.n * a.d - a.n * b.d) * k == (b2.n * a2.d - a2.n * b2.d) * m)
            by (nonlinear_arith)
            requires
                (a.n * b.d) * k == (a2.n * b2.d) * m,
                (b.n * a.d) * k == (b2.n * a2.d) * m,
        ;
    }
}

/// An absolute difference of well-formed fractions is well formed.
pub proof fn lemma_frac_abs_diff_wf(a: Frac, b: Frac)
    requires
        frac_wf(a),
        frac_wf(b),
    ensures
        frac_wf(frac_abs_diff(a, b)),
{
    assert(a.d * b.d >= 1) by (nonlinear_arith)
        requires
            a.d >= 1,
            b.d >= 1,
    ;
}

/// `<=` on fraction values is transitive.
pub proof fn lemma_frac_le_trans(a: Frac, b: Frac, c: Frac)
    requires
        frac_wf(a),
        frac_wf(b),
        frac_wf(c),
        frac_le(a, b),
        frac_le(b, c),
    ensures
        frac_le(a, c),
{
    assert(a.n * c.d * b.d <= c.n * a.d * b.d) by (nonlinear_arith)
        requires
            a.n * b.d <= b.n * a.d,
            b.n * c.d <= c.n * b.d,
            a.d >= 1,
            b.d >= 1,
            c.d >= 1,
    ;
    assert(a.n * c.d <= c.n * a.d) by (nonlinear_arith)
        requires
            a.n * c.d * b.d <= c.n * a.d * b.d,
            b.d >= 1,
    ;
}

/// Replacing one addend by an equivalent fraction keeps the sum equivalent.
pub proof fn lemma_frac_add_congruence(a: Frac, a2: Frac, b: Frac)
    requires
        frac_wf(a),
        frac_wf(a2),
        frac_wf(b),
        frac_eq(a, a2),
    ensures
        frac_eq(frac_add(a, b), frac_add(a2, b)),
{
    assert((a.n * b.d) * (a2.d * b.d) == (a2.n * b.d) * (a.d * b.d)) by (nonlinear_arith)
        requires
            a.n * a2.d == a2.n * a.d,
    ;
    assert((b.n * a.d) * (a2.d * b.d) == (b.n * a2.d) * (a.d * b.d)) by (nonlinear_arith);
    assert((a.n * b.d + b.n * a.d) * (a2.d * b.d) == (a.n * b.d) * (a2.d * b.d) + (b.n * a.d) * (
    a2.d * b.d)) by (nonlinear_arith);
    assert((a2.n * b.d + b.n * a2.d) * (a.d * b.d) == (a2.n * b.d) * (a.d * b.d) + (b.n * a2.d) * (
    a.d * b.d)) by (nonlinear_arith);
}

/// A sum of well-formed fractions is well formed.
pub proof fn lemma_frac_add_wf(a: Frac, b: Frac)
    requires
        frac_wf(a),
        frac_wf(b),
    ensures
        frac_wf(frac_add(a, b)),
{
    assert(a.n * b.d + b.n * a.d >= 0 && a.d * b.d >= 1) by (nonlinear_arith)
        requires
            a.d >= 1,
            b.d >= 1,
            a.n >= 0,
            b.n >= 0,
    ;
}

/// Dividing two addends by the same fraction and then adding gives the same
/// value as adding first and dividing once.
pub proof fn lemma_frac_div_add(x: Frac, y: Frac, t: Frac)
    requires
        frac_wf(x),
        frac_wf(y),
        frac_wf(t),
        t.n >= 1,
    ensures
        frac_eq(frac_add(frac_div(x, t), frac_div(y, t)), frac_div(frac_add(x, y), t)),
{
    let l = frac_add(frac_div(x, t), frac_div(y, t));
    let r = frac_div(frac_add(x, y), t);
    let s = x.n * y.d + y.n * x.d;
    assert(x.n * t.d * (y.d * t.n) == t.n * t.d * (x.n * y.d)) by (nonlinear_arith);
    assert(y.n * t.d * (x.d * t.n) == t.n * t.d * (y.n * x.d)) by (nonlinear_arith);
    assert(t.n * t.d * (x.n * y.d) + t.n * t.d * (y.n * x.d) == t.n * t.d * s)
        by (nonlinear_arith)
        requires
            s == x.n * y.d + y.n * x.d,
    ;
    assert(l.n == t.n * t.d * s);
    assert(l.d == x.d * y.d * (t.n * t.n)) by (nonlinear_arith)
        requires
            l.d == x.d * t.n * (y.d * t.n),
    ;
    assert(r.n == s * t.d && r.d == x.d * y.d * t.n);
    assert((t.n * t.d * s) * (x.d * y.d * t.n) == (s * t.d) * (x.d * y.d * (t.n * t.n)))
        by (nonlinear_arith);
    assert(l.n * r.d == r.n * l.d);
}

/// The executable `checked_add`, mirrored at the specification level: the
/// same word-size guard, the same reduction, the same bound on the reduced
/// pair, so the executable result is a function of its operands.
pub open spec fn spec_checked_add(a: Rational, b: Rational) -> Option<Rational> {
    let n = a.num * b.den + b.num * a.den;
    let d = a.den * b.den;
    if n > u128::MAX {
        Option::None
    } else {
        let g = gcd_spec(n, d);
        if n / g <= u64::MAX && d / g <= u64::MAX {
            Option::Some(Rational { num: (n / g) as u64, den: (d / g) as u64 })
        } else {
            Option::None
        }
    }
}

/// The executable `checked_mul`, mirrored at the specification level.
pub open spec fn spec_checked_mul(a: Rational, b: Rational) -> Option<Rational> {
    let n = a.num * b.num;
    let d = a.den * b.den;
    let g = gcd_spec(n, d);
    if n / g <= u64::MAX && d / g <= u64::MAX {
        Option::Some(Rational { num: (n / g) as u64, den: (d / g) as u64 })
    } else {
        Option::None
    }
}

/// The executable `checked_div`, mirrored at the specification level.
pub open spec fn spec_checked_div(a: Rational, b: Rational) -> Option<Rational> {
    let n = a.num * b.den;
    let d = a.den * b.num;
    let g = gcd_spec(n, d);
    if n / g <= u64::MAX && d / g <= u64::MAX {
        Option::Some(Rational { num: (n / g) as u64, den: (d / g) as u64 })
    } else {
        Option::None
    }
}

/// The executable `checked_abs_diff`, mirrored at the specification level.
pub open spec fn spec_checked_abs_diff(a: Rational, b: Rational) -> Option<Rational> {
    let n1 = a.num * b.den;
    let n2 = b.num * a.den;
    let n = if n1 >= n2 {
        n1 - n2
    } else {
        n2 - n1
    };
    let d = a.den * b.den;
    let g = gcd_spec(n, d);
    if n / g <= u64::MAX && d / g <= u64::MAX {
        Option::Some(Rational { num: (n / g) as u64, den: (d / g) as u64 })
    } else {
        Option::None
    }
}

/// Dividing by one and reducing by one change nothing: the gcd of any
/// non-negative value with one is one.
pub proof fn lemma_gcd_spec_one(a: int)
    requires
        a >= 0,
    ensures
        gcd_spec(a, 1) == 1,
        a / 1 == a,
{
    vstd::arithmetic::div_mod::lemma_mod_multiples_basic(a, 1);
    assert(a * 1 == a) by (nonlinear_arith);
    assert(a % 1 == 0);
    assert(gcd_spec(a, 1) == gcd_spec(1, 0));
    vstd::arithmetic::div_mod::lemma_fundamental_div_mod(a, 1);
    assert(a / 1 == a) by (nonlinear_arith)
        requires
            a == 1 * (a / 1) + a % 1,
            a % 1 == 0,
    ;
}

/// An exact non-negative rational score.  The denominator is always at least
/// one; operations keep the pair reduced by a common divisor.
#[derive(Clone, Copy, Debug, PartialEq, Eq, Structural)]
pub struct Rational {
    pub num: u64,
    pub den: u64,
}

impl Rational {
    /// Denominator positive: the structural invariant every operation
    /// establishes and expects.
    pub open spec fn wf(self) -> bool {
        1 <= self.den
    }

    /// The mathematical value this pair denotes.
    pub open spec fn v(self) -> Frac {
        Frac { n: self.num as int, d: self.den as int }
    }

    pub fn zero() -> (r: Rational)
        ensures
            r.wf(),
            r.v() == frac_zero(),
    {
        Rational { num: 0, den: 1 }
    }

    pub fn one() -> (r: Rational)
        ensures
            r.wf(),
            r.v() == frac_one(),
    {
        Rational { num: 1, den: 1 }
    }

    /// Build `num / den`, reduced.
    pub fn new(num: u64, den: u64) -> (r: Rational)
        requires
            den >= 1,
        ensures
            r.wf(),
            frac_eq(r.v(), Frac { n: num as int, d: den as int }),
            frac_wf(r.v()),
            r.num == 0 <==> num == 0,
            r.num == num as int / gcd_spec(num as int, den as int),
            r.den == den as int / gcd_spec(num as int, den as int),
    {
        let r = reduce(num as u128, den as u128).unwrap();
        proof {
            lemma_reduced_zero(r, num as int, den as int);
        }
        r
    }

    /// `self + other`, or nothing if the reduced result leaves `u64`.
    pub fn checked_add(self, other: Rational) -> (r: Option<Rational>)
        requires
            self.wf(),
            other.wf(),
        ensures
            r matches Some(c) ==> c.wf() && frac_eq(c.v(), frac_add(self.v(), other.v())),
            r matches Some(c) ==> {
                let g = gcd_spec(
                    self.num * other.den + other.num * self.den,
                    self.den * other.den,
                );
                c.num == (self.num * other.den + other.num * self.den) / g && c.den == self.den
                    * other.den / g
            },
            self.num * other.den + other.num * self.den <= u64::MAX && self.den * other.den
                <= u64::MAX ==> r.is_some(),
            r == spec_checked_add(self, other),
    {
        proof {
            lemma_mul_fits_u128(self.num as int, other.den as int);
            lemma_mul_fits_u128(other.num as int, self.den as int);
            lemma_mul_fits_u128(self.den as int, other.den as int);
        }
        let n1: u128 = (self.num as u128) * (other.den as u128);
        let n2: u128 = (other.num as u128) * (self.den as u128);
        if n1 > u128::MAX - n2 {
            return None;
        }
        let d: u128 = (self.den as u128) * (other.den as u128);
        reduce(n1 + n2, d)
    }

    /// `self * other`, or nothing if the reduced result leaves `u64`.
    pub fn checked_mul(self, other: Rational) -> (r: Option<Rational>)
        requires
            self.wf(),
            other.wf(),
        ensures
            r matches Some(c) ==> c.wf() && frac_eq(c.v(), frac_mul(self.v(), other.v())),
            r matches Some(c) ==> {
                let g = gcd_spec(self.num * other.num, self.den * other.den);
                c.num == self.num * other.num / g && c.den == self.den * other.den / g
            },
            self.num * other.num <= u64::MAX && self.den * other.den <= u64::MAX
                ==> r.is_some(),
            r == spec_checked_mul(self, other),
    {
        proof {
            lemma_mul_fits_u128(self.num as int, other.num as int);
            lemma_mul_fits_u128(self.den as int, other.den as int);
        }
        let n: u128 = (self.num as u128) * (other.num as u128);
        let d: u128 = (self.den as u128) * (other.den as u128);
        reduce(n, d)
    }

    /// `self / other` for a positive divisor, or nothing if the reduced
    /// result leaves `u64`.
    pub fn checked_div(self, other: Rational) -> (r: Option<Rational>)
        requires
            self.wf(),
            other.wf(),
            other.num >= 1,
        ensures
            r matches Some(c) ==> c.wf() && frac_eq(c.v(), frac_div(self.v(), other.v())),
            r matches Some(c) ==> (self.num == 0 ==> c.num == 0),
            r matches Some(c) ==> {
                let g = gcd_spec(self.num * other.den, self.den * other.num);
                c.num == self.num * other.den / g && c.den == self.den * other.num / g
            },
            self.num * other.den <= u64::MAX && self.den * other.num <= u64::MAX
                ==> r.is_some(),
            r == spec_checked_div(self, other),
    {
        proof {
            lemma_mul_fits_u128(self.num as int, other.den as int);
            lemma_mul_fits_u128(self.den as int, other.num as int);
        }
        let n: u128 = (self.num as u128) * (other.den as u128);
        let d: u128 = (self.den as u128) * (other.num as u128);
        match reduce(n, d) {
            Some(c) => {
                proof {
                    lemma_reduced_zero(c, n as int, d as int);
                }
                Some(c)
            },
            None => None,
        }
    }

    /// `|self - other|`, or nothing if the reduced result leaves `u64`.
    pub fn checked_abs_diff(self, other: Rational) -> (r: Option<Rational>)
        requires
            self.wf(),
            other.wf(),
        ensures
            r matches Some(c) ==> c.wf() && frac_eq(c.v(), frac_abs_diff(self.v(), other.v())),
            self.num * other.den <= u64::MAX && other.num * self.den <= u64::MAX && self.den
                * other.den <= u64::MAX ==> r.is_some(),
            r == spec_checked_abs_diff(self, other),
    {
        proof {
            lemma_mul_fits_u128(self.num as int, other.den as int);
            lemma_mul_fits_u128(other.num as int, self.den as int);
            lemma_mul_fits_u128(self.den as int, other.den as int);
        }
        let n1: u128 = (self.num as u128) * (other.den as u128);
        let n2: u128 = (other.num as u128) * (self.den as u128);
        let n: u128 = if n1 >= n2 {
            n1 - n2
        } else {
            n2 - n1
        };
        let d: u128 = (self.den as u128) * (other.den as u128);
        reduce(n, d)
    }

    /// Exact value comparison `self <= other`.
    pub fn le(self, other: Rational) -> (r: bool)
        requires
            self.wf(),
            other.wf(),
        ensures
            r == frac_le(self.v(), other.v()),
    {
        proof {
            lemma_mul_fits_u128(self.num as int, other.den as int);
            lemma_mul_fits_u128(other.num as int, self.den as int);
        }
        (self.num as u128) * (other.den as u128) <= (other.num as u128) * (self.den as u128)
    }

    /// Exact value comparison `self < other`.
    pub fn lt(self, other: Rational) -> (r: bool)
        requires
            self.wf(),
            other.wf(),
        ensures
            r == !frac_le(other.v(), self.v()),
    {
        proof {
            lemma_mul_fits_u128(self.num as int, other.den as int);
            lemma_mul_fits_u128(other.num as int, self.den as int);
        }
        (self.num as u128) * (other.den as u128) < (other.num as u128) * (self.den as u128)
    }

    /// Whether the value is exactly zero.
    pub fn is_zero(self) -> (r: bool)
        requires
            self.wf(),
        ensures
            r == (self.num == 0),
            r == frac_eq(self.v(), frac_zero()),
    {
        self.num == 0
    }
}

/// The product of two `u64`-sized values fits a `u128`; positive factors
/// give a positive product.
proof fn lemma_mul_fits_u128(a: int, b: int)
    requires
        0 <= a <= u64::MAX,
        0 <= b <= u64::MAX,
    ensures
        0 <= a * b <= u64::MAX * u64::MAX,
        a * b < u128::MAX,
        a >= 1 && b >= 1 ==> a * b >= 1,
{
    assert(u64::MAX * u64::MAX < u128::MAX) by (nonlinear_arith);
    vstd::arithmetic::mul::lemma_mul_upper_bound(a, u64::MAX as int, b, u64::MAX as int);
    vstd::arithmetic::mul::lemma_mul_nonnegative(a, b);
    if a >= 1 && b >= 1 {
        vstd::arithmetic::mul::lemma_mul_strictly_positive(a, b);
    }
}

/// A reduced rational is zero exactly when the fraction it denotes is.
proof fn lemma_reduced_zero(c: Rational, n: int, d: int)
    requires
        c.wf(),
        d >= 1,
        frac_eq(c.v(), Frac { n: n, d: d }),
    ensures
        c.num == 0 <==> n == 0,
{
    assert(c.num * d == n * c.den);
    assert(c.num == 0 ==> n == 0) by (nonlinear_arith)
        requires
            c.num * d == n * c.den,
            d >= 1,
            c.den >= 1,
    ;
    assert(n == 0 ==> c.num == 0) by (nonlinear_arith)
        requires
            c.num * d == n * c.den,
            d >= 1,
            c.den >= 1,
    ;
}

/// Euclid's recursion at the specification level: the canonical common
/// divisor that reduction divides out, so reduced pairs are pinned as a
/// function of the unreduced pair.
pub open spec fn gcd_spec(a: int, b: int) -> int
    decreases b when b >= 0 via gcd_spec_dec
{
    if b <= 0 {
        a
    } else {
        gcd_spec(b, a % b)
    }
}

#[via_fn]
proof fn gcd_spec_dec(a: int, b: int) {
    if b > 0 {
        vstd::arithmetic::div_mod::lemma_mod_bound(a, b);
    }
}

/// Common divisor by Euclid's method: positive, divides both, and equal to
/// the specification-level recursion.
fn gcd_u128(a: u128, b: u128) -> (g: u128)
    requires
        b >= 1,
    ensures
        1 <= g,
        a as int % g as int == 0,
        b as int % g as int == 0,
        g as int == gcd_spec(a as int, b as int),
{
    let mut x: u128 = a;
    let mut y: u128 = b;
    while y != 0
        invariant
            x >= 1 || y >= 1,
            gcd_spec(x as int, y as int) == gcd_spec(a as int, b as int),
            forall|m: int|
                1 <= m && #[trigger] (x as int % m) == 0 && y as int % m == 0 ==> a as int % m
                    == 0 && b as int % m == 0,
        decreases y,
    {
        let t: u128 = x % y;
        proof {
            vstd::arithmetic::div_mod::lemma_mod_division_less_than_divisor(
                x as int,
                y as int,
            );
            assert(gcd_spec(x as int, y as int) == gcd_spec(y as int, t as int));
            assert forall|m: int|
                1 <= m && y as int % m == 0 && #[trigger] (t as int % m) == 0 implies x as int % m
                == 0 by {
                lemma_mod_divides_combine(x as int, y as int, m);
            }
        }
        x = y;
        y = t;
    }
    proof {
        vstd::arithmetic::div_mod::lemma_mod_self_0(x as int);
        vstd::arithmetic::div_mod::lemma_small_mod(0, x as nat);
    }
    x
}

/// If `m` divides `y` and `x % y`, it divides `x`.
proof fn lemma_mod_divides_combine(x: int, y: int, m: int)
    requires
        y >= 1,
        m >= 1,
        y % m == 0,
        (x % y) % m == 0,
    ensures
        x % m == 0,
{
    vstd::arithmetic::div_mod::lemma_fundamental_div_mod(x, y);
    vstd::arithmetic::div_mod::lemma_fundamental_div_mod(y, m);
    vstd::arithmetic::div_mod::lemma_fundamental_div_mod(x % y, m);
    let k = (y / m) * (x / y) + (x % y) / m;
    assert(x == m * k) by (nonlinear_arith)
        requires
            x == y * (x / y) + (x % y),
            y == m * (y / m),
            (x % y) == m * ((x % y) / m),
            k == (y / m) * (x / y) + (x % y) / m,
    ;
    vstd::arithmetic::div_mod::lemma_mod_multiples_basic(k, m);
}

/// Reduce `n / d` by a common divisor and narrow to `u64`; the pair kept
/// denotes exactly `n / d`.  Fails only when even the reduced pair leaves
/// `u64`, which cannot happen when the inputs already fit.
fn reduce(n: u128, d: u128) -> (r: Option<Rational>)
    requires
        d >= 1,
    ensures
        r matches Some(c) ==> c.wf() && frac_eq(c.v(), Frac { n: n as int, d: d as int }),
        r matches Some(c) ==> c.num as int == n as int / gcd_spec(n as int, d as int)
            && c.den as int == d as int / gcd_spec(n as int, d as int),
        n <= u64::MAX && d <= u64::MAX ==> r.is_some(),
        r.is_none() ==> n as int / gcd_spec(n as int, d as int) > u64::MAX || d as int
            / gcd_spec(n as int, d as int) > u64::MAX,
{
    let g = gcd_u128(n, d);
    let n2 = n / g;
    let d2 = d / g;
    proof {
        vstd::arithmetic::div_mod::lemma_fundamental_div_mod(n as int, g as int);
        vstd::arithmetic::div_mod::lemma_fundamental_div_mod(d as int, g as int);
        assert(d2 >= 1 && d2 <= d) by (nonlinear_arith)
            requires
                d as int == g as int * (d2 as int) + d as int % g as int,
                d as int % g as int == 0,
                d >= 1,
                g >= 1,
                d2 as int == d as int / g as int,
                d2 >= 0,
        ;
        assert(n2 <= n) by (nonlinear_arith)
            requires
                n as int == g as int * (n2 as int) + n as int % g as int,
                n as int % g as int == 0,
                g >= 1,
                n2 >= 0,
        ;
        assert(n2 as int * d as int == n as int * (d2 as int)) by (nonlinear_arith)
            requires
                n as int == g as int * (n2 as int),
                d as int == g as int * (d2 as int),
        ;
    }
    if n2 <= u64::MAX as u128 && d2 <= u64::MAX as u128 {
        Some(Rational { num: n2 as u64, den: d2 as u64 })
    } else {
        None
    }
}

} // verus!
