//! Exact probabilities as rational numbers.
//!
//! Edge probabilities of the decoding graph are probabilities of physical
//! errors, kept as exact fractions `num / den` with `0 <= num <= den`. The
//! independent-event union rule `p (1 - q) + q (1 - p)` used by combined
//! probability election is computed exactly, with the result reduced by the
//! greatest common divisor so that chained combinations stay representable.

use vstd::prelude::*;

verus! {

/// An exact probability in `[0, 1]`, stored as the fraction `num / den`.
#[derive(Clone, Copy, Debug, PartialEq, Eq, Structural, Hash)]
pub struct Prob {
    pub num: u64,
    pub den: u64,
}

impl View for Prob {
    type V = (int, int);

    open spec fn view(&self) -> (int, int) {
        (self.num as int, self.den as int)
    }
}

/// A fraction is well-formed when its denominator is positive and its value
/// lies in `[0, 1]`.
pub open spec fn frac_wf(p: (int, int)) -> bool {
    0 < p.1 && 0 <= p.0 <= p.1
}

/// Equality of fractions as rational numbers, by cross multiplication.
pub open spec fn frac_eqv(p: (int, int), q: (int, int)) -> bool {
    p.0 * q.1 == q.0 * p.1
}

/// Order of fractions as rational numbers, by cross multiplication.
pub open spec fn frac_le(p: (int, int), q: (int, int)) -> bool {
    p.0 * q.1 <= q.0 * p.1
}

/// Strict order of fractions as rational numbers.
pub open spec fn frac_lt(p: (int, int), q: (int, int)) -> bool {
    p.0 * q.1 < q.0 * p.1
}

/// The exact independent-event union rule: the probability that exactly one
/// of two independent events with probabilities `p` and `q` happens,
/// `p (1 - q) + q (1 - p)`, as an unreduced fraction.
pub open spec fn combine_frac(p: (int, int), q: (int, int)) -> (int, int) {
    (p.0 * q.1 + q.0 * p.1 - 2 * (p.0 * q.0), p.1 * q.1)
}

/// Greatest common divisor.
pub open spec fn gcd(a: nat, b: nat) -> nat
    decreases b,
{
    if b == 0 {
        a
    } else {
        gcd(b, a % b)
    }
}

/// What `Prob::combine` returns: the union rule applied exactly, reduced by
/// the greatest common divisor; `None` when even the reduced denominator
/// does not fit in a 64-bit machine word.
pub open spec fn combine_reduced_frac(p: (int, int), q: (int, int)) -> Option<(int, int)> {
    let c = combine_frac(p, q);
    let g = gcd(c.0 as nat, c.1 as nat) as int;
    if c.1 / g <= u64::MAX as int {
        Some((c.0 / g, c.1 / g))
    } else {
        None
    }
}

impl Prob {
    pub open spec fn wf(self) -> bool {
        frac_wf(self@)
    }

    /// A probability from a numerator and a positive denominator.
    pub fn new(num: u64, den: u64) -> (r: Prob)
        requires
            1 <= den,
            num <= den,
        ensures
            r@ == (num as int, den as int),
            r.wf(),
    {
        Prob { num, den }
    }

    /// The probability zero.
    pub fn zero() -> (r: Prob)
        ensures
            r@ == (0int, 1int),
            r.wf(),
    {
        Prob { num: 0, den: 1 }
    }

    /// Whether this probability is zero.
    pub fn is_zero(&self) -> (r: bool)
        ensures
            r <==> self@.0 == 0,
    {
        self.num == 0
    }

    /// Whether this probability is greater than zero.
    pub fn is_positive(&self) -> (r: bool)
        ensures
            r <==> self@.0 > 0,
    {
        self.num > 0
    }

    /// Whether this probability is exactly one half.
    pub fn is_half(&self) -> (r: bool)
        requires
            self.wf(),
        ensures
            r <==> frac_eqv(self@, (1int, 2int)),
    {
        let two_num: u128 = (self.num as u128) * 2;
        two_num == self.den as u128
    }

    /// Whether `self <= other` as rational numbers.
    pub fn le(&self, other: &Prob) -> (r: bool)
        requires
            self.wf(),
            other.wf(),
        ensures
            r == frac_le(self@, other@),
    {
        proof {
            lemma_u64_mul_fits(self.num, other.den);
            lemma_u64_mul_fits(other.num, self.den);
        }
        (self.num as u128) * (other.den as u128) <= (other.num as u128) * (self.den as u128)
    }

    /// Whether `self < other` as rational numbers.
    pub fn lt(&self, other: &Prob) -> (r: bool)
        requires
            self.wf(),
            other.wf(),
        ensures
            r == frac_lt(self@, other@),
    {
        proof {
            lemma_u64_mul_fits(self.num, other.den);
            lemma_u64_mul_fits(other.num, self.den);
        }
        (self.num as u128) * (other.den as u128) < (other.num as u128) * (self.den as u128)
    }

    /// Whether `self` and `other` denote the same rational number.
    pub fn eqv(&self, other: &Prob) -> (r: bool)
        requires
            self.wf(),
            other.wf(),
        ensures
            r == frac_eqv(self@, other@),
    {
        proof {
            lemma_u64_mul_fits(self.num, other.den);
            lemma_u64_mul_fits(other.num, self.den);
        }
        (self.num as u128) * (other.den as u128) == (other.num as u128) * (self.den as u128)
    }

    /// The independent-event union `self (1 - other) + other (1 - self)`,
    /// computed exactly and reduced; `None` exactly when the reduced
    /// denominator exceeds `u64::MAX`.
    pub fn combine(&self, other: &Prob) -> (r: Option<Prob>)
        requires
            self.wf(),
            other.wf(),
        ensures
            r is Some <==> combine_reduced_frac(self@, other@) is Some,
            r is Some ==> {
                &&& r->Some_0@ == combine_reduced_frac(self@, other@)->Some_0
                &&& r->Some_0.wf()
                &&& frac_eqv(r->Some_0@, combine_frac(self@, other@))
            },
    {
        let a: u128 = self.num as u128;
        let b: u128 = self.den as u128;
        let c: u128 = other.num as u128;
        let d: u128 = other.den as u128;
        proof {
            lemma_u64_mul_fits(self.den, other.den);
            assert((a * (d - c) + c * (b - a)) == (a * d + c * b - 2 * (a * c)) && (a * d + c * b
                - 2 * (a * c)) <= b * d) by (nonlinear_arith)
                requires
                    0 <= a <= b,
                    0 <= c <= d,
            ;
        }
        let n: u128 = a * (d - c) + c * (b - a);
        let dd: u128 = b * d;
        proof {
            assert(1 <= b * d) by (nonlinear_arith)
                requires
                    1 <= b,
                    1 <= d,
            ;
        }
        let g: u128 = gcd_u128(n, dd);
        proof {
            lemma_gcd_divides(n as nat, dd as nat);
            lemma_div_preserves_frac(n as int, dd as int, g as int);
        }
        let rn: u128 = n / g;
        let rd: u128 = dd / g;
        if rd <= u64::MAX as u128 {
            Some(Prob { num: rn as u64, den: rd as u64 })
        } else {
            None
        }
    }
}

/// The product of two 64-bit values fits in 128 bits.
pub proof fn lemma_u64_mul_fits(x: u64, y: u64)
    by (nonlinear_arith)
    ensures
        0 <= (x as int) * (y as int) <= u128::MAX as int,
{
}

/// Euclid's algorithm, matching the specification `gcd`.
fn gcd_u128(a: u128, b: u128) -> (g: u128)
    ensures
        g as nat == gcd(a as nat, b as nat),
{
    let mut x: u128 = a;
    let mut y: u128 = b;
    while y != 0
        invariant
            gcd(x as nat, y as nat) == gcd(a as nat, b as nat),
        decreases y,
    {
        let r: u128 = x % y;
        x = y;
        y = r;
    }
    x
}

/// The greatest common divisor of `a` and a positive `b` is positive and
/// divides both.
pub proof fn lemma_gcd_divides(a: nat, b: nat)
    requires
        0 < b,
    ensures
        1 <= gcd(a, b) <= b,
        a % gcd(a, b) == 0,
        b % gcd(a, b) == 0,
    decreases b,
{
    let g = gcd(a, b);
    if a % b == 0 {
        assert(gcd(b, (a % b) as nat) == gcd(b, 0));
        assert(g == b);
        vstd::arithmetic::div_mod::lemma_mod_self_0(b as int);
    } else {
        lemma_gcd_divides(b, a % b);
        assert(g == gcd(b, a % b));
        assert(b % g == 0 && (a % b) % g == 0);
        vstd::arithmetic::div_mod::lemma_fundamental_div_mod(a as int, b as int);
        let q = a as int / b as int;
        let k1 = b as int / g as int;
        let k2 = (a % b) as int / g as int;
        vstd::arithmetic::div_mod::lemma_fundamental_div_mod(b as int, g as int);
        vstd::arithmetic::div_mod::lemma_fundamental_div_mod((a % b) as int, g as int);
        assert(a as int == g as int * (k1 * q + k2)) by (nonlinear_arith)
            requires
                a as int == b as int * q + (a % b) as int,
                b as int == g as int * k1,
                (a % b) as int == g as int * k2,
        ;
        vstd::arithmetic::div_mod::lemma_mod_multiples_basic(k1 * q + k2, g as int);
        assert((g as int * (k1 * q + k2)) % (g as int) == 0);
    }
}

/// Dividing numerator and denominator by a common positive divisor keeps the
/// fraction's value, keeps the denominator positive, and keeps the order of
/// numerator and denominator.
pub proof fn lemma_div_preserves_frac(n: int, d: int, g: int)
    requires
        0 <= n <= d,
        1 <= g <= d,
        n % g == 0,
        d % g == 0,
    ensures
        frac_eqv((n / g, d / g), (n, d)),
        1 <= d / g,
        0 <= n / g <= d / g,
        n / g <= n,
        d / g <= d,
{
    vstd::arithmetic::div_mod::lemma_fundamental_div_mod(n, g);
    vstd::arithmetic::div_mod::lemma_fundamental_div_mod(d, g);
    let rn = n / g;
    let rd = d / g;
    assert(n == g * rn && d == g * rd);
    assert(rn >= 0 && rd >= 1) by (nonlinear_arith)
        requires
            n == g * rn,
            d == g * rd,
            0 <= n,
            1 <= d,
            1 <= g,
    ;
    assert(rn <= rd) by (nonlinear_arith)
        requires
            n == g * rn,
            d == g * rd,
            n <= d,
            1 <= g,
    ;
    assert(rn <= n && rd <= d) by (nonlinear_arith)
        requires
            n == g * rn,
            d == g * rd,
            0 <= rn,
            1 <= rd,
            1 <= g,
    ;
    assert(rn * d == n * rd) by (nonlinear_arith)
        requires
            n == g * rn,
            d == g * rd,
    ;
}

/// The union rule is commutative: combining `p` with `q` gives the very same
/// fraction as combining `q` with `p`.
pub proof fn lemma_combine_commutative(p: (int, int), q: (int, int))
    by (nonlinear_arith)
    ensures
        combine_frac(p, q) == combine_frac(q, p),
{
}

/// The union rule is associative: the two ways of combining three
/// probabilities give the very same fraction.
#[verifier::rlimit(50)]
pub proof fn lemma_combine_associative(p: (int, int), q: (int, int), r: (int, int))
    ensures
        combine_frac(combine_frac(p, q), r) == combine_frac(p, combine_frac(q, r)),
{
    let a = p.0;
    let b = p.1;
    let c = q.0;
    let d = q.1;
    let e = r.0;
    let f = r.1;
    let n1 = a * d + c * b - 2 * (a * c);
    let n2 = c * f + e * d - 2 * (c * e);
    assert(n1 * f == (a * d) * f + (c * b) * f - 2 * ((a * c) * f)) by (nonlinear_arith)
        requires
            n1 == a * d + c * b - 2 * (a * c),
    ;
    assert(n1 * e == (a * d) * e + (c * b) * e - 2 * ((a * c) * e)) by (nonlinear_arith)
        requires
            n1 == a * d + c * b - 2 * (a * c),
    ;
    assert(n2 * b == (c * f) * b + (e * d) * b - 2 * ((c * e) * b)) by (nonlinear_arith)
        requires
            n2 == c * f + e * d - 2 * (c * e),
    ;
    assert(a * n2 == a * (c * f) + a * (e * d) - 2 * (a * (c * e))) by (nonlinear_arith)
        requires
            n2 == c * f + e * d - 2 * (c * e),
    ;
    assert((a * d) * f == a * (d * f)) by (nonlinear_arith);
    assert((c * b) * f == (c * f) * b) by (nonlinear_arith);
    assert((a * c) * f == a * (c * f)) by (nonlinear_arith);
    assert(e * (b * d) == (e * d) * b) by (nonlinear_arith);
    assert((a * d) * e == a * (e * d)) by (nonlinear_arith);
    assert((c * b) * e == (c * e) * b) by (nonlinear_arith);
    assert((a * c) * e == a * (c * e)) by (nonlinear_arith);
    assert((b * d) * f == b * (d * f)) by (nonlinear_arith);
    assert(n1 * f + e * (b * d) - 2 * (n1 * e) == a * (d * f) + n2 * b - 2 * (a * n2));
}

/// The union rule respects rational equality: combining equal values gives
/// equal values, whatever representatives are used.
pub proof fn lemma_combine_respects_eqv(p1: (int, int), p2: (int, int), q1: (int, int), q2: (
    int,
    int,
))
    requires
        frac_wf(p1),
        frac_wf(p2),
        frac_wf(q1),
        frac_wf(q2),
        frac_eqv(p1, p2),
        frac_eqv(q1, q2),
    ensures
        frac_eqv(combine_frac(p1, q1), combine_frac(p2, q2)),
{
    lemma_combine_respects_eqv_left(p1, p2, q1);
    lemma_combine_respects_eqv_left(q1, q2, p2);
    lemma_combine_commutative(p2, q1);
    lemma_combine_commutative(q2, p2);
    lemma_combine_wf(p1, q1);
    lemma_combine_wf(p2, q1);
    lemma_combine_wf(p2, q2);
    lemma_frac_eqv_transitive(
        combine_frac(p1, q1),
        combine_frac(p2, q1),
        combine_frac(p2, q2),
    );
}

/// The union rule respects rational equality in its first argument.
proof fn lemma_combine_respects_eqv_left(p1: (int, int), p2: (int, int), q: (int, int))
    requires
        frac_wf(p1),
        frac_wf(p2),
        frac_wf(q),
        frac_eqv(p1, p2),
    ensures
        frac_eqv(combine_frac(p1, q), combine_frac(p2, q)),
{
    let a1 = p1.0;
    let b1 = p1.1;
    let a2 = p2.0;
    let b2 = p2.1;
    let c = q.0;
    let d = q.1;
    let x = a1 * d + c * b1 - 2 * (a1 * c);
    let y = a2 * d + c * b2 - 2 * (a2 * c);
    assert(x * b2 == (a1 * d) * b2 + (c * b1) * b2 - 2 * ((a1 * c) * b2)) by (nonlinear_arith)
        requires
            x == a1 * d + c * b1 - 2 * (a1 * c),
    ;
    assert(y * b1 == (a2 * d) * b1 + (c * b2) * b1 - 2 * ((a2 * c) * b1)) by (nonlinear_arith)
        requires
            y == a2 * d + c * b2 - 2 * (a2 * c),
    ;
    assert((a1 * d) * b2 == (a2 * d) * b1) by (nonlinear_arith)
        requires
            a1 * b2 == a2 * b1,
    ;
    assert((a1 * c) * b2 == (a2 * c) * b1) by (nonlinear_arith)
        requires
            a1 * b2 == a2 * b1,
    ;
    assert((c * b1) * b2 == (c * b2) * b1) by (nonlinear_arith);
    assert(x * b2 == y * b1);
    assert(x * (b2 * d) == (x * b2) * d) by (nonlinear_arith);
    assert(y * (b1 * d) == (y * b1) * d) by (nonlinear_arith);
    assert(x * (b2 * d) == y * (b1 * d));
}

/// Rational equality is transitive for well-formed fractions.
pub proof fn lemma_frac_eqv_transitive(p: (int, int), q: (int, int), r: (int, int))
    requires
        frac_wf(p),
        frac_wf(q),
        frac_wf(r),
        frac_eqv(p, q),
        frac_eqv(q, r),
    ensures
        frac_eqv(p, r),
{
    assert(p.0 * r.1 == r.0 * p.1) by (nonlinear_arith)
        requires
            p.0 * q.1 == q.0 * p.1,
            q.0 * r.1 == r.0 * q.1,
            0 < q.1,
    ;
}

/// The union of two well-formed probabilities is a well-formed probability.
pub proof fn lemma_combine_wf(p: (int, int), q: (int, int))
    by (nonlinear_arith)
    requires
        frac_wf(p),
        frac_wf(q),
    ensures
        frac_wf(combine_frac(p, q)),
{
}


/// Strict order of probabilities is transitive.
pub proof fn lemma_frac_lt_transitive(p: (int, int), q: (int, int), r: (int, int))
    requires
        frac_wf(p),
        frac_wf(q),
        frac_wf(r),
        frac_lt(p, q),
        frac_lt(q, r),
    ensures
        frac_lt(p, r),
{
    assert(p.0 * r.1 < r.0 * p.1) by (nonlinear_arith)
        requires
            p.0 * q.1 < q.0 * p.1,
            q.0 * r.1 < r.0 * q.1,
            0 < p.1,
            0 < q.1,
            0 < r.1,
            0 <= p.0,
            0 <= q.0,
            0 <= r.0,
    ;
}

/// A probability no larger than one strictly below a third is itself
/// strictly below it.
pub proof fn lemma_frac_le_lt_transitive(p: (int, int), q: (int, int), r: (int, int))
    requires
        frac_wf(p),
        frac_wf(q),
        frac_wf(r),
        frac_le(p, q),
        frac_lt(q, r),
    ensures
        frac_lt(p, r),
{
    assert(p.0 * r.1 < r.0 * p.1) by (nonlinear_arith)
        requires
            p.0 * q.1 <= q.0 * p.1,
            q.0 * r.1 < r.0 * q.1,
            0 < p.1,
            0 < q.1,
            0 < r.1,
            0 <= p.0,
            0 <= q.0,
            0 <= r.0,
    ;
}

/// Folding three probabilities with the union rule gives the very same
/// fraction in every one of the six candidate orders.
pub proof fn lemma_combine_three_any_order(p: (int, int), q: (int, int), r: (int, int))
    ensures
        combine_frac(combine_frac(q, p), r) == combine_frac(combine_frac(p, q), r),
        combine_frac(combine_frac(q, r), p) == combine_frac(combine_frac(p, q), r),
        combine_frac(combine_frac(r, q), p) == combine_frac(combine_frac(p, q), r),
        combine_frac(combine_frac(r, p), q) == combine_frac(combine_frac(p, q), r),
        combine_frac(combine_frac(p, r), q) == combine_frac(combine_frac(p, q), r),
{
    lemma_combine_commutative(p, q);
    lemma_combine_commutative(q, r);
    lemma_combine_commutative(r, p);
    lemma_combine_associative(p, q, r);
    lemma_combine_associative(p, r, q);
    lemma_combine_commutative(combine_frac(q, r), p);
    lemma_combine_commutative(combine_frac(r, q), p);
    lemma_combine_commutative(combine_frac(p, r), q);
    lemma_combine_commutative(combine_frac(r, p), q);
}

} // verus!
