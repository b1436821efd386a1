//! Exact fractions with reduction to lowest terms, comparison within a fixed
//! tolerance, and division that refuses divisors too close to zero.
use crate::gcd::{gcd, gcd_u64, lemma_gcd_divides, lemma_gcd_quotients_coprime};
use vstd::arithmetic::div_mod::{lemma_fundamental_div_mod, lemma_fundamental_div_mod_converse};
use vstd::prelude::*;

verus! {

/// Two values are equal when they differ by less than one part in this many.
pub const TOLERANCE_INVERSE: i128 = 10000;

/// Why a fraction could not be formed.
#[derive(Clone, Copy, Debug, PartialEq, Eq, Structural)]
pub enum FractionError {
    /// The denominator is zero.
    InvalidFraction,
    /// The divisor is within the tolerance of zero.
    UndefinedDivision,
    /// The reduced result does not fit in 32-bit parts.
    Overflow,
}

/// A fraction `p / q` of 32-bit integers, with `q != 0`.
#[derive(Clone, Copy, Debug)]
pub struct Rational {
    p: i32,
    q: i32,
}

pub open spec fn abs(x: int) -> nat {
    if x < 0 {
        (-x) as nat
    } else {
        x as nat
    }
}

/// Numerator and denominator divided by their greatest common divisor.
pub open spec fn reduce_spec(p: int, q: int) -> (int, int) {
    let g = gcd(abs(p), abs(q)) as int;
    (p / g, q / g)
}

/// Whether both parts fit in a 32-bit fraction.
pub open spec fn fits(x: (int, int)) -> bool {
    i32::MIN <= x.0 <= i32::MAX && i32::MIN <= x.1 <= i32::MAX
}

/// `a.0 / a.1 - b.0 / b.1` is `cross(a, b) / (a.1 * b.1)`.
pub open spec fn cross(a: (int, int), b: (int, int)) -> int {
    a.0 * b.1 - b.0 * a.1
}

/// `|a - b| < 1/10000`, written without division.
pub open spec fn approx_eq(a: (int, int), b: (int, int)) -> bool {
    abs(cross(a, b)) * TOLERANCE_INVERSE < abs(a.1 * b.1)
}

/// `a > b` as exact values.
pub open spec fn exceeds(a: (int, int), b: (int, int)) -> bool {
    cross(a, b) * (a.1 * b.1) > 0
}

/// The tolerant order: equal within the tolerance, else by exact value.
pub open spec fn approx_cmp(a: (int, int), b: (int, int)) -> core::cmp::Ordering {
    if approx_eq(a, b) {
        core::cmp::Ordering::Equal
    } else if exceeds(a, b) {
        core::cmp::Ordering::Greater
    } else {
        core::cmp::Ordering::Less
    }
}

/// `|x| < 1/10000`.
pub open spec fn near_zero(x: (int, int)) -> bool {
    approx_eq(x, (0, 1))
}

pub open spec fn sum_spec(a: (int, int), b: (int, int)) -> (int, int) {
    reduce_spec(a.0 * b.1 + a.1 * b.0, a.1 * b.1)
}

pub open spec fn difference_spec(a: (int, int), b: (int, int)) -> (int, int) {
    reduce_spec(a.0 * b.1 - a.1 * b.0, a.1 * b.1)
}

pub open spec fn product_spec(a: (int, int), b: (int, int)) -> (int, int) {
    reduce_spec(a.0 * b.0, a.1 * b.1)
}

pub open spec fn quotient_spec(a: (int, int), b: (int, int)) -> (int, int) {
    reduce_spec(a.0 * b.1, a.1 * b.0)
}

/// Divides a numerator and denominator, each of magnitude below 2^64, by
/// their greatest common divisor.
fn reduce_wide(p: i128, q: i128) -> (r: (i128, i128))
    requires
        q != 0,
        -0x1_0000_0000_0000_0000 < p < 0x1_0000_0000_0000_0000,
        -0x1_0000_0000_0000_0000 < q < 0x1_0000_0000_0000_0000,
    ensures
        (r.0 as int, r.1 as int) == reduce_spec(p as int, q as int),
        p >= 0 ==> 0 <= r.0 <= p,
        p < 0 ==> p <= r.0 < 0,
        q > 0 ==> 0 < r.1 <= q,
        q < 0 ==> q <= r.1 < 0,
{
    let ap: u64 = if p < 0 { (-p) as u64 } else { p as u64 };
    let aq: u64 = if q < 0 { (-q) as u64 } else { q as u64 };
    let g: u64 = gcd_u64(ap, aq);
    proof {
        lemma_gcd_divides(ap as nat, aq as nat);
        lemma_fundamental_div_mod(ap as int, g as int);
        lemma_fundamental_div_mod(aq as int, g as int);
    }
    let np: u64 = ap / g;
    let nq: u64 = aq / g;
    let rp: i128 = if p < 0 { -(np as i128) } else { np as i128 };
    let rq: i128 = if q < 0 { -(nq as i128) } else { nq as i128 };
    proof {
        assert(rp * g == p) by (nonlinear_arith)
            requires
                ap as int == g * np,
                rp == (if p < 0 { -(np as int) } else { np as int }),
                ap as int == (if p < 0 { -(p as int) } else { p as int }),
        ;
        assert(rq * g == q) by (nonlinear_arith)
            requires
                aq as int == g * nq,
                rq == (if q < 0 { -(nq as int) } else { nq as int }),
                aq as int == (if q < 0 { -(q as int) } else { q as int }),
        ;
        lemma_fundamental_div_mod_converse(p as int, g as int, rp as int, 0);
        lemma_fundamental_div_mod_converse(q as int, g as int, rq as int, 0);
        assert(np <= ap && nq <= aq) by (nonlinear_arith)
            requires
                ap as int == g * np,
                aq as int == g * nq,
                g > 0,
        ;
        assert(nq != 0) by (nonlinear_arith)
            requires
                aq as int == g * nq,
                aq > 0,
        ;
        assert(ap > 0 ==> np > 0) by (nonlinear_arith)
            requires
                ap as int == g * np,
        ;
    }
    (rp, rq)
}

impl View for Rational {
    type V = (int, int);

    /// Numerator and denominator.
    closed spec fn view(&self) -> (int, int) {
        (self.p as int, self.q as int)
    }
}

/// The fraction of a reduced pair that fits, if it fits.
fn from_wide(r: (i128, i128)) -> (out: Option<Rational>)
    requires
        r.1 != 0,
    ensures
        out is Some <==> fits((r.0 as int, r.1 as int)),
        out matches Some(x) ==> x@ == (r.0 as int, r.1 as int),
{
    if i32::MIN as i128 <= r.0 && r.0 <= i32::MAX as i128 && i32::MIN as i128 <= r.1 && r.1
        <= i32::MAX as i128 {
        Some(Rational { p: r.0 as i32, q: r.1 as i32 })
    } else {
        None
    }
}

/// The product of two 32-bit integers, exact in 128 bits.
fn wide_mul(a: i32, b: i32) -> (r: i128)
    ensures
        r == a as int * b as int,
        -0x4000_0000_0000_0000 <= r <= 0x4000_0000_0000_0000,
{
    proof {
        assert(-0x4000_0000_0000_0000 <= a as int * b as int <= 0x4000_0000_0000_0000)
            by (nonlinear_arith)
            requires
                -0x8000_0000 <= a <= 0x7fff_ffff,
                -0x8000_0000 <= b <= 0x7fff_ffff,
        ;
    }
    a as i128 * b as i128
}

proof fn lemma_product_nonzero(a: int, b: int)
    requires
        a != 0,
        b != 0,
    ensures
        a * b != 0,
{
    assert(a * b != 0) by (nonlinear_arith)
        requires
            a != 0,
            b != 0,
    ;
}

impl Rational {
    #[verifier::type_invariant]
    spec fn denominator_nonzero(self) -> bool {
        self.q != 0
    }

    /// The fraction `p / q` as given, not reduced; a zero denominator is refused.
    pub fn new(p: i32, q: i32) -> (r: Result<Rational, FractionError>)
        ensures
            q == 0 <==> r == Err::<Rational, FractionError>(FractionError::InvalidFraction),
            q != 0 ==> r is Ok,
            r matches Ok(x) ==> x@ == (p as int, q as int),
    {
        if q == 0 {
            Err(FractionError::InvalidFraction)
        } else {
            Ok(Rational { p, q })
        }
    }

    /// The integer `value` as the fraction `value / 1`.
    pub fn from_integer(value: i32) -> (r: Rational)
        ensures
            r@ == (value as int, 1int),
    {
        Rational { p: value, q: 1 }
    }

    pub fn numerator(&self) -> (r: i32)
        ensures
            r == self@.0,
    {
        self.p
    }

    pub fn denominator(&self) -> (r: i32)
        ensures
            r == self@.1,
            r != 0,
    {
        proof {
            use_type_invariant(self);
        }
        self.q
    }

    /// Divides numerator and denominator by their greatest common divisor.
    pub fn simplify(&mut self)
        ensures
            final(self)@ == reduce_spec(old(self)@.0, old(self)@.1),
    {
        proof {
            use_type_invariant(&*self);
        }
        let r = reduce_wide(self.p as i128, self.q as i128);
        *self = Rational { p: r.0 as i32, q: r.1 as i32 };
    }

    /// `self + rhs` in lowest terms; `None` when that does not fit.
    pub fn checked_add(&self, rhs: &Rational) -> (r: Option<Rational>)
        ensures
            r is Some <==> fits(sum_spec(self@, rhs@)),
            r matches Some(x) ==> x@ == sum_spec(self@, rhs@),
    {
        proof {
            use_type_invariant(self);
            use_type_invariant(rhs);
            lemma_product_nonzero(self.q as int, rhs.q as int);
        }
        let p = wide_mul(self.p, rhs.q) + wide_mul(self.q, rhs.p);
        let q = wide_mul(self.q, rhs.q);
        from_wide(reduce_wide(p, q))
    }

    /// `self - rhs` in lowest terms; `None` when that does not fit.
    pub fn checked_sub(&self, rhs: &Rational) -> (r: Option<Rational>)
        ensures
            r is Some <==> fits(difference_spec(self@, rhs@)),
            r matches Some(x) ==> x@ == difference_spec(self@, rhs@),
    {
        proof {
            use_type_invariant(self);
            use_type_invariant(rhs);
            lemma_product_nonzero(self.q as int, rhs.q as int);
        }
        let p = wide_mul(self.p, rhs.q) - wide_mul(self.q, rhs.p);
        let q = wide_mul(self.q, rhs.q);
        from_wide(reduce_wide(p, q))
    }

    /// `self * rhs` in lowest terms; `None` when that does not fit.
    pub fn checked_mul(&self, rhs: &Rational) -> (r: Option<Rational>)
        ensures
            r is Some <==> fits(product_spec(self@, rhs@)),
            r matches Some(x) ==> x@ == product_spec(self@, rhs@),
    {
        proof {
            use_type_invariant(self);
            use_type_invariant(rhs);
            lemma_product_nonzero(self.q as int, rhs.q as int);
        }
        let p = wide_mul(self.p, rhs.p);
        let q = wide_mul(self.q, rhs.q);
        from_wide(reduce_wide(p, q))
    }

    /// `self / rhs` in lowest terms. A divisor within the tolerance of zero
    /// gives `UndefinedDivision`; a quotient that does not fit, `Overflow`.
    pub fn checked_div(&self, rhs: &Rational) -> (r: Result<Rational, FractionError>)
        ensures
            near_zero(rhs@) <==> r == Err::<Rational, FractionError>(
                FractionError::UndefinedDivision,
            ),
            !near_zero(rhs@) && !fits(quotient_spec(self@, rhs@)) <==> r == Err::<
                Rational,
                FractionError,
            >(FractionError::Overflow),
            r matches Ok(x) ==> x@ == quotient_spec(self@, rhs@),
            r is Ok || r == Err::<Rational, FractionError>(FractionError::UndefinedDivision) || r
                == Err::<Rational, FractionError>(FractionError::Overflow),
    {
        proof {
            use_type_invariant(self);
            use_type_invariant(rhs);
        }
        if rhs.is_near_zero() {
            return Err(FractionError::UndefinedDivision);
        }
        proof {
            lemma_product_nonzero(self.q as int, rhs.p as int);
        }
        let p = wide_mul(self.p, rhs.q);
        let q = wide_mul(self.q, rhs.p);
        match from_wide(reduce_wide(p, q)) {
            Some(x) => Ok(x),
            None => Err(FractionError::Overflow),
        }
    }

    /// Whether `|self| < 1/10000`.
    pub fn is_near_zero(&self) -> (r: bool)
        ensures
            r == near_zero(self@),
            !r ==> self@.0 != 0,
    {
        proof {
            use_type_invariant(self);
        }
        let zero = Rational { p: 0, q: 1 };
        self.approx_eq(&zero)
    }

    /// Whether `|self - other| < 1/10000`.
    pub fn approx_eq(&self, other: &Rational) -> (r: bool)
        ensures
            r == approx_eq(self@, other@),
    {
        let c = wide_mul(self.p, other.q) - wide_mul(other.p, self.q);
        let d = wide_mul(self.q, other.q);
        let ac = if c < 0 { -c } else { c };
        let ad = if d < 0 { -d } else { d };
        ac * TOLERANCE_INVERSE < ad
    }

    /// Whether `self > other` as exact values.
    pub fn exceeds(&self, other: &Rational) -> (r: bool)
        ensures
            r == exceeds(self@, other@),
    {
        let c = wide_mul(self.p, other.q) - wide_mul(other.p, self.q);
        let d = wide_mul(self.q, other.q);
        proof {
            assert((c * d > 0) == ((c > 0 && d > 0) || (c < 0 && d < 0))) by (nonlinear_arith);
        }
        (c > 0 && d > 0) || (c < 0 && d < 0)
    }

    /// Equal within the tolerance, else ordered by exact value.
    pub fn approx_cmp(&self, other: &Rational) -> (r: core::cmp::Ordering)
        ensures
            r == approx_cmp(self@, other@),
    {
        if self.approx_eq(other) {
            core::cmp::Ordering::Equal
        } else if self.exceeds(other) {
            core::cmp::Ordering::Greater
        } else {
            core::cmp::Ordering::Less
        }
    }
}

impl PartialEq for Rational {
    fn eq(&self, other: &Rational) -> (r: bool) {
        self.approx_eq(other)
    }
}

impl vstd::std_specs::cmp::PartialEqSpecImpl for Rational {
    open spec fn obeys_eq_spec() -> bool {
        true
    }

    open spec fn eq_spec(&self, other: &Rational) -> bool {
        approx_eq(self@, other@)
    }
}

impl PartialOrd for Rational {
    fn partial_cmp(&self, other: &Rational) -> (r: Option<core::cmp::Ordering>) {
        Some(self.approx_cmp(other))
    }
}

impl vstd::std_specs::cmp::PartialOrdSpecImpl for Rational {
    open spec fn obeys_partial_cmp_spec() -> bool {
        true
    }

    open spec fn partial_cmp_spec(&self, other: &Rational) -> Option<core::cmp::Ordering> {
        Some(approx_cmp(self@, other@))
    }
}

/// A reduced pair times the divisor gives back the pair, and no part grows.
pub proof fn lemma_reduce_parts(p: int, q: int)
    requires
        q != 0,
    ensures
        gcd(abs(p), abs(q)) > 0,
        p == reduce_spec(p, q).0 * gcd(abs(p), abs(q)),
        q == reduce_spec(p, q).1 * gcd(abs(p), abs(q)),
        abs(reduce_spec(p, q).0) <= abs(p),
        abs(reduce_spec(p, q).1) <= abs(q),
{
    let g = gcd(abs(p), abs(q));
    lemma_gcd_divides(abs(p), abs(q));
    lemma_exact_div(p, g);
    lemma_exact_div(q, g);
    let rp = p / g as int;
    let rq = q / g as int;
    assert(rp * g == p && rq * g == q) by (nonlinear_arith)
        requires
            p == g * rp,
            q == g * rq,
    ;
    lemma_fundamental_div_mod(abs(p) as int, g as int);
    lemma_fundamental_div_mod(abs(q) as int, g as int);
    assert(abs(p) == g * abs(rp) && abs(q) == g * abs(rq));
    assert(abs(rp) <= abs(p) && abs(rq) <= abs(q)) by (nonlinear_arith)
        requires
            abs(p) == g * abs(rp),
            abs(q) == g * abs(rq),
            g > 0,
    ;
}

/// Reduction keeps a fraction's place in the tolerant order, keeps its
/// denominator nonzero and does not grow its parts.
pub proof fn lemma_reduce_keeps_order(x: (int, int), y: (int, int))
    requires
        x.1 != 0,
    ensures
        reduce_spec(x.0, x.1).1 != 0,
        approx_cmp(reduce_spec(x.0, x.1), y) == approx_cmp(x, y),
        abs(reduce_spec(x.0, x.1).0) <= abs(x.0),
        abs(reduce_spec(x.0, x.1).1) <= abs(x.1),
{
    lemma_reduce_parts(x.0, x.1);
    let r = reduce_spec(x.0, x.1);
    let g = gcd(abs(x.0), abs(x.1)) as int;
    assert(r.1 != 0) by (nonlinear_arith)
        requires
            x.1 == r.1 * g,
            x.1 != 0,
    ;
    lemma_approx_cmp_scale(r, g, y);
    assert((r.0 * g, r.1 * g) == x);
}

/// A fraction with a nonzero denominator, in lowest terms.
pub open spec fn canonical(x: (int, int)) -> bool {
    x.1 != 0 && reduce_spec(x.0, x.1) == x
}

/// What reduction gives is in lowest terms.
pub proof fn lemma_reduce_canonical(p: int, q: int)
    requires
        q != 0,
    ensures
        canonical(reduce_spec(p, q)),
{
    lemma_reduce_idempotent(p, q);
    lemma_reduce_keeps_order((p, q), (0, 1));
}

/// Zero over one and one over one are in lowest terms.
pub proof fn lemma_small_canonical()
    ensures
        canonical((0, 1)),
        canonical((1, 1)),
{
    lemma_reduce_zero(1);
    lemma_reduce_parts(0, 1);
    let g0 = gcd(abs(0), abs(1)) as int;
    let r0 = reduce_spec(0, 1);
    assert(r0.1 == 1) by (nonlinear_arith)
        requires
            1 == r0.1 * g0,
            g0 > 0,
            r0.1 == 1 || r0.1 == -1,
    ;
    lemma_reduce_parts(1, 1);
    let g1 = gcd(abs(1), abs(1)) as int;
    let r1 = reduce_spec(1, 1);
    assert(r1.0 == 1 && r1.1 == 1) by (nonlinear_arith)
        requires
            1 == r1.0 * g1,
            1 == r1.1 * g1,
            g1 > 0,
    ;
}

/// Sums, differences, products and quotients by a divisor away from zero are
/// in lowest terms.
pub proof fn lemma_ops_canonical(a: (int, int), b: (int, int))
    requires
        a.1 != 0,
        b.1 != 0,
    ensures
        canonical(sum_spec(a, b)),
        canonical(difference_spec(a, b)),
        canonical(product_spec(a, b)),
        !near_zero(b) ==> canonical(quotient_spec(a, b)),
{
    lemma_product_nonzero(a.1, b.1);
    lemma_reduce_canonical(a.0 * b.1 + a.1 * b.0, a.1 * b.1);
    lemma_reduce_canonical(a.0 * b.1 - a.1 * b.0, a.1 * b.1);
    lemma_reduce_canonical(a.0 * b.0, a.1 * b.1);
    if !near_zero(b) {
        assert(cross(b, (0, 1)) == b.0 && b.1 * 1 == b.1) by (nonlinear_arith);
        assert(b.0 != 0);
        lemma_product_nonzero(a.1, b.0);
        lemma_reduce_canonical(a.0 * b.1, a.1 * b.0);
    }
}

/// Zero over anything reduces to zero over one or minus one.
pub proof fn lemma_reduce_zero(q: int)
    requires
        q != 0,
    ensures
        reduce_spec(0, q).0 == 0,
        reduce_spec(0, q).1 == 1 || reduce_spec(0, q).1 == -1,
{
    let b = abs(q);
    assert(gcd(b, 0) == b);
    assert(0nat % b == 0) by (nonlinear_arith)
        requires
            b > 0,
    ;
    assert(gcd(0, b) == b);
    lemma_reduce_parts(0, q);
    let r = reduce_spec(0, q);
    assert(r.0 == 0) by (nonlinear_arith)
        requires
            0 == r.0 * b,
            b > 0,
    ;
    assert(r.1 == 1 || r.1 == -1) by (nonlinear_arith)
        requires
            q == r.1 * b,
            b == (if q < 0 { -q } else { q }),
            q != 0,
    ;
}

/// Scaling both parts of `x` by the same nonzero factor keeps its place in
/// the tolerant order.
pub proof fn lemma_approx_cmp_scale(x: (int, int), k: int, y: (int, int))
    requires
        k != 0,
    ensures
        approx_cmp((x.0 * k, x.1 * k), y) == approx_cmp(x, y),
{
    let xs = (x.0 * k, x.1 * k);
    let c = cross(x, y);
    let d = x.1 * y.1;
    assert(cross(xs, y) == k * c) by (nonlinear_arith)
        requires
            c == x.0 * y.1 - y.0 * x.1,
            cross(xs, y) == (x.0 * k) * y.1 - y.0 * (x.1 * k),
    ;
    assert(xs.1 * y.1 == k * d) by (nonlinear_arith)
        requires
            d == x.1 * y.1,
            xs.1 == x.1 * k,
    ;
    assert(abs(k * c) == abs(k) * abs(c) && abs(k * d) == abs(k) * abs(d)) by (nonlinear_arith)
    {
    }
    assert((abs(k) * abs(c) * TOLERANCE_INVERSE < abs(k) * abs(d)) == (abs(c) * TOLERANCE_INVERSE
        < abs(d))) by (nonlinear_arith)
        requires
            abs(k) > 0,
    ;
    assert(((k * c) * (k * d) > 0) == (c * d > 0)) by (nonlinear_arith)
        requires
            k != 0,
    ;
}

/// Division by a divisor of the magnitude is exact and keeps the sign.
proof fn lemma_exact_div(x: int, g: nat)
    requires
        g > 0,
        abs(x) % g == 0,
    ensures
        x == g * (x / g as int),
        abs(x / g as int) == abs(x) / g,
{
    lemma_fundamental_div_mod(abs(x) as int, g as int);
    let k = abs(x) / g;
    if x >= 0 {
        assert(x == k * g) by (nonlinear_arith)
            requires
                abs(x) == g * k,
                abs(x) == x,
        ;
        lemma_fundamental_div_mod_converse(x, g as int, k as int, 0);
    } else {
        assert(x == -k * g) by (nonlinear_arith)
            requires
                abs(x) == g * k,
                x < 0,
                abs(x) == -x,
        ;
        lemma_fundamental_div_mod_converse(x, g as int, -k, 0);
    }
}

/// Reduction to lowest terms is idempotent.
pub proof fn lemma_reduce_idempotent(p: int, q: int)
    requires
        q != 0,
    ensures
        reduce_spec(reduce_spec(p, q).0, reduce_spec(p, q).1) == reduce_spec(p, q),
{
    let g = gcd(abs(p), abs(q));
    lemma_gcd_divides(abs(p), abs(q));
    lemma_gcd_quotients_coprime(abs(p), abs(q));
    lemma_exact_div(p, g);
    lemma_exact_div(q, g);
    let rp = p / g as int;
    let rq = q / g as int;
    assert(rp / 1 == rp && rq / 1 == rq);
}

} // verus!
