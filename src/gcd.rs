//! Greatest common divisors, in the mathematics and in executable code.
use vstd::arithmetic::div_mod::{
    lemma_fundamental_div_mod, lemma_fundamental_div_mod_converse, lemma_mod_pos_bound,
};
use vstd::arithmetic::mul::{lemma_mul_is_distributive_add, lemma_mul_strictly_positive};
use vstd::prelude::*;

verus! {

/// The greatest common divisor by Euclid's recurrence; `gcd(0, 0) == 0`.
pub open spec fn gcd(a: nat, b: nat) -> nat
    decreases b,
{
    if b == 0 {
        a
    } else {
        gcd(b, a % b)
    }
}

/// A divisor of both arguments, positive when one of them is.
pub proof fn lemma_gcd_divides(a: nat, b: nat)
    requires
        a > 0 || b > 0,
    ensures
        gcd(a, b) > 0,
        a % gcd(a, b) == 0,
        b % gcd(a, b) == 0,
    decreases b,
{
    if b > 0 {
        lemma_mod_pos_bound(a as int, b as int);
        let r = a % b;
        lemma_gcd_divides(b, r);
        let g = gcd(b, r);
        lemma_fundamental_div_mod(a as int, b as int);
        lemma_fundamental_div_mod(b as int, g as int);
        lemma_fundamental_div_mod(r as int, g as int);
        let kb = b as int / g as int;
        let kr = r as int / g as int;
        let m = a as int / b as int;
        assert(a as int == (m * kb + kr) * g) by (nonlinear_arith)
            requires
                a as int == m * b + r,
                b as int == g * kb,
                r as int == g * kr,
        ;
        lemma_fundamental_div_mod_converse(a as int, g as int, m * kb + kr, 0);
    }
}

/// Scaling both arguments scales the divisor.
pub proof fn lemma_gcd_scale(a: nat, b: nat, k: nat)
    requires
        k > 0,
    ensures
        gcd(k * a, k * b) == k * gcd(a, b),
    decreases b,
{
    if b == 0 {
        assert(k * b == 0) by (nonlinear_arith)
            requires
                b == 0,
        ;
    } else {
        lemma_mod_pos_bound(a as int, b as int);
        lemma_fundamental_div_mod(a as int, b as int);
        let m = a as int / b as int;
        let r = a % b;
        lemma_mul_strictly_positive(k as int, b as int);
        assert(k * a == m * (k * b) + k * r && 0 <= k * r < k * b) by (nonlinear_arith)
            requires
                a as int == m * b + r,
                0 <= r < b,
                k > 0,
        ;
        lemma_fundamental_div_mod_converse((k * a) as int, (k * b) as int, m, (k * r) as int);
        lemma_gcd_scale(b, r, k);
    }
}

/// Dividing both arguments by their divisor leaves nothing in common.
pub proof fn lemma_gcd_quotients_coprime(a: nat, b: nat)
    requires
        a > 0 || b > 0,
    ensures
        gcd(a / gcd(a, b), b / gcd(a, b)) == 1,
{
    lemma_gcd_divides(a, b);
    let g = gcd(a, b);
    lemma_fundamental_div_mod(a as int, g as int);
    lemma_fundamental_div_mod(b as int, g as int);
    let x = a / g;
    let y = b / g;
    lemma_gcd_scale(x, y, g);
    assert(g * x == a && g * y == b);
    assert(g * gcd(x, y) == g * 1);
    assert(gcd(x, y) == 1) by (nonlinear_arith)
        requires
            g * gcd(x, y) == g * 1,
            g > 0,
    ;
}

/// Euclid's algorithm on machine words.
pub fn gcd_u64(a: u64, b: u64) -> (g: u64)
    ensures
        g == gcd(a as nat, b as nat),
{
    let mut x: u64 = a;
    let mut y: u64 = b;
    while y != 0
        invariant
            gcd(x as nat, y as nat) == gcd(a as nat, b as nat),
        decreases y,
    {
        let r: u64 = x % y;
        x = y;
        y = r;
    }
    x
}

} // verus!
