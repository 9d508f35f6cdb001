//! Integer helpers used when computing the period of a spirograph curve.

use vstd::prelude::*;

verus! {

/// Greatest common divisor by Euclid's algorithm (`gcd(a, 0) == a`).
pub open spec fn spec_gcd(a: nat, b: nat) -> nat
    decreases b,
{
    if b == 0 {
        a
    } else {
        spec_gcd(b, a % b)
    }
}

/// Greatest common divisor of two `u64`s.
pub fn gcd_u64(a0: u64, b0: u64) -> (g: u64)
    ensures
        g == spec_gcd(a0 as nat, b0 as nat),
{
    let mut a = a0;
    let mut b = b0;
    while b != 0
        invariant
            spec_gcd(a as nat, b as nat) == spec_gcd(a0 as nat, b0 as nat),
        decreases b,
    {
        let t = b;
        b = a % b;
        a = t;
    }
    a
}


/// Least common multiple, computed as `a / gcd(a, b) * b`,
/// and 0 when either argument is 0.
pub open spec fn spec_lcm(a: nat, b: nat) -> nat {
    if a == 0 || b == 0 {
        0
    } else {
        ((a / spec_gcd(a, b)) * b) as nat
    }
}

/// Least common multiple of two `u64`s (0 when either is 0); the result
/// must fit in `u64`.
pub fn lcm_u64(a: u64, b: u64) -> (l: u64)
    requires
        spec_lcm(a as nat, b as nat) <= u64::MAX,
    ensures
        l == spec_lcm(a as nat, b as nat),
{
    if a == 0 || b == 0 {
        return 0;
    }
    let g = gcd_u64(a, b);
    proof {
        lemma_gcd_divides(a as nat, b as nat);
    }
    let q = a / g;
    proof {
        assert(q * b <= u64::MAX);
    }
    q * b
}

/// The greatest common divisor divides both arguments, and is positive
/// unless both are zero.
pub proof fn lemma_gcd_divides(a: nat, b: nat)
    ensures
        (a > 0 || b > 0) ==> spec_gcd(a, b) > 0,
        spec_gcd(a, b) > 0 ==> a % spec_gcd(a, b) == 0 && b % spec_gcd(a, b) == 0,
    decreases b,
{
    if b > 0 {
        let r = a % b;
        lemma_gcd_divides(b, r);
        let g = spec_gcd(b, r);
        assert(spec_gcd(a, b) == g);
        assert(g > 0);
        let kb = b / g;
        let kr = r / g;
        let q = a / b;
        vstd::arithmetic::div_mod::lemma_fundamental_div_mod(b as int, g as int);
        vstd::arithmetic::div_mod::lemma_fundamental_div_mod(r as int, g as int);
        vstd::arithmetic::div_mod::lemma_fundamental_div_mod(a as int, b as int);
        assert(a == g * (q * kb + kr)) by (nonlinear_arith)
            requires
                b == g * kb,
                r == g * kr,
                a == b * q + r,
        ;
        vstd::arithmetic::div_mod::lemma_mod_multiples_basic((q * kb + kr) as int, g as int);
        assert((q * kb + kr) * g == g * (q * kb + kr)) by (nonlinear_arith);
    }
}

/// The least common multiple of two positive numbers is a multiple of
/// both.
pub proof fn lemma_lcm_common_multiple(a: nat, b: nat)
    requires
        a > 0,
        b > 0,
    ensures
        spec_lcm(a, b) % a == 0,
        spec_lcm(a, b) % b == 0,
        spec_lcm(a, b) > 0,
{
    lemma_gcd_divides(a, b);
    let g = spec_gcd(a, b);
    let ka = a / g;
    let kb = b / g;
    vstd::arithmetic::div_mod::lemma_fundamental_div_mod(a as int, g as int);
    vstd::arithmetic::div_mod::lemma_fundamental_div_mod(b as int, g as int);
    assert(a == g * ka);
    assert(b == g * kb);
    assert(ka > 0) by (nonlinear_arith)
        requires a == g * ka, a > 0, g > 0, ka >= 0;
    assert(ka * b == a * kb) by (nonlinear_arith)
        requires a == g * ka, b == g * kb;
    assert(ka * b > 0) by (nonlinear_arith)
        requires ka > 0, b > 0;
    vstd::arithmetic::div_mod::lemma_mod_multiples_basic(ka as int, b as int);
    vstd::arithmetic::div_mod::lemma_mod_multiples_basic(kb as int, a as int);
    assert(ka * b == b * ka) by (nonlinear_arith);
    assert(a * kb == kb * a) by (nonlinear_arith);
}

} // verus!
