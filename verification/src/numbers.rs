use vstd::arithmetic::div_mod::{
    lemma_fundamental_div_mod, lemma_fundamental_div_mod_converse_div, lemma_mod_multiples_basic,
    lemma_mod_pos_bound, lemma_truncate_middle,
};
use vstd::prelude::*;

verus! {

/// The greatest common divisor of `a` and `b`, by the division of Euclid;
/// that of zero and a number is the number.
pub open spec fn gcd(a: nat, b: nat) -> nat
    decreases b,
{
    if b == 0 {
        a
    } else {
        gcd(b, (a % b) as nat)
    }
}

/// The common multiple of `a` and `b` that the greatest common divisor
/// gives: `a` without what it shares with `b`, times `b`.
pub open spec fn lcm(a: nat, b: nat) -> nat {
    (a / gcd(a, b)) * b
}

/// A number that `d` divides is `d` times its quotient by `d`.
pub proof fn lemma_exact_division(n: nat, d: nat)
    requires
        d > 0,
        n % d == 0,
    ensures
        n == d * (n / d),
        n == (n / d) * d,
{
    lemma_fundamental_div_mod(n as int, d as int);
    assert(d * (n / d) == (n / d) * d) by (nonlinear_arith);
}

/// `d` divides every multiple of itself, and the quotient is the factor.
pub proof fn lemma_multiple(k: nat, d: nat)
    requires
        d > 0,
    ensures
        (k * d) % d == 0,
        (d * k) % d == 0,
        (k * d) / d == k,
{
    lemma_mod_multiples_basic(k as int, d as int);
    assert(k * d == d * k) by (nonlinear_arith);
    lemma_fundamental_div_mod_converse_div((k * d) as int, d as int, k as int, 0);
}

/// What divides a divisor of a number divides the number.
pub proof fn lemma_divides_transitive(a: nat, b: nat, c: nat)
    requires
        a > 0,
        b > 0,
        b % a == 0,
        c % b == 0,
    ensures
        c % a == 0,
{
    lemma_exact_division(b, a);
    lemma_exact_division(c, b);
    let k = (c / b) * (b / a);
    assert(c == k * a) by (nonlinear_arith)
        requires
            c == (c / b) * b,
            b == (b / a) * a,
            k == (c / b) * (b / a),
    ;
    lemma_multiple(k, a);
}

/// The greatest common divisor of two numbers that are not both zero is
/// positive and divides both.
pub proof fn lemma_gcd_divides(a: nat, b: nat)
    requires
        a > 0 || b > 0,
    ensures
        gcd(a, b) > 0,
        a % gcd(a, b) == 0,
        b % gcd(a, b) == 0,
    decreases b,
{
    if b == 0 {
        lemma_multiple(1, a);
        lemma_multiple(0, a);
        assert(1 * a == a && 0 * a == 0) by (nonlinear_arith);
    } else {
        lemma_mod_pos_bound(a as int, b as int);
        let r = (a % b) as nat;
        lemma_gcd_divides(b, r);
        let g = gcd(b, r);
        lemma_fundamental_div_mod(a as int, b as int);
        lemma_exact_division(b, g);
        lemma_exact_division(r, g);
        let k = (b / g) * (a / b) + r / g;
        assert(a == k * g) by (nonlinear_arith)
            requires
                a == b * (a / b) + r,
                b == (b / g) * g,
                r == (r / g) * g,
                k == (b / g) * (a / b) + r / g,
        ;
        lemma_multiple(k, g);
    }
}

/// The common multiple of two positive numbers is positive, no less than
/// either, and a multiple of both.
pub proof fn lemma_lcm(a: nat, b: nat)
    requires
        a > 0,
        b > 0,
    ensures
        lcm(a, b) > 0,
        lcm(a, b) >= a,
        lcm(a, b) >= b,
        lcm(a, b) % a == 0,
        lcm(a, b) % b == 0,
{
    lemma_gcd_divides(a, b);
    let g = gcd(a, b);
    lemma_exact_division(a, g);
    lemma_exact_division(b, g);
    let x = a / g;
    let y = b / g;
    assert(x >= 1 && y >= 1) by (nonlinear_arith)
        requires
            a == x * g,
            b == y * g,
            a > 0,
            b > 0,
            g > 0,
    ;
    assert(x * b == y * a && x * b >= b && y * a >= a && x * b > 0) by (nonlinear_arith)
        requires
            a == x * g,
            b == y * g,
            x >= 1,
            y >= 1,
            a > 0,
            b > 0,
    ;
    lemma_multiple(x, b);
    lemma_multiple(y, a);
}

/// The common multiple of a positive number and one is the number.
pub proof fn lemma_lcm_with_one(a: nat)
    requires
        a > 0,
    ensures
        lcm(a, 1) == a,
{
    lemma_gcd_divides(a, 1);
    let g = gcd(a, 1);
    lemma_exact_division(1, g);
    assert(g == 1) by (nonlinear_arith)
        requires
            1 == g * (1nat / g),
            g > 0,
    ;
}

/// What divides two numbers divides their greatest common divisor.
pub proof fn lemma_gcd_greatest(a: nat, b: nat, d: nat)
    requires
        d > 0,
        a % d == 0,
        b % d == 0,
    ensures
        gcd(a, b) % d == 0,
    decreases b,
{
    if b != 0 {
        lemma_mod_pos_bound(a as int, b as int);
        let r = (a % b) as nat;
        lemma_fundamental_div_mod(a as int, b as int);
        lemma_exact_division(a, d);
        lemma_exact_division(b, d);
        let q = a / b;
        let k = a / d - (b / d) * q;
        assert(r == k * d && k >= 0) by (nonlinear_arith)
            requires
                a == b * q + r,
                a == (a / d) * d,
                b == (b / d) * d,
                k == a / d - (b / d) * q,
                r >= 0,
                d > 0,
        ;
        lemma_multiple(k as nat, d);
        lemma_gcd_greatest(b, r, d);
    }
}

/// The greatest common divisor of the multiples of two numbers by one
/// factor is that multiple of theirs.
pub proof fn lemma_gcd_scales(a: nat, b: nat, k: nat)
    requires
        k > 0,
    ensures
        gcd(k * a, k * b) == k * gcd(a, b),
    decreases b,
{
    if b == 0 {
        assert(k * b == 0) by (nonlinear_arith)
            requires
                b == 0,
        ;
    } else {
        lemma_mod_pos_bound(a as int, b as int);
        lemma_truncate_middle(a as int, k as int, b as int);
        let r = (a % b) as nat;
        assert(k * b > 0) by (nonlinear_arith)
            requires
                k > 0,
                b > 0,
        ;
        assert(((k * a) % (k * b)) as nat == k * r);
        lemma_gcd_scales(b, r, k);
    }
}

/// Every common multiple of two positive numbers is a multiple of the
/// common multiple that their greatest common divisor gives: that one is
/// the least.
pub proof fn lemma_lcm_least(a: nat, b: nat, m: nat)
    requires
        a > 0,
        b > 0,
        m > 0,
        m % a == 0,
        m % b == 0,
    ensures
        m % lcm(a, b) == 0,
{
    lemma_gcd_divides(a, b);
    lemma_lcm(a, b);
    let g = gcd(a, b);
    let l = lcm(a, b);
    lemma_exact_division(a, g);
    lemma_exact_division(m, a);
    lemma_exact_division(m, b);
    let product = a * b;
    assert(product > 0 && product == l * g) by (nonlinear_arith)
        requires
            product == a * b,
            a == (a / g) * g,
            l == (a / g) * b,
            a > 0,
            b > 0,
    ;
    // the product divides both m * a and m * b
    assert(m * a == (m / b) * product && m * b == (m / a) * product) by (nonlinear_arith)
        requires
            m == (m / a) * a,
            m == (m / b) * b,
            product == a * b,
    ;
    lemma_multiple(m / b, product);
    lemma_multiple(m / a, product);
    lemma_gcd_greatest(m * a, m * b, product);
    lemma_gcd_scales(a, b, m);
    // so it divides m * g, and the least common multiple divides m
    lemma_exact_division(m * g, product);
    let k = (m * g) / product;
    assert(m == k * l) by (nonlinear_arith)
        requires
            m * g == product * k,
            product == l * g,
            g > 0,
    ;
    lemma_multiple(k, l);
}

/// Two positive numbers that divide each other are one number.
pub proof fn lemma_divide_each_other(a: nat, b: nat)
    requires
        a > 0,
        b > 0,
        a % b == 0,
        b % a == 0,
    ensures
        a == b,
{
    lemma_exact_division(a, b);
    lemma_exact_division(b, a);
    assert(a == b) by (nonlinear_arith)
        requires
            a == (a / b) * b,
            b == (b / a) * a,
            a > 0,
            b > 0,
            a / b >= 0,
            b / a >= 0,
    ;
}

/// The common multiple of three positive numbers does not depend on which
/// of them is taken in last.
pub proof fn lemma_lcm_either_order(a: nat, b: nat, c: nat)
    requires
        a > 0,
        b > 0,
        c > 0,
    ensures
        lcm(lcm(a, b), c) == lcm(lcm(a, c), b),
{
    lemma_lcm(a, b);
    lemma_lcm(a, c);
    let ab = lcm(a, b);
    let ac = lcm(a, c);
    lemma_lcm(ab, c);
    lemma_lcm(ac, b);
    let x = lcm(ab, c);
    let y = lcm(ac, b);
    // x is a common multiple of a, b and c, and so is y
    lemma_divides_transitive(a, ab, x);
    lemma_divides_transitive(b, ab, x);
    lemma_divides_transitive(a, ac, y);
    lemma_divides_transitive(c, ac, y);
    lemma_lcm_least(a, c, x);
    lemma_lcm_least(ac, b, x);
    lemma_lcm_least(a, b, y);
    lemma_lcm_least(ab, c, y);
    lemma_divide_each_other(x, y);
}

/// The greatest common divisor of `a` and `b`.
pub fn greatest_common_divisor(a: u128, b: u128) -> (g: u128)
    ensures
        g == gcd(a as nat, b as nat),
{
    let mut x = a;
    let mut y = b;
    while y != 0
        invariant
            gcd(x as nat, y as nat) == gcd(a as nat, b as nat),
        decreases y,
    {
        let r = x % y;
        x = y;
        y = r;
    }
    x
}

/// The common multiple of two positive numbers, where it fits the machine.
pub fn checked_lcm(a: u128, b: u128) -> (multiple: Option<u128>)
    requires
        a > 0,
        b > 0,
    ensures
        match multiple {
            Some(m) => m == lcm(a as nat, b as nat),
            None => lcm(a as nat, b as nat) > u128::MAX,
        },
{
    proof {
        lemma_gcd_divides(a as nat, b as nat);
    }
    let g = greatest_common_divisor(a, b);
    (a / g).checked_mul(b)
}

} // verus!
