use vstd::arithmetic::div_mod::{
    lemma_fundamental_div_mod, lemma_mod_bound, lemma_mod_multiples_basic,
    lemma_mod_multiples_vanish, lemma_mod_self_0, lemma_mul_mod_noop_general, lemma_small_mod,
};
use vstd::prelude::*;

verus! {

/// The greatest common divisor, by the Euclidean recurrence.
pub open spec fn gcd(a: nat, b: nat) -> nat
    decreases b,
{
    if b == 0 {
        a
    } else {
        gcd(b, a % b)
    }
}

/// `gcd(a, 0) == a` and `gcd(0, b) == b`.
pub proof fn lemma_gcd_zero(a: nat, b: nat)
    ensures
        gcd(a, 0) == a,
        gcd(0, b) == b,
{
    if b != 0 {
        assert(gcd(0, b) == gcd(b, 0));
    }
}

/// Primality of a machine integer: at least 2, with no divisor strictly
/// between 1 and itself.
pub open spec fn spec_is_prime(n: u64) -> bool {
    n >= 2 && forall|d: int| 2 <= d < n ==> #[trigger] (n as int % d) != 0
}

/// One is coprime to everything.
pub proof fn lemma_gcd_one(b: nat)
    ensures
        gcd(1, b) == 1,
{
    if b == 0 {
    } else if b == 1 {
        lemma_mod_self_0(1);
        assert(gcd(1, b) == gcd(1, 0));
    } else {
        lemma_small_mod(1, b);
        lemma_mod_multiples_basic(b as int, 1);
        assert(b as int * 1 == b as int);
        assert(b % 1 == 0);
        assert(gcd(1, b) == gcd(b, 1));
        assert(gcd(b, 1) == gcd(1, 0));
    }
}

/// The gcd divides both of its arguments, and is positive unless both
/// arguments are zero.
pub proof fn lemma_gcd_divides(a: nat, b: nat)
    requires
        a >= 1 || b >= 1,
    ensures
        gcd(a, b) >= 1,
        a as int % (gcd(a, b) as int) == 0,
        b as int % (gcd(a, b) as int) == 0,
    decreases b,
{
    if b == 0 {
        lemma_mod_self_0(a as int);
        lemma_small_mod(0, a);
    } else {
        lemma_mod_bound(a as int, b as int);
        lemma_gcd_divides(b, a % b);
        let g = gcd(b, a % b) as int;
        lemma_fundamental_div_mod(a as int, b as int);
        lemma_fundamental_div_mod(b as int, g);
        lemma_fundamental_div_mod((a % b) as int, g);
        let k = (a as int / b as int) * (b as int / g) + ((a % b) as int / g);
        assert(a as int == k * g) by (nonlinear_arith)
            requires
                a as int == (b as int) * (a as int / b as int) + (a % b) as int,
                b as int == g * (b as int / g),
                (a % b) as int == g * ((a % b) as int / g),
                k == (a as int / b as int) * (b as int / g) + ((a % b) as int / g);
        lemma_mod_multiples_basic(k, g);
    }
}

/// Any pair with an integer combination equal to one is coprime.
pub proof fn lemma_combo_one_coprime(a: nat, b: nat, x: int, y: int)
    requires
        a as int * x + b as int * y == 1,
    ensures
        gcd(a, b) == 1,
{
    if a == 0 && b == 0 {
        assert(false);
    }
    lemma_gcd_divides(a, b);
    let g = gcd(a, b) as int;
    lemma_fundamental_div_mod(a as int, g);
    lemma_fundamental_div_mod(b as int, g);
    let k = (a as int / g) * x + (b as int / g) * y;
    assert(1int == k * g) by (nonlinear_arith)
        requires
            a as int * x + b as int * y == 1,
            a as int == g * (a as int / g),
            b as int == g * (b as int / g),
            k == (a as int / g) * x + (b as int / g) * y;
    assert(g == 1) by (nonlinear_arith)
        requires
            1int == k * g,
            g >= 1;
}

/// Bezout coefficients: the gcd is an integer combination of its arguments.
pub proof fn lemma_bezout(a: nat, b: nat) -> (r: (int, int))
    ensures
        gcd(a, b) as int == a as int * r.0 + b as int * r.1,
    decreases b,
{
    if b == 0 {
        (1int, 0int)
    } else {
        lemma_mod_bound(a as int, b as int);
        let (x, y) = lemma_bezout(b, a % b);
        lemma_fundamental_div_mod(a as int, b as int);
        let r = (y, x - (a as int / b as int) * y);
        assert(gcd(a, b) as int == a as int * r.0 + b as int * r.1) by (nonlinear_arith)
            requires
                gcd(a, b) as int == b as int * x + (a % b) as int * y,
                a as int == (b as int) * (a as int / b as int) + (a % b) as int,
                r == (y, x - (a as int / b as int) * y);
        r
    }
}

/// Reducing the first argument modulo the second leaves the gcd unchanged.
pub proof fn lemma_gcd_mod_noop(a: nat, b: nat)
    requires
        b >= 1,
    ensures
        gcd(a % b, b) == gcd(a, b),
{
    lemma_mod_bound(a as int, b as int);
    lemma_small_mod(a % b, b);
    assert(gcd(a % b, b) == gcd(b, (a % b) % b));
    assert(gcd(a, b) == gcd(b, a % b));
}

/// A product of residues coprime to `p` is, after reduction, coprime to `p`.
pub proof fn lemma_coprime_mul(p: nat, x: nat, y: nat)
    requires
        p >= 1,
        gcd(x, p) == 1,
        gcd(y, p) == 1,
    ensures
        gcd((x * y) % p, p) == 1,
{
    let (x1, y1) = lemma_bezout(x, p);
    let (x2, y2) = lemma_bezout(y, p);
    let xi = x as int;
    let yi = y as int;
    let pi = p as int;
    let cx = x1 * x2;
    let cp = xi * (x1 * y2) + yi * (x2 * y1) + pi * (y1 * y2);
    let u = xi * x1;
    let v = pi * y1;
    let w = yi * x2;
    let z = pi * y2;
    assert(1int == (u + v) * (w + z)) by (nonlinear_arith)
        requires
            u + v == 1,
            w + z == 1;
    assert((u + v) * (w + z) == u * w + (u * z + (v * w + v * z))) by (nonlinear_arith);
    assert(u * w == (xi * yi) * cx) by (nonlinear_arith)
        requires
            u == xi * x1,
            w == yi * x2,
            cx == x1 * x2;
    assert(u * z == pi * (xi * (x1 * y2))) by (nonlinear_arith)
        requires
            u == xi * x1,
            z == pi * y2;
    assert(v * w == pi * (yi * (x2 * y1))) by (nonlinear_arith)
        requires
            v == pi * y1,
            w == yi * x2;
    assert(v * z == pi * (pi * (y1 * y2))) by (nonlinear_arith)
        requires
            v == pi * y1,
            z == pi * y2;
    assert(u * z + (v * w + v * z) == pi * cp) by (nonlinear_arith)
        requires
            u * z == pi * (xi * (x1 * y2)),
            v * w == pi * (yi * (x2 * y1)),
            v * z == pi * (pi * (y1 * y2)),
            cp == xi * (x1 * y2) + yi * (x2 * y1) + pi * (y1 * y2);
    assert((x * y) as int * cx + pi * cp == 1);
    lemma_combo_one_coprime(x * y, p, cx, cp);
    lemma_gcd_mod_noop(x * y, p);
}

/// Multiplication by a residue coprime to `p` is cancellable modulo `p`.
pub proof fn lemma_coprime_cancel(p: nat, c: nat, i: int, j: int)
    requires
        p >= 1,
        gcd(c, p) == 1,
        (c as int * i) % (p as int) == (c as int * j) % (p as int),
    ensures
        i % (p as int) == j % (p as int),
{
    let (x, y) = lemma_bezout(c, p);
    let pi = p as int;
    assert(i == pi * (y * i) + (c as int * i) * x) by (nonlinear_arith)
        requires
            c as int * x + pi * y == 1;
    assert(j == pi * (y * j) + (c as int * j) * x) by (nonlinear_arith)
        requires
            c as int * x + pi * y == 1;
    lemma_mod_multiples_vanish(y * i, (c as int * i) * x, pi);
    lemma_mod_multiples_vanish(y * j, (c as int * j) * x, pi);
    lemma_mul_mod_noop_general(c as int * i, x, pi);
    lemma_mul_mod_noop_general(c as int * j, x, pi);
}

/// Every residue strictly between zero and a prime is coprime to it.
pub proof fn lemma_prime_coprime(p: u64, i: u64)
    requires
        spec_is_prime(p),
        1 <= i < p,
    ensures
        gcd(i as nat, p as nat) == 1,
{
    lemma_gcd_divides(i as nat, p as nat);
    let g = gcd(i as nat, p as nat) as int;
    lemma_fundamental_div_mod(i as int, g);
    assert(g <= i) by (nonlinear_arith)
        requires
            i as int == g * (i as int / g) + (i as int % g),
            i as int % g == 0,
            g >= 1,
            i >= 1;
    if g >= 2 {
        assert(p as int % g == 0);
        assert(false);
    }
}

/// Relies on `num::Integer::gcd` for `u64`: it computes the greatest common
/// divisor of the two arguments (by Stein's algorithm), which is the value
/// the Euclidean recurrence `gcd` specifies.
#[verifier::external_body]
pub(crate) fn gcd_u64(a: u64, b: u64) -> (r: u64)
    ensures
        r as nat == gcd(a as nat, b as nat),
{
    num::Integer::gcd(&a, &b)
}

} // verus!
