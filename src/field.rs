//! Arithmetic modulo a prime.
use vstd::arithmetic::div_mod::{
    lemma_fundamental_div_mod, lemma_mod_bound, lemma_mod_multiples_vanish, lemma_small_mod,
};
use vstd::prelude::*;

verus! {

/// `p` has no divisor strictly between 1 and itself.
pub open spec fn is_prime(p: int) -> bool {
    p > 1 && forall|d: int| 1 < d < p ==> #[trigger] (p % d) != 0
}

/// Greatest common divisor by Euclid's recursion.
pub open spec fn gcd(a: nat, b: nat) -> nat
    decreases b,
{
    if b == 0 {
        a
    } else {
        gcd(b, a % b)
    }
}

/// Congruence modulo `p`.
pub open spec fn cong(x: int, y: int, p: int) -> bool {
    x % p == y % p
}

/// The multiplicative inverse of `a` in `[0, p)`, where one exists.
pub open spec fn inv(a: int, p: int) -> int {
    choose|b: int| 0 <= b < p && #[trigger] ((a * b) % p) == 1
}

pub proof fn lemma_cong_of_multiple(x: int, y: int, k: int, p: int)
    requires
        p > 0,
        x - y == k * p,
    ensures
        cong(x, y, p),
{
    lemma_mod_multiples_vanish(k, y, p);
    assert(x == p * k + y) by (nonlinear_arith)
        requires
            x - y == k * p,
    ;
}

pub proof fn lemma_multiple_of_cong(x: int, y: int, p: int)
    requires
        p > 0,
        cong(x, y, p),
    ensures
        x - y == (x / p - y / p) * p,
{
    lemma_fundamental_div_mod(x, p);
    lemma_fundamental_div_mod(y, p);
    assert(x - y == (x / p - y / p) * p) by (nonlinear_arith)
        requires
            x == p * (x / p) + x % p,
            y == p * (y / p) + y % p,
            x % p == y % p,
    ;
}

pub proof fn lemma_cong_add(a: int, b: int, c: int, d: int, p: int)
    requires
        p > 0,
        cong(a, c, p),
        cong(b, d, p),
    ensures
        cong(a + b, c + d, p),
        cong(a - b, c - d, p),
{
    lemma_multiple_of_cong(a, c, p);
    lemma_multiple_of_cong(b, d, p);
    let k = a / p - c / p;
    let l = b / p - d / p;
    assert((a + b) - (c + d) == (k + l) * p) by (nonlinear_arith)
        requires
            a - c == k * p,
            b - d == l * p,
    ;
    assert((a - b) - (c - d) == (k - l) * p) by (nonlinear_arith)
        requires
            a - c == k * p,
            b - d == l * p,
    ;
    lemma_cong_of_multiple(a + b, c + d, k + l, p);
    lemma_cong_of_multiple(a - b, c - d, k - l, p);
}

pub proof fn lemma_cong_mul(a: int, b: int, c: int, d: int, p: int)
    requires
        p > 0,
        cong(a, c, p),
        cong(b, d, p),
    ensures
        cong(a * b, c * d, p),
{
    lemma_multiple_of_cong(a, c, p);
    lemma_multiple_of_cong(b, d, p);
    let k = a / p - c / p;
    let l = b / p - d / p;
    assert(a == c + k * p && b == d + l * p);
    let u = k * p;
    let v = l * p;
    assert((c + u) * (d + v) - c * d == u * d + c * v + u * v) by (nonlinear_arith);
    assert(u * d + c * v + u * v == (k * d + c * l + k * l * p) * p) by (nonlinear_arith)
        requires
            u == k * p,
            v == l * p,
    ;
    lemma_cong_of_multiple(a * b, c * d, k * d + c * l + k * l * p, p);
}

/// Reducing a value modulo `p` keeps its class.
pub proof fn lemma_cong_mod(a: int, p: int)
    requires
        p > 0,
    ensures
        cong(a % p, a, p),
        0 <= a % p < p,
{
    lemma_mod_bound(a, p);
    lemma_small_mod((a % p) as nat, p as nat);
}

pub proof fn lemma_gcd_divides(a: nat, b: nat)
    requires
        a > 0 || b > 0,
    ensures
        gcd(a, b) > 0,
        a % gcd(a, b) == 0,
        b % gcd(a, b) == 0,
    decreases b,
{
    if b == 0 {
        assert(a % a == 0) by {
            lemma_cong_of_multiple(a as int, 0, 1, a as int);
        }
    } else {
        lemma_gcd_divides(b, a % b);
        let g = gcd(b, a % b) as int;
        lemma_fundamental_div_mod(a as int, b as int);
        lemma_multiple_of_cong(b as int, 0, g);
        lemma_multiple_of_cong((a % b) as int, 0, g);
        let kb = b as int / g;
        let kr = (a % b) as int / g;
        assert(a - 0int == ((a as int / b as int) * kb + kr) * g) by (nonlinear_arith)
            requires
                a == b * (a as int / b as int) + a % b,
                b - 0int == (kb - 0int / g) * g,
                (a % b) - 0int == (kr - 0int / g) * g,
                0int / g == 0,
        ;
        lemma_cong_of_multiple(a as int, 0, (a as int / b as int) * kb + kr, g);
    }
}

/// A positive multiple of `g` is at least `g`.
proof fn lemma_divisor_le(a: int, g: int)
    requires
        a > 0,
        g > 0,
        a % g == 0,
    ensures
        g <= a,
{
    lemma_fundamental_div_mod(a, g);
    assert(g <= a) by (nonlinear_arith)
        requires
            a == g * (a / g) + 0,
            a > 0,
            g > 0,
    ;
}

pub proof fn lemma_prime_gcd(p: int, a: int)
    requires
        is_prime(p),
        0 < a < p,
    ensures
        gcd(p as nat, a as nat) == 1,
{
    lemma_gcd_divides(p as nat, a as nat);
    let g = gcd(p as nat, a as nat) as int;
    lemma_divisor_le(a, g);
    if g > 1 {
        assert(p % g != 0);
    }
}

/// One step of the extended Euclidean algorithm keeps the coefficient invariant.
pub proof fn lemma_euclid_step(r0: int, r1: int, s0: int, s1: int, q: int, a: int, p: int)
    requires
        p > 0,
        cong(r0, s0 * a, p),
        cong(r1, s1 * a, p),
    ensures
        cong(r0 - q * r1, (s0 - q * s1) * a, p),
{
    lemma_cong_mul(q, r1, q, s1 * a, p);
    lemma_cong_add(r0, q * r1, s0 * a, q * (s1 * a), p);
    assert((s0 - q * s1) * a == s0 * a - q * (s1 * a)) by (nonlinear_arith);
}

proof fn lemma_euclid_coeff(r0: nat, r1: nat, s0: int, s1: int, a: int, p: int) -> (s: int)
    requires
        p > 0,
        cong(r0 as int, s0 * a, p),
        cong(r1 as int, s1 * a, p),
    ensures
        cong(gcd(r0, r1) as int, s * a, p),
    decreases r1,
{
    if r1 == 0 {
        s0
    } else {
        let q = r0 as int / r1 as int;
        lemma_fundamental_div_mod(r0 as int, r1 as int);
        lemma_euclid_step(r0 as int, r1 as int, s0, s1, q, a, p);
        assert(r0 as int - q * r1 == (r0 % r1) as int) by (nonlinear_arith)
            requires
                r0 == r1 * q + r0 % r1,
        ;
        lemma_euclid_coeff(r1, r0 % r1, s1, s0 - q * s1, a, p)
    }
}

/// Every element that is not zero modulo a prime has an inverse.
pub proof fn lemma_inverse_exists(a: int, p: int)
    requires
        is_prime(p),
        a % p != 0,
    ensures
        0 <= inv(a, p) < p,
        (a * inv(a, p)) % p == 1,
{
    lemma_cong_mod(a, p);
    let r = a % p;
    lemma_prime_gcd(p, r);
    assert(cong(p, 0 * r, p)) by {
        lemma_cong_of_multiple(p, 0, 1, p);
    }
    assert(cong(r, 1 * r, p));
    let s = lemma_euclid_coeff(p as nat, r as nat, 0, 1, r, p);
    lemma_cong_mod(s, p);
    lemma_cong_mul(a, s % p, r, s, p);
    lemma_small_mod(1, p as nat);
    assert((a * (s % p)) % p == 1);
}

/// The inverse of an element is unique.
pub proof fn lemma_inverse_unique(a: int, b: int, p: int)
    requires
        is_prime(p),
        0 <= b < p,
        (a * b) % p == 1,
    ensures
        a % p != 0,
        inv(a, p) == b,
{
    if a % p == 0 {
        lemma_cong_mod(a, p);
        lemma_cong_mul(a, b, 0, b, p);
        lemma_small_mod(0, p as nat);
    }
    lemma_inverse_exists(a, p);
    let c = inv(a, p);
    // b == b * (a * c) == (a * b) * c == c, all modulo p
    lemma_cong_mod(a * c, p);
    lemma_small_mod(1, p as nat);
    lemma_cong_mul(b, a * c, b, 1, p);
    lemma_cong_mod(a * b, p);
    lemma_cong_mul(a * b, c, 1, c, p);
    assert(b * (a * c) == (a * b) * c) by (nonlinear_arith);
    lemma_small_mod(b as nat, p as nat);
    lemma_small_mod(c as nat, p as nat);
}

/// No two elements that are nonzero modulo a prime multiply to zero.
pub proof fn lemma_no_zero_divisors(a: int, b: int, p: int)
    requires
        is_prime(p),
        a % p != 0,
        b % p != 0,
    ensures
        (a * b) % p != 0,
{
    if (a * b) % p == 0 {
        lemma_inverse_exists(a, p);
        let c = inv(a, p);
        lemma_small_mod(0, p as nat);
        lemma_small_mod(1, p as nat);
        lemma_cong_mul(c, a * b, c, 0, p);
        lemma_cong_mul(a * c, b, 1, b, p);
        assert(c * (a * b) == (a * c) * b) by (nonlinear_arith);
        assert(c * 0 == 0);
    }
}

/// An inversion was asked of zero.
#[derive(Debug, Clone, Copy, PartialEq, Eq, Structural)]
pub enum FieldError {
    NonInvertible,
}

/// The integers modulo the prime `p`.
#[derive(Debug, Clone, Copy)]
pub struct Field {
    pub p: u64,
}

impl Field {
    /// The field is well formed when its modulus is prime.
    pub open spec fn wf(&self) -> bool {
        is_prime(self.p as int)
    }

    pub fn new(p: u64) -> (f: Field)
        requires
            is_prime(p as int),
        ensures
            f.p == p,
            f.wf(),
    {
        Field { p }
    }

    /// `(a + b) mod p`.
    pub fn add(&self, a: u64, b: u64) -> (r: u64)
        requires
            self.wf(),
            a < self.p,
            b < self.p,
        ensures
            r == (a + b) % (self.p as int),
            r < self.p,
    {
        let r = ((a as u128 + b as u128) % (self.p as u128)) as u64;
        r
    }

    /// `(a - b) mod p`, always in `[0, p)`.
    pub fn sub(&self, a: u64, b: u64) -> (r: u64)
        requires
            self.wf(),
            a < self.p,
            b < self.p,
        ensures
            r == (a - b) % (self.p as int),
            r < self.p,
    {
        let ghost p = self.p as int;
        proof {
            lemma_cong_of_multiple(a + p - b, a - b, 1, p);
        }
        ((a as u128 + self.p as u128 - b as u128) % (self.p as u128)) as u64
    }

    /// `(a * b) mod p`, computed in double width.
    pub fn mul(&self, a: u64, b: u64) -> (r: u64)
        requires
            self.wf(),
            a < self.p,
            b < self.p,
        ensures
            r == (a * b) % (self.p as int),
            r < self.p,
    {
        proof {
            assert(a * b <= u64::MAX * u64::MAX) by (nonlinear_arith)
                requires
                    a <= u64::MAX,
                    b <= u64::MAX,
            ;
        }
        ((a as u128 * b as u128) % (self.p as u128)) as u64
    }

    /// The multiplicative inverse, by the extended Euclidean algorithm.
    /// Zero has none.
    pub fn inverse(&self, a: u64) -> (r: Result<u64, FieldError>)
        requires
            self.wf(),
            a < self.p,
        ensures
            a == 0 <==> r == Err::<u64, FieldError>(FieldError::NonInvertible),
            a != 0 ==> (r matches Ok(b) && b < self.p && (a * b) % (self.p as int) == 1
                && b == inv(a as int, self.p as int)),
    {
        if a == 0 {
            return Err(FieldError::NonInvertible);
        }
        let p = self.p;
        let ghost pi = p as int;
        let mut r0: u64 = p;
        let mut r1: u64 = a;
        let mut s0: u64 = 0;
        let mut s1: u64 = 1;
        proof {
            lemma_prime_gcd(pi, a as int);
            lemma_cong_of_multiple(pi, 0 * a, 1, pi);
        }
        while r1 != 0
            invariant
                is_prime(pi),
                pi == p,
                0 < a < p,
                r0 <= p,
                r1 < r0,
                s0 < p,
                s1 < p,
                gcd(r0 as nat, r1 as nat) == 1,
                cong(r0 as int, s0 * a, pi),
                cong(r1 as int, s1 * a, pi),
            decreases r1,
        {
            let q = r0 / r1;
            let r2 = r0 % r1;
            // s2 = s0 - q * s1, reduced modulo p
            let qm = q as u128 % p as u128;
            proof {
                assert(qm * s1 < pi * pi) by (nonlinear_arith)
                    requires
                        0 <= qm < pi,
                        0 <= s1 < pi,
                ;
                assert(pi * pi <= u64::MAX * u64::MAX) by (nonlinear_arith)
                    requires
                        0 < pi <= u64::MAX,
                ;
            }
            let qs = (qm * (s1 as u128)) % (p as u128);
            let s2 = ((s0 as u128 + p as u128 - qs) % (p as u128)) as u64;
            proof {
                let qi = q as int;
                lemma_fundamental_div_mod(r0 as int, r1 as int);
                assert(r0 as int - qi * r1 == r2 as int) by (nonlinear_arith)
                    requires
                        r0 == r1 * qi + r0 % r1,
                        r2 == r0 % r1,
                ;
                lemma_euclid_step(r0 as int, r1 as int, s0 as int, s1 as int, qi, a as int, pi);
                lemma_cong_mod(qi, pi);
                lemma_cong_mul(qi % pi, s1 as int, qi, s1 as int, pi);
                lemma_cong_mod((qi % pi) * s1, pi);
                lemma_cong_mod(s0 + pi - qs, pi);
                lemma_cong_of_multiple(s0 + pi - qs, s0 - qs, 1, pi);
                lemma_cong_add(s0 as int, qs as int, s0 as int, qi * s1, pi);
                assert(cong(s2 as int, s0 - qi * s1, pi));
                lemma_cong_mul(s2 as int, a as int, s0 - qi * s1, a as int, pi);
            }
            r0 = r1;
            r1 = r2;
            s0 = s1;
            s1 = s2;
        }
        proof {
            assert(r0 == 1);
            lemma_small_mod(1, pi as nat);
            assert((a * s0) % pi == 1);
            lemma_inverse_unique(a as int, s0 as int, pi);
        }
        Ok(s0)
    }
}

} // verus!
