//! Polynomials as coefficient sequences, lowest degree first.
use crate::field::{is_prime, lemma_cong_add, lemma_cong_mod, lemma_cong_mul, lemma_no_zero_divisors};
use vstd::arithmetic::div_mod::lemma_small_mod;
use vstd::prelude::*;

verus! {

/// `c[0] + z * (c[1] + z * (...))`, over the integers.
pub open spec fn eval(c: Seq<int>, z: int) -> int
    decreases c.len(),
{
    if c.len() == 0 {
        0
    } else {
        c[0] + z * eval(c.drop_first(), z)
    }
}

/// The coefficients as integers.
pub open spec fn ints(c: Seq<u64>) -> Seq<int> {
    c.map_values(|v: u64| v as int)
}

/// Quotient of `c` by `(z - a)`, by synthetic division.
pub open spec fn quotient(c: Seq<int>, a: int) -> Seq<int>
    decreases c.len(),
{
    if c.len() <= 1 {
        seq![]
    } else {
        seq![eval(c.drop_first(), a)] + quotient(c.drop_first(), a)
    }
}

/// `k * c`.
pub open spec fn scale(c: Seq<int>, k: int) -> Seq<int> {
    c.map_values(|v: int| k * v)
}

/// Coefficient `i` of `c`, zero past its end.
pub open spec fn coef(c: Seq<int>, i: int) -> int {
    if 0 <= i < c.len() {
        c[i]
    } else {
        0
    }
}

/// `c + d`.
pub open spec fn sum(c: Seq<int>, d: Seq<int>) -> Seq<int> {
    Seq::new(
        if c.len() >= d.len() {
            c.len()
        } else {
            d.len()
        },
        |i: int| coef(c, i) + coef(d, i),
    )
}

/// `(z - a) * c`.
pub open spec fn times_linear(c: Seq<int>, a: int) -> Seq<int> {
    sum(seq![0] + c, scale(c, -a))
}

pub proof fn lemma_eval_cons(h: int, c: Seq<int>, z: int)
    ensures
        eval(seq![h] + c, z) == h + z * eval(c, z),
{
    assert((seq![h] + c).drop_first() =~= c);
}

pub proof fn lemma_eval_scale(c: Seq<int>, k: int, z: int)
    ensures
        eval(scale(c, k), z) == k * eval(c, z),
    decreases c.len(),
{
    if c.len() > 0 {
        assert(scale(c, k).drop_first() =~= scale(c.drop_first(), k));
        lemma_eval_scale(c.drop_first(), k, z);
        let e = eval(c.drop_first(), z);
        assert(k * c[0] + z * (k * e) == k * (c[0] + z * e)) by (nonlinear_arith);
    }
}

pub proof fn lemma_eval_sum(c: Seq<int>, d: Seq<int>, z: int)
    ensures
        eval(sum(c, d), z) == eval(c, z) + eval(d, z),
    decreases c.len() + d.len(),
{
    let s = sum(c, d);
    if c.len() == 0 {
        assert(s =~= d);
    } else if d.len() == 0 {
        assert(s =~= c);
    } else {
        assert(s.drop_first() =~= sum(c.drop_first(), d.drop_first()));
        lemma_eval_sum(c.drop_first(), d.drop_first(), z);
        let e = eval(c.drop_first(), z);
        let f = eval(d.drop_first(), z);
        assert(z * (e + f) == z * e + z * f) by (nonlinear_arith);
    }
}

pub proof fn lemma_eval_times_linear(c: Seq<int>, a: int, z: int)
    ensures
        eval(times_linear(c, a), z) == (z - a) * eval(c, z),
        times_linear(c, a).len() == c.len() + 1,
{
    lemma_eval_sum(seq![0] + c, scale(c, -a), z);
    lemma_eval_cons(0, c, z);
    lemma_eval_scale(c, -a, z);
    let e = eval(c, z);
    assert(0 + z * e + (-a) * e == (z - a) * e) by (nonlinear_arith);
}

/// The factor theorem: `c(z) == (z - a) * q(z) + c(a)`.
pub proof fn lemma_factor(c: Seq<int>, a: int, z: int)
    ensures
        eval(c, z) == (z - a) * eval(quotient(c, a), z) + eval(c, a),
        c.len() > 0 ==> quotient(c, a).len() == c.len() - 1,
    decreases c.len(),
{
    if c.len() <= 1 {
        let e: Seq<int> = seq![];
        assert(quotient(c, a) == e);
        assert(eval(e, z) == 0);
        assert(eval(e, a) == 0);
        if c.len() == 1 {
            assert(c.drop_first() =~= e);
            assert(eval(c, z) == c[0] + z * 0);
            assert(eval(c, a) == c[0] + a * 0);
        }
    } else if c.len() > 1 {
        let g = c.drop_first();
        lemma_factor(g, a, z);
        lemma_eval_cons(eval(g, a), quotient(g, a), z);
        let ga = eval(g, a);
        let gz = eval(g, z);
        let qg = eval(quotient(g, a), z);
        assert(c[0] + z * gz == (z - a) * (ga + z * qg) + (c[0] + a * ga)) by (nonlinear_arith)
            requires
                gz == (z - a) * qg + ga,
        ;
    }
}

/// The values in `xs` are pairwise distinct modulo `p`.
pub open spec fn distinct_mod(xs: Seq<int>, p: int) -> bool {
    forall|i: int, j: int|
        0 <= i < xs.len() && 0 <= j < xs.len() && i != j ==> #[trigger] (xs[i] % p) != #[trigger] (
        xs[j] % p)
}

/// Over a prime field, a polynomial with fewer coefficients than it has
/// distinct roots vanishes everywhere.
pub proof fn lemma_vanish(c: Seq<int>, xs: Seq<int>, p: int, z: int)
    requires
        is_prime(p),
        c.len() <= xs.len(),
        distinct_mod(xs, p),
        forall|i: int| 0 <= i < xs.len() ==> #[trigger] eval(c, xs[i]) % p == 0,
    ensures
        eval(c, z) % p == 0,
    decreases xs.len(),
{
    lemma_small_mod(0, p as nat);
    if c.len() == 0 {
    } else {
        let n = xs.len() - 1;
        let a = xs[n];
        let q = quotient(c, a);
        let ys = xs.drop_last();
        lemma_factor(c, a, a);
        assert forall|i: int| 0 <= i < ys.len() implies #[trigger] eval(q, ys[i]) % p == 0 by {
            let x = ys[i];
            assert(x == xs[i]);
            lemma_factor(c, a, x);
            assert(xs[i] % p != xs[n] % p);
            lemma_cong_mod(x - a, p);
            if (x - a) % p == 0 {
                lemma_cong_add(x - a, a, 0, a, p);
                lemma_cong_mod(x - a + a, p);
            }
            lemma_cong_add(eval(c, x), eval(c, a), 0, 0, p);
            assert(eval(c, x) - eval(c, a) == (x - a) * eval(q, x));
            if eval(q, x) % p != 0 {
                lemma_no_zero_divisors(x - a, eval(q, x), p);
            }
        }
        assert forall|i: int, j: int|
            0 <= i < ys.len() && 0 <= j < ys.len() && i != j implies #[trigger] (ys[i] % p)
            != #[trigger] (ys[j] % p) by {
            assert(ys[i] == xs[i] && ys[j] == xs[j]);
        }
        lemma_vanish(q, ys, p, z);
        lemma_factor(c, a, z);
        lemma_cong_mul(z - a, eval(q, z), z - a, 0, p);
        lemma_cong_add((z - a) * eval(q, z), eval(c, a), 0, 0, p);
    }
}

} // verus!
