//! Lagrange interpolation over a prime field.
use crate::field::{
    cong, inv, is_prime, lemma_cong_add, lemma_cong_mod, lemma_cong_mul, lemma_inverse_exists,
    lemma_no_zero_divisors,
};
use crate::poly::{
    distinct_mod, eval, lemma_eval_scale, lemma_eval_sum, lemma_eval_times_linear, lemma_vanish,
    scale, sum, times_linear,
};
use vstd::arithmetic::div_mod::lemma_small_mod;
use vstd::prelude::*;

verus! {

/// `prod_{j < k, j != i} (z - xs[j])`.
pub open spec fn basis(xs: Seq<int>, i: int, z: int, k: int) -> int
    decreases k,
{
    if k <= 0 {
        1
    } else if k - 1 == i {
        basis(xs, i, z, k - 1)
    } else {
        (z - xs[k - 1]) * basis(xs, i, z, k - 1)
    }
}

/// The coefficients of `basis(xs, i, _, k)`.
pub open spec fn basis_poly(xs: Seq<int>, i: int, k: int) -> Seq<int>
    decreases k,
{
    if k <= 0 {
        seq![1]
    } else if k - 1 == i {
        basis_poly(xs, i, k - 1)
    } else {
        times_linear(basis_poly(xs, i, k - 1), xs[k - 1])
    }
}

/// The factor by which `ys[i]` enters the interpolation: `ys[i]` over the
/// basis product at its own node.
pub open spec fn weight(xs: Seq<int>, ys: Seq<int>, p: int, i: int) -> int {
    ys[i] * inv(basis(xs, i, xs[i], xs.len() as int), p)
}

/// The first `k` terms of the Lagrange form through `(xs[i], ys[i])`, at `z`.
pub open spec fn lagrange(xs: Seq<int>, ys: Seq<int>, p: int, z: int, k: int) -> int
    decreases k,
{
    if k <= 0 {
        0
    } else {
        lagrange(xs, ys, p, z, k - 1) + weight(xs, ys, p, k - 1) * basis(
            xs,
            k - 1,
            z,
            xs.len() as int,
        )
    }
}

/// The coefficients of `lagrange(xs, ys, p, _, k)`.
pub open spec fn lagrange_poly(xs: Seq<int>, ys: Seq<int>, p: int, k: int) -> Seq<int>
    decreases k,
{
    if k <= 0 {
        seq![]
    } else {
        sum(
            lagrange_poly(xs, ys, p, k - 1),
            scale(basis_poly(xs, k - 1, xs.len() as int), weight(xs, ys, p, k - 1)),
        )
    }
}

proof fn lemma_basis_poly(xs: Seq<int>, i: int, k: int, z: int)
    requires
        0 <= k <= xs.len(),
    ensures
        eval(basis_poly(xs, i, k), z) == basis(xs, i, z, k),
        basis_poly(xs, i, k).len() <= k + 1,
        0 <= i < k ==> basis_poly(xs, i, k).len() <= k,
    decreases k,
{
    if k == 0 {
        let one: Seq<int> = seq![1];
        let e: Seq<int> = seq![];
        assert(one.drop_first() =~= e);
        assert(eval(e, z) == 0);
        assert(eval(one, z) == 1 + z * 0);
    } else {
        lemma_basis_poly(xs, i, k - 1, z);
        if k - 1 != i {
            lemma_eval_times_linear(basis_poly(xs, i, k - 1), xs[k - 1], z);
        }
    }
}

proof fn lemma_basis_at_other_node(xs: Seq<int>, i: int, t: int, k: int)
    requires
        0 <= t < k <= xs.len(),
        t != i,
    ensures
        basis(xs, i, xs[t], k) == 0,
    decreases k,
{
    let b = basis(xs, i, xs[t], k - 1);
    if t < k - 1 {
        lemma_basis_at_other_node(xs, i, t, k - 1);
        assert((xs[t] - xs[k - 1]) * b == 0) by (nonlinear_arith)
            requires
                b == 0,
        ;
    } else {
        assert((xs[t] - xs[k - 1]) * b == 0) by (nonlinear_arith)
            requires
                t == k - 1,
        ;
    }
}

pub proof fn lemma_basis_at_own_node(xs: Seq<int>, i: int, p: int, k: int)
    requires
        is_prime(p),
        distinct_mod(xs, p),
        0 <= i < xs.len(),
        0 <= k <= xs.len(),
    ensures
        basis(xs, i, xs[i], k) % p != 0,
    decreases k,
{
    if k == 0 {
        lemma_small_mod(1, p as nat);
    } else {
        lemma_basis_at_own_node(xs, i, p, k - 1);
        if k - 1 != i {
            let d = xs[i] - xs[k - 1];
            assert(xs[i] % p != xs[k - 1] % p);
            if d % p == 0 {
                lemma_small_mod(0, p as nat);
                lemma_cong_add(d, xs[k - 1], 0, xs[k - 1], p);
                assert(d + xs[k - 1] == xs[i]);
                assert(0 + xs[k - 1] == xs[k - 1]);
            }
            lemma_no_zero_divisors(d, basis(xs, i, xs[i], k - 1), p);
        }
    }
}

pub proof fn lemma_lagrange_poly(xs: Seq<int>, ys: Seq<int>, p: int, k: int, z: int)
    requires
        xs.len() >= 1,
        0 <= k <= xs.len(),
    ensures
        eval(lagrange_poly(xs, ys, p, k), z) == lagrange(xs, ys, p, z, k),
        lagrange_poly(xs, ys, p, k).len() <= xs.len(),
    decreases k,
{
    let m = xs.len() as int;
    if k == 0 {
        let e: Seq<int> = seq![];
        assert(lagrange_poly(xs, ys, p, k) == e);
    } else {
        lemma_lagrange_poly(xs, ys, p, k - 1, z);
        let b = basis_poly(xs, k - 1, m);
        let w = weight(xs, ys, p, k - 1);
        lemma_basis_poly(xs, k - 1, m, z);
        lemma_eval_scale(b, w, z);
        lemma_eval_sum(lagrange_poly(xs, ys, p, k - 1), scale(b, w), z);
    }
}

/// At a node, the Lagrange form takes that node's value.
pub proof fn lemma_lagrange_at_node(xs: Seq<int>, ys: Seq<int>, p: int, t: int, k: int)
    requires
        is_prime(p),
        distinct_mod(xs, p),
        xs.len() == ys.len(),
        0 <= t < xs.len(),
        0 <= k <= xs.len(),
    ensures
        cong(lagrange(xs, ys, p, xs[t], k), if t < k { ys[t] } else { 0 }, p),
    decreases k,
{
    let m = xs.len() as int;
    if k > 0 {
        lemma_lagrange_at_node(xs, ys, p, t, k - 1);
        let prev = lagrange(xs, ys, p, xs[t], k - 1);
        let term = weight(xs, ys, p, k - 1) * basis(xs, k - 1, xs[t], m);
        if k - 1 == t {
            let d = basis(xs, t, xs[t], m);
            lemma_basis_at_own_node(xs, t, p, m);
            lemma_inverse_exists(d, p);
            lemma_cong_mod(d * inv(d, p), p);
            lemma_small_mod(1, p as nat);
            lemma_cong_mul(ys[t], d * inv(d, p), ys[t], 1, p);
            assert(term == ys[t] * (d * inv(d, p))) by (nonlinear_arith)
                requires
                    term == (ys[t] * inv(d, p)) * d,
            ;
            lemma_cong_add(prev, term, 0, ys[t], p);
        } else {
            lemma_basis_at_other_node(xs, k - 1, t, m);
            assert(term == 0);
        }
    }
}

/// Lagrange interpolation through as many distinct nodes as a polynomial
/// has coefficients reproduces that polynomial everywhere.
pub proof fn lemma_interpolate(c: Seq<int>, xs: Seq<int>, ys: Seq<int>, p: int, z: int)
    requires
        is_prime(p),
        c.len() <= xs.len(),
        xs.len() >= 1,
        xs.len() == ys.len(),
        distinct_mod(xs, p),
        forall|i: int| 0 <= i < xs.len() ==> #[trigger] cong(ys[i], eval(c, xs[i]), p),
    ensures
        cong(lagrange(xs, ys, p, z, xs.len() as int), eval(c, z), p),
{
    let m = xs.len() as int;
    let l = lagrange_poly(xs, ys, p, m);
    let f = sum(c, scale(l, -1));
    assert forall|i: int| 0 <= i < xs.len() implies #[trigger] eval(f, xs[i]) % p == 0 by {
        let x = xs[i];
        lemma_lagrange_poly(xs, ys, p, m, x);
        lemma_eval_scale(l, -1, x);
        lemma_eval_sum(c, scale(l, -1), x);
        lemma_lagrange_at_node(xs, ys, p, i, m);
        assert(cong(ys[i], eval(c, x), p));
        lemma_cong_add(eval(c, x), lagrange(xs, ys, p, x, m), ys[i], ys[i], p);
        lemma_small_mod(0, p as nat);
    }
    lemma_lagrange_poly(xs, ys, p, m, z);
    lemma_vanish(f, xs, p, z);
    lemma_eval_scale(l, -1, z);
    lemma_eval_sum(c, scale(l, -1), z);
    lemma_small_mod(0, p as nat);
    lemma_cong_add(eval(c, z) - lagrange(xs, ys, p, z, m), lagrange(xs, ys, p, z, m), 0, lagrange(xs, ys, p, z, m), p);
}

} // verus!
