//! What holds between splitting and recovering.
use crate::field::{cong, is_prime, lemma_cong_add, lemma_cong_mod, lemma_no_zero_divisors};
use crate::lagrange::{
    lagrange, lagrange_poly, lemma_interpolate, lemma_lagrange_at_node, lemma_lagrange_poly,
};
use crate::poly::{
    coef, distinct_mod, eval, ints, lemma_eval_scale, lemma_eval_sum, lemma_vanish, scale, sum,
};
use crate::sharing::{encodes, has_duplicate_x, interpolated_secret, shares_of, xs_of, ys_of, Share};
use vstd::arithmetic::div_mod::lemma_small_mod;
use vstd::prelude::*;

verus! {

/// Recovering from any set of at least `k` distinct shares of a split
/// returns the secret that was split.
pub proof fn lemma_round_trip(
    c: Seq<u64>,
    secret: int,
    k: int,
    n: int,
    p: int,
    shares: Seq<Share>,
    subset: Seq<Share>,
)
    requires
        is_prime(p),
        n < p,
        encodes(c, secret, k, p),
        shares_of(c, n, p, shares),
        forall|i: int| 0 <= i < subset.len() ==> shares.contains(#[trigger] subset[i]),
        !has_duplicate_x(subset),
        subset.len() >= k,
    ensures
        interpolated_secret(subset, p) == secret,
{
    let xs = xs_of(subset);
    let ys = ys_of(subset);
    let ci = ints(c);
    assert forall|i: int| 0 <= i < xs.len() implies #[trigger] cong(ys[i], eval(ci, xs[i]), p)
        && 0 < xs[i] < p by {
        let j = choose|j: int| 0 <= j < shares.len() && shares[j] == subset[i];
        assert(shares[j].x == j + 1);
        let e = eval(ci, xs[i]);
        lemma_cong_mod(e, p);
    }
    assert forall|a: int, b: int|
        0 <= a < xs.len() && 0 <= b < xs.len() && a != b implies #[trigger] (xs[a] % p)
        != #[trigger] (xs[b] % p) by {
        assert(subset[a].x != subset[b].x);
        lemma_small_mod(xs[a] as nat, p as nat);
        lemma_small_mod(xs[b] as nat, p as nat);
    }
    assert(distinct_mod(xs, p));
    lemma_interpolate(ci, xs, ys, p, 0);
    assert(ci.drop_first().len() + 1 == ci.len());
    assert(eval(ci, 0) == ci[0] + 0 * eval(ci.drop_first(), 0));
    lemma_small_mod(secret as nat, p as nat);
}

/// Any two sets of at least `k` distinct shares of one split recover the
/// same secret.
pub proof fn lemma_subsets_agree(
    c: Seq<u64>,
    secret: int,
    k: int,
    n: int,
    p: int,
    shares: Seq<Share>,
    first: Seq<Share>,
    second: Seq<Share>,
)
    requires
        is_prime(p),
        n < p,
        encodes(c, secret, k, p),
        shares_of(c, n, p, shares),
        forall|i: int| 0 <= i < first.len() ==> shares.contains(#[trigger] first[i]),
        forall|i: int| 0 <= i < second.len() ==> shares.contains(#[trigger] second[i]),
        !has_duplicate_x(first),
        !has_duplicate_x(second),
        first.len() >= k,
        second.len() >= k,
    ensures
        interpolated_secret(first, p) == interpolated_secret(second, p),
{
    lemma_round_trip(c, secret, k, n, p, shares, first);
    lemma_round_trip(c, secret, k, n, p, shares, second);
}

/// A polynomial with at most `p` coefficients that vanishes at every point
/// of the field has every coefficient zero.
pub proof fn lemma_zero_coefficients(g: Seq<int>, p: int)
    requires
        is_prime(p),
        g.len() <= p,
        forall|z: int| #[trigger] eval(g, z) % p == 0,
    ensures
        forall|i: int| 0 <= i < g.len() ==> #[trigger] g[i] % p == 0,
    decreases g.len(),
{
    if g.len() > 0 {
        let h = g.drop_first();
        assert(eval(g, 0) == g[0] + 0 * eval(h, 0));
        let nodes = Seq::new((p - 1) as nat, |i: int| i + 1);
        lemma_small_mod(0, p as nat);
        assert forall|i: int| 0 <= i < nodes.len() implies #[trigger] eval(h, nodes[i]) % p == 0 by {
            let z = nodes[i];
            lemma_small_mod(z as nat, p as nat);
            assert(eval(g, z) == g[0] + z * eval(h, z));
            lemma_cong_add(eval(g, z), g[0], 0, 0, p);
            if eval(h, z) % p != 0 {
                lemma_no_zero_divisors(z, eval(h, z), p);
            }
        }
        assert forall|i: int, j: int|
            0 <= i < nodes.len() && 0 <= j < nodes.len() && i != j implies #[trigger] (nodes[i]
            % p) != #[trigger] (nodes[j] % p) by {
            lemma_small_mod(nodes[i] as nat, p as nat);
            lemma_small_mod(nodes[j] as nat, p as nat);
        }
        assert forall|z: int| #[trigger] eval(h, z) % p == 0 by {
            lemma_vanish(h, nodes, p, z);
        }
        lemma_zero_coefficients(h, p);
        assert forall|i: int| 0 <= i < g.len() implies #[trigger] g[i] % p == 0 by {
            if i > 0 {
                assert(g[i] == h[i - 1]);
            }
        }
    }
}

/// Interpolating at zero through one node fewer than the polynomials have
/// coefficients cannot tell the secret: two polynomials that agree but for
/// their top coefficient give different values there.
pub proof fn lemma_below_threshold_differs(
    c: Seq<int>,
    c2: Seq<int>,
    xs: Seq<int>,
    ys: Seq<int>,
    ys2: Seq<int>,
    p: int,
)
    requires
        is_prime(p),
        2 <= c.len() <= p,
        c2.len() == c.len(),
        forall|i: int| 0 <= i < c.len() - 1 ==> #[trigger] c[i] == c2[i],
        (c[c.len() - 1] - c2[c.len() - 1]) % p != 0,
        xs.len() == c.len() - 1,
        ys.len() == xs.len(),
        ys2.len() == xs.len(),
        distinct_mod(xs, p),
        forall|i: int| 0 <= i < xs.len() ==> #[trigger] (xs[i] % p) != 0,
        forall|i: int|
            0 <= i < xs.len() ==> #[trigger] cong(ys[i], eval(c, xs[i]), p) && cong(
                ys2[i],
                eval(c2, xs[i]),
                p,
            ),
    ensures
        lagrange(xs, ys, p, 0, xs.len() as int) % p != lagrange(xs, ys2, p, 0, xs.len() as int) % p,
{
    let m = xs.len() as int;
    let k = c.len() as int;
    let l1 = lagrange_poly(xs, ys, p, m);
    let l2 = lagrange_poly(xs, ys2, p, m);
    let e = sum(l1, scale(l2, -1));
    let dd = sum(c, scale(c2, -1));
    let g = sum(dd, scale(e, -1));
    lemma_small_mod(0, p as nat);
    if lagrange(xs, ys, p, 0, m) % p == lagrange(xs, ys2, p, 0, m) % p {
        let nodes = xs.push(0);
        assert forall|t: int| 0 <= t < nodes.len() implies #[trigger] eval(g, nodes[t]) % p == 0 by {
            let z = nodes[t];
            lemma_lagrange_poly(xs, ys, p, m, z);
            lemma_lagrange_poly(xs, ys2, p, m, z);
            lemma_eval_scale(l2, -1, z);
            lemma_eval_sum(l1, scale(l2, -1), z);
            lemma_eval_scale(c2, -1, z);
            lemma_eval_sum(c, scale(c2, -1), z);
            lemma_eval_scale(e, -1, z);
            lemma_eval_sum(dd, scale(e, -1), z);
            let a1 = lagrange(xs, ys, p, z, m);
            let a2 = lagrange(xs, ys2, p, z, m);
            if t < m {
                assert(z == xs[t]);
                lemma_lagrange_at_node(xs, ys, p, t, m);
                lemma_lagrange_at_node(xs, ys2, p, t, m);
                assert(cong(ys[t], eval(c, xs[t]), p));
                assert(cong(ys2[t], eval(c2, xs[t]), p));
                lemma_cong_add(eval(c, z), eval(c2, z), ys[t], ys2[t], p);
                lemma_cong_add(a1, a2, ys[t], ys2[t], p);
                lemma_cong_add(eval(c, z) - eval(c2, z), a1 - a2, ys[t] - ys2[t], ys[t] - ys2[t], p);
            } else {
                assert(z == 0);
                assert(eval(c, 0) == c[0] + 0 * eval(c.drop_first(), 0));
                assert(eval(c2, 0) == c2[0] + 0 * eval(c2.drop_first(), 0));
                assert(c[0] == c2[0]);
                lemma_cong_add(a1, a2, a2, a2, p);
                lemma_cong_add(0, a1 - a2, 0, 0, p);
            }
        }
        assert forall|i: int, j: int|
            0 <= i < nodes.len() && 0 <= j < nodes.len() && i != j implies #[trigger] (nodes[i]
            % p) != #[trigger] (nodes[j] % p) by {
            if i < m && j < m {
                assert(nodes[i] == xs[i] && nodes[j] == xs[j]);
            } else if i < m {
                assert(nodes[i] == xs[i] && nodes[j] == 0);
            } else {
                assert(nodes[j] == xs[j] && nodes[i] == 0);
            }
        }
        lemma_lagrange_poly(xs, ys, p, m, 0);
        lemma_lagrange_poly(xs, ys2, p, m, 0);
        assert forall|z: int| #[trigger] eval(g, z) % p == 0 by {
            lemma_vanish(g, nodes, p, z);
        }
        lemma_zero_coefficients(g, p);
        assert(g[k - 1] == coef(dd, k - 1) + coef(scale(e, -1), k - 1));
        assert(coef(scale(e, -1), k - 1) == 0);
        assert(dd[k - 1] == c[k - 1] + (-1) * c2[k - 1]);
    }
}

/// Recovering with a threshold of one less than the polynomial's number of
/// coefficients cannot tell the secret: the shares at the same points of two
/// polynomials that agree but for their top coefficient recover different
/// values.
pub proof fn lemma_below_threshold_shares_differ(
    c: Seq<u64>,
    c2: Seq<u64>,
    p: int,
    shares: Seq<Share>,
    shares2: Seq<Share>,
)
    requires
        is_prime(p),
        2 <= c.len() <= p,
        c2.len() == c.len(),
        forall|i: int| 0 <= i < c.len() - 1 ==> #[trigger] c[i] == c2[i],
        c[c.len() - 1] != c2[c.len() - 1],
        forall|i: int| 0 <= i < c.len() ==> #[trigger] c[i] < p && c2[i] < p,
        shares.len() == c.len() - 1,
        shares2.len() == shares.len(),
        !has_duplicate_x(shares),
        forall|i: int|
            0 <= i < shares.len() ==> 0 < (#[trigger] shares[i]).x < p && shares2[i].x == shares[i].x
                && shares[i].y == eval(ints(c), shares[i].x as int) % p && shares2[i].y == eval(
                ints(c2),
                shares[i].x as int,
            ) % p,
    ensures
        interpolated_secret(shares, p) != interpolated_secret(shares2, p),
{
    let xs = xs_of(shares);
    let top = c.len() - 1;
    assert(xs_of(shares2) =~= xs);
    let ci = ints(c);
    let ci2 = ints(c2);
    assert forall|i: int| 0 <= i < xs.len() implies #[trigger] (xs[i] % p) != 0 && cong(
        ys_of(shares)[i],
        eval(ci, xs[i]),
        p,
    ) && cong(ys_of(shares2)[i], eval(ci2, xs[i]), p) by {
        assert(0 < shares[i].x < p);
        lemma_small_mod(shares[i].x as nat, p as nat);
        lemma_cong_mod(eval(ci, xs[i]), p);
        lemma_cong_mod(eval(ci2, xs[i]), p);
    }
    assert forall|a: int, b: int|
        0 <= a < xs.len() && 0 <= b < xs.len() && a != b implies #[trigger] (xs[a] % p)
        != #[trigger] (xs[b] % p) by {
        assert(shares[a].x != shares[b].x);
        assert(0 < shares[a].x < p && 0 < shares[b].x < p);
        lemma_small_mod(xs[a] as nat, p as nat);
        lemma_small_mod(xs[b] as nat, p as nat);
    }
    assert(distinct_mod(xs, p));
    assert forall|i: int| 0 <= i < ci.len() - 1 implies #[trigger] ci[i] == ci2[i] by {
        assert(c[i] == c2[i]);
    }
    assert(c[top] < p && c2[top] < p);
    let d = ci[top] - ci2[top];
    if d % p == 0 {
        if d >= 0 {
            lemma_small_mod(d as nat, p as nat);
        } else {
            lemma_small_mod((-d) as nat, p as nat);
            lemma_cong_add(0, d, 0, 0, p);
        }
    }
    let ys = ys_of(shares);
    let ys2 = ys_of(shares2);
    assert forall|i: int| 0 <= i < xs.len() implies #[trigger] cong(ys[i], eval(ci, xs[i]), p)
        && cong(ys2[i], eval(ci2, xs[i]), p) by {
        assert((xs[i] % p) != 0);
    }
    lemma_below_threshold_differs(ci, ci2, xs, ys, ys2, p);
}

} // verus!
