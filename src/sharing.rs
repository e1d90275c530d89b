//! Splitting a secret into shares and recovering it.
use crate::field::{
    cong, inv, lemma_cong_add, lemma_cong_mod, lemma_cong_mul, lemma_inverse_unique, Field,
};
use crate::lagrange::{basis, lagrange, lemma_basis_at_own_node, weight};
use crate::poly::distinct_mod;
use crate::poly::{eval, ints};
use rand::Rng;
use vstd::arithmetic::div_mod::lemma_small_mod;
use vstd::prelude::*;

verus! {

/// A point `(x, y)` of the secret-encoding polynomial.
#[derive(Debug, Clone, Copy, PartialEq, Eq, Structural)]
pub struct Share {
    pub x: u64,
    pub y: u64,
}

/// The parameters of one split.
#[derive(Debug, Clone, Copy, PartialEq, Eq, Structural)]
pub struct Config {
    /// The secret which will be split.
    pub secret: u64,
    /// Number of shares the secret will be split into.
    pub shares: u32,
    /// Number of shares needed to reconstruct the secret.
    pub threshold: u32,
}

/// Why a split was refused.
#[derive(Debug, Clone, Copy, PartialEq, Eq, Structural)]
pub enum SplitError {
    InvalidThreshold,
    InvalidShareCount,
    SecretOutOfRange,
}

/// Why a recovery was refused.
#[derive(Debug, Clone, Copy, PartialEq, Eq, Structural)]
pub enum RecoverError {
    DuplicateShareX,
    InsufficientShares,
}

/// The x coordinates of the shares.
pub open spec fn xs_of(s: Seq<Share>) -> Seq<int> {
    s.map_values(|sh: Share| sh.x as int)
}

/// The y coordinates of the shares.
pub open spec fn ys_of(s: Seq<Share>) -> Seq<int> {
    s.map_values(|sh: Share| sh.y as int)
}

/// Every coordinate is an element of the field.
pub open spec fn shares_in_field(s: Seq<Share>, p: int) -> bool {
    forall|i: int| 0 <= i < s.len() ==> (#[trigger] s[i]).x < p && s[i].y < p
}

/// Two of the shares have the same x coordinate.
pub open spec fn has_duplicate_x(s: Seq<Share>) -> bool {
    exists|i: int, j: int|
        0 <= i < s.len() && 0 <= j < s.len() && i != j && #[trigger] s[i].x == #[trigger] s[j].x
}

/// The value at zero of the polynomial through the shares.
pub open spec fn interpolated_secret(s: Seq<Share>, p: int) -> int {
    lagrange(xs_of(s), ys_of(s), p, 0, s.len() as int) % p
}

/// The shares are the points `x = 1..n` of the polynomial `c`.
pub open spec fn shares_of(c: Seq<u64>, n: int, p: int, s: Seq<Share>) -> bool {
    s.len() == n && forall|i: int|
        0 <= i < n ==> (#[trigger] s[i]).x == i + 1 && s[i].y == eval(ints(c), i + 1) % p
}

/// A secret-encoding polynomial for `secret` with `k` coefficients.
pub open spec fn encodes(c: Seq<u64>, secret: int, k: int, p: int) -> bool {
    c.len() == k && k >= 1 && c[0] == secret && forall|i: int|
        0 <= i < c.len() ==> #[trigger] c[i] < p
}

/// The outcome of validating a split's parameters.
pub open spec fn split_check(config: Config, p: int) -> Option<SplitError> {
    if config.threshold == 0 || config.threshold > config.shares {
        Some(SplitError::InvalidThreshold)
    } else if config.shares == 0 || config.shares >= p {
        Some(SplitError::InvalidShareCount)
    } else if config.secret >= p {
        Some(SplitError::SecretOutOfRange)
    } else {
        None
    }
}

/// Relies on rand's `thread_rng().gen_range(0..p)`: a value drawn uniformly
/// from `[0, p)` by the thread's cryptographically secure generator.
#[verifier::external_body]
fn random_below(p: u64) -> (r: u64)
    requires
        p > 0,
    ensures
        r < p,
{
    rand::thread_rng().gen_range(0..p)
}

/// `r == (a * b) % p` where `a`, `b` stand for `a2`, `b2` modulo `p`.
proof fn lemma_mul_step(r: int, a: int, a2: int, b: int, b2: int, p: int)
    requires
        p > 0,
        cong(a, a2, p),
        cong(b, b2, p),
        r == (a * b) % p,
    ensures
        r == (b2 * a2) % p,
{
    lemma_cong_mul(a, b, a2, b2, p);
    assert(a2 * b2 == b2 * a2) by (nonlinear_arith);
}

/// Value at `x` of the polynomial with the given coefficients, by Horner's rule.
pub fn evaluate_polygon(field: &Field, x: u64, coefficients: &Vec<u64>) -> (y: u64)
    requires
        field.wf(),
        x < field.p,
        forall|i: int| 0 <= i < coefficients.len() ==> #[trigger] coefficients[i] < field.p,
    ensures
        y == eval(ints(coefficients@), x as int) % (field.p as int),
{
    let ghost p = field.p as int;
    let ghost c = ints(coefficients@);
    let n = coefficients.len();
    let mut y: u64 = 0;
    let mut i: usize = n;
    proof {
        let e: Seq<int> = seq![];
        assert(c.subrange(n as int, n as int) =~= e);
        lemma_small_mod(0, p as nat);
    }
    while i > 0
        invariant
            field.wf(),
            p == field.p,
            x < field.p,
            c == ints(coefficients@),
            n == coefficients.len(),
            forall|j: int| 0 <= j < coefficients.len() ==> #[trigger] coefficients[j] < field.p,
            i <= n,
            y < field.p,
            y == eval(c.subrange(i as int, n as int), x as int) % p,
        decreases i,
    {
        let t = field.mul(y, x);
        y = field.add(t, coefficients[i - 1]);
        proof {
            let rest = c.subrange(i as int, n as int);
            let cur = c.subrange(i - 1, n as int);
            assert(cur.drop_first() =~= rest);
            let e = eval(rest, x as int);
            lemma_cong_mod(e, p);
            lemma_mul_step(t as int, e % p, e, x as int, x as int, p);
            lemma_cong_mod(x * e, p);
            lemma_cong_add(coefficients[i - 1] as int, t as int, c[i - 1], x * e, p);
            assert(y == (coefficients[i - 1] + t) % p);
        }
        i = i - 1;
    }
    proof {
        assert(c.subrange(0, n as int) =~= c);
    }
    y
}

/// The coefficients of the secret-encoding polynomial: the secret, then the
/// draws in order.
pub fn coefficients_from(secret: u64, draws: &Vec<u64>) -> (c: Vec<u64>)
    ensures
        c@ == seq![secret] + draws@,
{
    let mut c: Vec<u64> = Vec::new();
    c.push(secret);
    let mut i: usize = 0;
    while i < draws.len()
        invariant
            i <= draws.len(),
            c@ == seq![secret] + draws@.take(i as int),
        decreases draws.len() - i,
    {
        c.push(draws[i]);
        i = i + 1;
        assert(c@ =~= seq![secret] + draws@.take(i as int));
    }
    assert(draws@.take(draws.len() as int) =~= draws@);
    c
}

/// `count` values drawn uniformly from the field.
fn random_draws(count: u32, field: &Field) -> (d: Vec<u64>)
    requires
        field.wf(),
    ensures
        d.len() == count,
        forall|i: int| 0 <= i < d.len() ==> #[trigger] d[i] < field.p,
{
    let mut d: Vec<u64> = Vec::new();
    let mut i: u32 = 0;
    while i < count
        invariant
            field.wf(),
            i <= count,
            d.len() == i,
            forall|j: int| 0 <= j < d.len() ==> #[trigger] d[j] < field.p,
        decreases count - i,
    {
        let v = random_below(field.p);
        d.push(v);
        i = i + 1;
    }
    d
}

/// The coefficients of a fresh secret-encoding polynomial: the secret,
/// then `threshold - 1` values drawn uniformly from the field.
pub fn generate_polygon_coefficients(config: &Config, field: &Field) -> (c: Vec<u64>)
    requires
        field.wf(),
        config.threshold >= 1,
        config.secret < field.p,
    ensures
        encodes(c@, config.secret as int, config.threshold as int, field.p as int),
{
    let draws = random_draws(config.threshold - 1, field);
    let c = coefficients_from(config.secret, &draws);
    assert forall|i: int| 0 <= i < c.len() implies #[trigger] c[i] < field.p by {
        if i > 0 {
            assert(c[i] == draws[i - 1]);
        }
    }
    c
}

/// The points `x = 1..config.shares` of the polynomial.
pub fn generate_shares(config: &Config, coefficients: &Vec<u64>, field: &Field) -> (s: Vec<Share>)
    requires
        field.wf(),
        (config.shares as int) < field.p,
        forall|i: int| 0 <= i < coefficients.len() ==> #[trigger] coefficients[i] < field.p,
    ensures
        shares_of(coefficients@, config.shares as int, field.p as int, s@),
        shares_in_field(s@, field.p as int),
{
    let mut points: Vec<Share> = Vec::new();
    let mut i: u32 = 0;
    while i < config.shares
        invariant
            field.wf(),
            (config.shares as int) < field.p,
            forall|j: int| 0 <= j < coefficients.len() ==> #[trigger] coefficients[j] < field.p,
            i <= config.shares,
            points.len() == i,
            forall|j: int|
                0 <= j < i ==> (#[trigger] points[j]).x == j + 1 && points[j].y == eval(
                    ints(coefficients@),
                    j + 1,
                ) % (field.p as int) && points[j].y < field.p,
        decreases config.shares - i,
    {
        let x = (i + 1) as u64;
        let y = evaluate_polygon(field, x, coefficients);
        proof {
            lemma_cong_mod(eval(ints(coefficients@), x as int), field.p as int);
        }
        points.push(Share { x, y });
        i = i + 1;
    }
    points
}

/// Splits `config.secret` with the polynomial whose coefficients are the
/// secret followed by `draws`, the caller's `threshold - 1` uniform field
/// elements.
pub fn split_with_draws(config: &Config, field: &Field, draws: &Vec<u64>) -> (r: Result<
    Vec<Share>,
    SplitError,
>)
    requires
        field.wf(),
        config.threshold >= 1 ==> draws.len() == config.threshold - 1,
        forall|i: int| 0 <= i < draws.len() ==> #[trigger] draws[i] < field.p,
    ensures
        split_check(*config, field.p as int) matches Some(e) ==> r == Err::<Vec<Share>, SplitError>(e),
        split_check(*config, field.p as int) is None ==> (r matches Ok(s) && shares_of(
            seq![config.secret] + draws@,
            config.shares as int,
            field.p as int,
            s@,
        )),
{
    if config.threshold == 0 || config.threshold > config.shares {
        return Err(SplitError::InvalidThreshold);
    }
    if config.shares == 0 || config.shares as u64 >= field.p {
        return Err(SplitError::InvalidShareCount);
    }
    if config.secret >= field.p {
        return Err(SplitError::SecretOutOfRange);
    }
    let coefficients = coefficients_from(config.secret, draws);
    assert forall|i: int| 0 <= i < coefficients.len() implies #[trigger] coefficients[i]
        < field.p by {
        if i > 0 {
            assert(coefficients[i] == draws[i - 1]);
        }
    }
    let shares = generate_shares(config, &coefficients, field);
    Ok(shares)
}

/// Splits `config.secret` into `config.shares` shares, any
/// `config.threshold` of which recover it, drawing the polynomial's other
/// coefficients from the thread's secure generator.
pub fn split(config: &Config, field: &Field) -> (r: Result<Vec<Share>, SplitError>)
    requires
        field.wf(),
    ensures
        split_check(*config, field.p as int) matches Some(e) ==> r == Err::<Vec<Share>, SplitError>(e),
        split_check(*config, field.p as int) is None ==> r is Ok,
        r matches Ok(s) ==> exists|c: Seq<u64>|
            encodes(c, config.secret as int, config.threshold as int, field.p as int)
                && #[trigger] shares_of(c, config.shares as int, field.p as int, s@),
{
    if config.threshold == 0 || config.threshold > config.shares {
        return Err(SplitError::InvalidThreshold);
    }
    let draws = random_draws(config.threshold - 1, field);
    let r = split_with_draws(config, field, &draws);
    proof {
        let c = seq![config.secret] + draws@;
        if r is Ok {
            assert(encodes(c, config.secret as int, config.threshold as int, field.p as int)) by {
                assert forall|i: int| 0 <= i < c.len() implies #[trigger] c[i] < field.p by {
                    if i > 0 {
                        assert(c[i] == draws[i - 1]);
                    }
                }
            }
        }
    }
    r
}

fn contains_duplicate_x(shares: &Vec<Share>) -> (r: bool)
    ensures
        r == has_duplicate_x(shares@),
{
    let n = shares.len();
    let mut i: usize = 0;
    while i < n
        invariant
            n == shares.len(),
            i <= n,
            forall|a: int, b: int|
                0 <= a < i && 0 <= b < n && a != b ==> #[trigger] shares[a].x != #[trigger] shares[b].x,
        decreases n - i,
    {
        let mut j: usize = 0;
        while j < n
            invariant
                n == shares.len(),
                i < n,
                j <= n,
                forall|a: int, b: int|
                    0 <= a < i && 0 <= b < n && a != b ==> #[trigger] shares[a].x
                        != #[trigger] shares[b].x,
                forall|b: int| 0 <= b < j && b != i ==> shares[i as int].x != #[trigger] shares[b].x,
            decreases n - j,
        {
            if j != i && shares[i].x == shares[j].x {
                assert(shares@[i as int].x == shares@[j as int].x);
                return true;
            }
            j = j + 1;
        }
        i = i + 1;
    }
    proof {
        if has_duplicate_x(shares@) {
            let (a, b) = choose|a: int, b: int|
                0 <= a < shares@.len() && 0 <= b < shares@.len() && a != b && #[trigger] shares@[a].x
                    == #[trigger] shares@[b].x;
            assert(shares[a].x != shares[b].x);
        }
    }
    false
}

/// Recovers the secret from the shares by Lagrange interpolation at zero.
pub fn recover_secret(shares: &Vec<Share>, threshold: u32, field: &Field) -> (r: Result<
    u64,
    RecoverError,
>)
    requires
        field.wf(),
        shares_in_field(shares@, field.p as int),
    ensures
        has_duplicate_x(shares@) ==> r == Err::<u64, RecoverError>(RecoverError::DuplicateShareX),
        !has_duplicate_x(shares@) && (shares.len() == 0 || shares.len() < threshold) ==> r == Err::<
            u64,
            RecoverError,
        >(RecoverError::InsufficientShares),
        !has_duplicate_x(shares@) && shares.len() > 0 && shares.len() >= threshold ==> r == Ok::<
            u64,
            RecoverError,
        >(interpolated_secret(shares@, field.p as int) as u64),
        r matches Ok(v) ==> v < field.p,
{
    if contains_duplicate_x(shares) {
        return Err(RecoverError::DuplicateShareX);
    }
    let n = shares.len();
    if n == 0 || n < threshold as usize {
        return Err(RecoverError::InsufficientShares);
    }
    let ghost p = field.p as int;
    let ghost xs = xs_of(shares@);
    let ghost ys = ys_of(shares@);
    proof {
        lemma_small_mod(0, p as nat);
        lemma_small_mod(1, p as nat);
        assert forall|a: int, b: int|
            0 <= a < xs.len() && 0 <= b < xs.len() && a != b implies #[trigger] (xs[a] % p)
            != #[trigger] (xs[b] % p) by {
            assert(shares@[a].x != shares@[b].x);
            assert(shares[a].x < p && shares[b].x < p);
            lemma_small_mod(shares[a].x as nat, p as nat);
            lemma_small_mod(shares[b].x as nat, p as nat);
        }
        assert(distinct_mod(xs, p));
    }
    let mut secret: u64 = 0;
    let mut i: usize = 0;
    while i < n
        invariant
            field.wf(),
            p == field.p,
            n == shares.len(),
            n >= 1,
            xs == xs_of(shares@),
            ys == ys_of(shares@),
            shares_in_field(shares@, p),
            distinct_mod(xs, p),
            i <= n,
            secret < p,
            secret == lagrange(xs, ys, p, 0, i as int) % p,
        decreases n - i,
    {
        let xi = shares[i].x;
        let mut num: u64 = 1;
        let mut den: u64 = 1;
        let mut j: usize = 0;
        proof {
            lemma_small_mod(1, p as nat);
        }
        while j < n
            invariant
                field.wf(),
                p == field.p,
                n == shares.len(),
                xs == xs_of(shares@),
                shares_in_field(shares@, p),
                i < n,
                xi == xs[i as int],
                j <= n,
                num < p,
                den < p,
                num == basis(xs, i as int, 0, j as int) % p,
                den == basis(xs, i as int, xi as int, j as int) % p,
            decreases n - j,
        {
            if j != i {
                let xj = shares[j].x;
                let d0 = field.sub(0, xj);
                let d1 = field.sub(xi, xj);
                let ghost b0 = basis(xs, i as int, 0, j as int);
                let ghost b1 = basis(xs, i as int, xi as int, j as int);
                let ghost num0 = num;
                let ghost den0 = den;
                num = field.mul(num, d0);
                den = field.mul(den, d1);
                proof {
                    lemma_cong_mod(b0, p);
                    lemma_cong_mod(b1, p);
                    lemma_cong_mod(0 - xj, p);
                    lemma_cong_mod(xi - xj, p);
                    lemma_mul_step(num as int, num0 as int, b0, d0 as int, 0 - xj, p);
                    lemma_mul_step(den as int, den0 as int, b1, d1 as int, xi - xj, p);
                }
            }
            j = j + 1;
        }
        let ghost big_d = basis(xs, i as int, xi as int, n as int);
        let ghost b0 = basis(xs, i as int, 0, n as int);
        proof {
            lemma_basis_at_own_node(xs, i as int, p, n as int);
            lemma_cong_mod(big_d, p);
        }
        let w = match field.inverse(den) {
            Ok(w) => w,
            Err(_) => {
                return Err(RecoverError::DuplicateShareX);
            },
        };
        let yn = field.mul(shares[i].y, num);
        let t = field.mul(yn, w);
        let ghost prev = secret;
        secret = field.add(secret, t);
        proof {
            lemma_cong_mul(den as int, w as int, big_d, w as int, p);
            lemma_inverse_unique(big_d, w as int, p);
            let yi = ys[i as int];
            lemma_cong_mod(b0, p);
            lemma_mul_step(yn as int, num as int, b0, yi, yi, p);
            lemma_cong_mod(b0 * yi, p);
            lemma_mul_step(t as int, yn as int, b0 * yi, w as int, w as int, p);
            let term = weight(xs, ys, p, i as int) * basis(xs, i as int, 0, n as int);
            assert(w * (b0 * yi) == term) by (nonlinear_arith)
                requires
                    w == inv(big_d, p),
                    term == (yi * inv(big_d, p)) * b0,
            ;
            let l = lagrange(xs, ys, p, 0, i as int);
            lemma_cong_mod(l, p);
            lemma_cong_mod(term, p);
            lemma_cong_add(prev as int, t as int, l, term, p);
        }
        i = i + 1;
    }
    Ok(secret)
}

} // verus!
