//! Why interpolation at zero recovers the constant term.
//!
//! Node `i` of the nodes `xs[a..b)` carries the weight `W_i`, the product over
//! the other nodes `j` of `-xs[j] / (xs[i] - xs[j])`. Modulo a prime for which
//! the nodes are distinct, the weights add up to one, and weighted by a power
//! `xs[i]^k` with `0 < k < b - a` they add up to zero. Hence, weighted by the
//! values of a polynomial with at most `b - a` coefficients, they add up to
//! its constant term.

use crate::interpolation::{
    basis_denominator, basis_numerator, fermat_inverse, interpolate_at_zero, lagrange_sum,
    lagrange_term,
};
use crate::modular::{
    congruent, lemma_congruent_add, lemma_congruent_mul, lemma_congruent_rem, lemma_congruent_sub,
};
use crate::number_theory::{is_prime, lemma_cancel, lemma_fermat_inverse};
use crate::polynomial::{lemma_poly_eval_at_zero, lemma_poly_eval_constant, poly_eval};
use vstd::arithmetic::div_mod::lemma_small_mod;
use vstd::arithmetic::power::{lemma1_pow, lemma_pow0, lemma_pow1, lemma_pow_adds, lemma_pow_distributes, pow};
use vstd::prelude::*;

verus! {

/// The sum of `f(i)` over `a <= i < b`.
pub open spec fn sum_over(f: spec_fn(int) -> int, a: int, b: int) -> int
    decreases b - a,
{
    if b <= a {
        0
    } else {
        sum_over(f, a, b - 1) + f(b - 1)
    }
}

/// Sums of pointwise congruent functions are congruent.
pub proof fn lemma_sum_congruent(
    f: spec_fn(int) -> int,
    g: spec_fn(int) -> int,
    a: int,
    b: int,
    p: int,
)
    requires
        p > 0,
        forall|i: int| a <= i < b ==> congruent(#[trigger] f(i), g(i), p),
    ensures
        congruent(sum_over(f, a, b), sum_over(g, a, b), p),
    decreases b - a,
{
    if b > a {
        lemma_sum_congruent(f, g, a, b - 1, p);
        lemma_congruent_add(sum_over(f, a, b - 1), sum_over(g, a, b - 1), f(b - 1), g(b - 1), p);
    }
}

/// The sum of a pointwise linear combination is the linear combination of the
/// sums.
pub proof fn lemma_sum_linear(
    h: spec_fn(int) -> int,
    f: spec_fn(int) -> int,
    g: spec_fn(int) -> int,
    c: int,
    d: int,
    a: int,
    b: int,
)
    requires
        forall|i: int| a <= i < b ==> #[trigger] h(i) == c * f(i) + d * g(i),
    ensures
        sum_over(h, a, b) == c * sum_over(f, a, b) + d * sum_over(g, a, b),
    decreases b - a,
{
    if b > a {
        lemma_sum_linear(h, f, g, c, d, a, b - 1);
        let sf = sum_over(f, a, b - 1);
        let sg = sum_over(g, a, b - 1);
        let x = f(b - 1);
        let y = g(b - 1);
        assert((c * sf + d * sg) + (c * x + d * y) == c * (sf + x) + d * (sg + y))
            by (nonlinear_arith);
    } else {
        assert(c * 0 + d * 0 == 0) by (nonlinear_arith);
    }
}

/// A sum may be split off its first term as well as its last.
pub proof fn lemma_sum_first(f: spec_fn(int) -> int, a: int, b: int)
    requires
        a < b,
    ensures
        sum_over(f, a, b) == f(a) + sum_over(f, a + 1, b),
    decreases b - a,
{
    if b - 1 > a {
        lemma_sum_first(f, a, b - 1);
    } else {
        assert(sum_over(f, a, a) == 0);
        assert(sum_over(f, a + 1, b) == 0);
    }
}

/// The factor that node `j` contributes to the weight of node `i`:
/// `-xs[j] / (xs[i] - xs[j])`.
pub open spec fn pair_factor(xs: Seq<int>, p: int, i: int, j: int) -> int {
    (-xs[j]) * fermat_inverse(xs[i] - xs[j], p)
}

/// The weight of node `i` among the nodes `xs[a..b)`: the product of the
/// factors of all nodes `j != i` in that range.
pub open spec fn weight(xs: Seq<int>, p: int, i: int, a: int, b: int) -> int
    decreases b - a,
{
    if b <= a {
        1
    } else if b - 1 == i {
        weight(xs, p, i, a, b - 1)
    } else {
        weight(xs, p, i, a, b - 1) * pair_factor(xs, p, i, b - 1)
    }
}

/// The nodes `xs[a..b)` are pairwise distinct modulo `p`.
pub open spec fn distinct_nodes(xs: Seq<int>, p: int, a: int, b: int) -> bool {
    forall|i: int, j: int|
        a <= i < b && a <= j < b && i != j ==> (#[trigger] xs[i] - #[trigger] xs[j]) % p != 0
}

/// A weight may be split off its first factor as well as its last.
proof fn lemma_weight_first(xs: Seq<int>, p: int, i: int, a: int, b: int)
    requires
        a < b,
    ensures
        weight(xs, p, i, a, b) == if a == i {
            weight(xs, p, i, a + 1, b)
        } else {
            weight(xs, p, i, a + 1, b) * pair_factor(xs, p, i, a)
        },
    decreases b - a,
{
    if b - 1 > a {
        lemma_weight_first(xs, p, i, a, b - 1);
        let w = weight(xs, p, i, a + 1, b - 1);
        let fa = pair_factor(xs, p, i, a);
        let fl = pair_factor(xs, p, i, b - 1);
        assert((w * fa) * fl == (w * fl) * fa) by (nonlinear_arith);
    } else {
        assert(weight(xs, p, i, a, a) == 1);
        assert(weight(xs, p, i, a + 1, b) == 1);
        assert(1 * pair_factor(xs, p, i, a) == pair_factor(xs, p, i, a)) by (nonlinear_arith);
    }
}

/// Multiplying the factor of `j` by its denominator leaves its numerator.
proof fn lemma_pair_factor(xs: Seq<int>, p: int, i: int, j: int)
    requires
        is_prime(p),
        (xs[i] - xs[j]) % p != 0,
    ensures
        congruent((xs[i] - xs[j]) * pair_factor(xs, p, i, j), -xs[j], p),
{
    let d = xs[i] - xs[j];
    let inv = fermat_inverse(d, p);
    lemma_fermat_inverse(d, p);
    lemma_small_mod(1, p as nat);
    lemma_congruent_mul(-xs[j], -xs[j], d * inv, 1, p);
    assert(d * ((-xs[j]) * inv) == (-xs[j]) * (d * inv)) by (nonlinear_arith);
    assert((-xs[j]) * 1 == -xs[j]) by (nonlinear_arith);
}

/// How the weight of node `i` changes when the last node `l` joins the range.
proof fn lemma_weight_with_last(xs: Seq<int>, p: int, i: int, a: int, l: int)
    requires
        is_prime(p),
        a <= i < l,
        (xs[i] - xs[l]) % p != 0,
    ensures
        congruent(
            (xs[l] - xs[i]) * weight(xs, p, i, a, l + 1),
            xs[l] * weight(xs, p, i, a, l),
            p,
        ),
{
    let w = weight(xs, p, i, a, l);
    let f = pair_factor(xs, p, i, l);
    let d = xs[i] - xs[l];
    lemma_pair_factor(xs, p, i, l);
    lemma_congruent_mul(-w, -w, d * f, -xs[l], p);
    assert((xs[l] - xs[i]) * (w * f) == (-w) * (d * f)) by (nonlinear_arith)
        requires
            d == xs[i] - xs[l],
    ;
    assert((-w) * (-xs[l]) == xs[l] * w) by (nonlinear_arith);
}

/// How the weight of node `i` changes when the first node `a` joins the range.
proof fn lemma_weight_with_first(xs: Seq<int>, p: int, i: int, a: int, b: int)
    requires
        is_prime(p),
        a < i < b,
        (xs[i] - xs[a]) % p != 0,
    ensures
        congruent(
            (xs[i] - xs[a]) * weight(xs, p, i, a, b),
            (-xs[a]) * weight(xs, p, i, a + 1, b),
            p,
        ),
{
    let w = weight(xs, p, i, a + 1, b);
    let f = pair_factor(xs, p, i, a);
    let d = xs[i] - xs[a];
    lemma_weight_first(xs, p, i, a, b);
    lemma_pair_factor(xs, p, i, a);
    lemma_congruent_mul(w, w, d * f, -xs[a], p);
    assert(d * (w * f) == w * (d * f)) by (nonlinear_arith);
    assert(w * (-xs[a]) == (-xs[a]) * w) by (nonlinear_arith);
}


/// The weights of the nodes `xs[a..b)`, as a function of the node.
pub open spec fn weight_fn(xs: Seq<int>, p: int, a: int, b: int) -> spec_fn(int) -> int {
    |i: int| weight(xs, p, i, a, b)
}

/// The weights of the nodes `xs[a..b)`, each multiplied by the `k`-th power of
/// its node.
pub open spec fn moment_fn(xs: Seq<int>, p: int, k: nat, a: int, b: int) -> spec_fn(int) -> int {
    |i: int| pow(xs[i], k) * weight(xs, p, i, a, b)
}

/// The weights of the nodes `xs[a..b)`, each multiplied by the value of the
/// polynomial `coeffs` at its node.
pub open spec fn value_fn(xs: Seq<int>, p: int, coeffs: Seq<int>, a: int, b: int) -> spec_fn(
    int,
) -> int {
    |i: int| poly_eval(coeffs, xs[i]) * weight(xs, p, i, a, b)
}

/// The weights of at least one node, distinct modulo a prime, add up to one.
proof fn lemma_weights_sum_to_one(xs: Seq<int>, p: int, a: int, b: int)
    requires
        is_prime(p),
        a < b,
        distinct_nodes(xs, p, a, b),
    ensures
        congruent(sum_over(weight_fn(xs, p, a, b), a, b), 1, p),
    decreases b - a,
{
    let w = weight_fn(xs, p, a, b);
    if b - a == 1 {
        assert(sum_over(w, a, a) == 0);
        assert(weight(xs, p, a, a, a) == 1);
    } else {
        let l = b - 1;
        let wa = weight_fn(xs, p, a, l);
        let wb = weight_fn(xs, p, a + 1, b);
        let zero = |i: int| 0int;
        // the weights scaled by the distance to the last and to the first node
        let to_last = |i: int| (xs[l] - xs[i]) * w(i);
        let to_first = |i: int| (xs[i] - xs[a]) * w(i);
        let from_a = |i: int| xs[l] * wa(i);
        let from_b = |i: int| (-xs[a]) * wb(i);

        lemma_weights_sum_to_one(xs, p, a, l);
        lemma_weights_sum_to_one(xs, p, a + 1, b);

        // sum of to_last over [a, b) is congruent to xs[l]
        assert(to_last(l) == 0) by (nonlinear_arith)
            requires
                to_last(l) == (xs[l] - xs[l]) * w(l),
        ;
        assert forall|i: int| a <= i < l implies congruent(#[trigger] to_last(i), from_a(i), p) by {
            assert((xs[i] - xs[l]) % p != 0);
            lemma_weight_with_last(xs, p, i, a, l);
        }
        lemma_sum_congruent(to_last, from_a, a, l, p);
        assert forall|i: int| a <= i < l implies #[trigger] from_a(i) == xs[l] * wa(i) + 0 * zero(
            i,
        ) by {
            assert(0 * zero(i) == 0) by (nonlinear_arith);
        }
        lemma_sum_linear(from_a, wa, zero, xs[l], 0, a, l);
        assert(0 * sum_over(zero, a, l) == 0) by (nonlinear_arith);
        lemma_congruent_mul(xs[l], xs[l], sum_over(wa, a, l), 1, p);
        assert(xs[l] * 1 == xs[l]) by (nonlinear_arith);
        assert(congruent(sum_over(to_last, a, b), xs[l], p));

        // sum of to_first over [a, b) is congruent to -xs[a]
        lemma_sum_first(to_first, a, b);
        assert(to_first(a) == 0) by (nonlinear_arith)
            requires
                to_first(a) == (xs[a] - xs[a]) * w(a),
        ;
        assert forall|i: int| a + 1 <= i < b implies congruent(
            #[trigger] to_first(i),
            from_b(i),
            p,
        ) by {
            assert((xs[i] - xs[a]) % p != 0);
            lemma_weight_with_first(xs, p, i, a, b);
        }
        lemma_sum_congruent(to_first, from_b, a + 1, b, p);
        assert forall|i: int| a + 1 <= i < b implies #[trigger] from_b(i) == (-xs[a]) * wb(i) + 0
            * zero(i) by {
            assert(0 * zero(i) == 0) by (nonlinear_arith);
        }
        lemma_sum_linear(from_b, wb, zero, -xs[a], 0, a + 1, b);
        assert(0 * sum_over(zero, a + 1, b) == 0) by (nonlinear_arith);
        lemma_congruent_mul(-xs[a], -xs[a], sum_over(wb, a + 1, b), 1, p);
        assert((-xs[a]) * 1 == -xs[a]) by (nonlinear_arith);
        assert(congruent(sum_over(to_first, a, b), -xs[a], p));

        // together they are the weights scaled by the distance between both
        let both = |i: int| (xs[l] - xs[a]) * w(i);
        assert forall|i: int| a <= i < b implies #[trigger] both(i) == 1 * to_last(i) + 1
            * to_first(i) by {
            assert((xs[l] - xs[a]) * w(i) == 1 * ((xs[l] - xs[i]) * w(i)) + 1 * ((xs[i] - xs[a])
                * w(i))) by (nonlinear_arith);
        }
        lemma_sum_linear(both, to_last, to_first, 1, 1, a, b);
        assert forall|i: int| a <= i < b implies #[trigger] both(i) == (xs[l] - xs[a]) * w(i) + 0
            * zero(i) by {
            assert(0 * zero(i) == 0) by (nonlinear_arith);
        }
        lemma_sum_linear(both, w, zero, xs[l] - xs[a], 0, a, b);
        assert(0 * sum_over(zero, a, b) == 0) by (nonlinear_arith);
        let total = sum_over(w, a, b);
        let dist = xs[l] - xs[a];
        assert(1 * sum_over(to_last, a, b) + 1 * sum_over(to_first, a, b) == sum_over(
            to_last,
            a,
            b,
        ) + sum_over(to_first, a, b)) by (nonlinear_arith);
        lemma_congruent_add(sum_over(to_last, a, b), xs[l], sum_over(to_first, a, b), -xs[a], p);
        assert(congruent(dist * total, dist, p));
        assert(total * dist == dist * total && 1 * dist == dist) by (nonlinear_arith);
        assert(dist % p != 0);
        lemma_cancel(total, 1, dist, p);
    }
}

/// What the weights of the nodes `xs[a..b)` add up to when each is multiplied
/// by the `k`-th power of its node.
pub open spec fn moment(xs: Seq<int>, p: int, k: nat, a: int, b: int) -> int {
    sum_over(moment_fn(xs, p, k, a, b), a, b)
}

/// Weighted by a power `k` of the nodes below the number of nodes, the weights
/// add up to one for `k = 0` and to zero otherwise.
proof fn lemma_moment(xs: Seq<int>, p: int, k: nat, a: int, b: int)
    requires
        is_prime(p),
        a < b,
        k < b - a,
        distinct_nodes(xs, p, a, b),
    ensures
        congruent(
            moment(xs, p, k, a, b),
            if k == 0 {
                1
            } else {
                0
            },
            p,
        ),
    decreases b - a, k,
{
    let m = moment_fn(xs, p, k, a, b);
    let zero = |i: int| 0int;
    if k == 0 {
        let w = weight_fn(xs, p, a, b);
        assert forall|i: int| a <= i < b implies #[trigger] m(i) == 1 * w(i) + 0 * zero(i) by {
            lemma_pow0(xs[i]);
            assert(1 * w(i) + 0 * zero(i) == 1 * w(i)) by (nonlinear_arith);
        }
        lemma_sum_linear(m, w, zero, 1, 0, a, b);
        assert(1 * sum_over(w, a, b) + 0 * sum_over(zero, a, b) == sum_over(w, a, b))
            by (nonlinear_arith);
        lemma_weights_sum_to_one(xs, p, a, b);
    } else {
        let l = b - 1;
        let k1 = (k - 1) as nat;
        let g = moment_fn(xs, p, k1, a, b);
        let h = moment_fn(xs, p, k1, a, l);
        let split = |i: int| xs[l] * g(i) + (-xs[l]) * h(i);
        lemma_moment(xs, p, k1, a, b);
        lemma_moment(xs, p, k1, a, l);
        assert forall|i: int| a <= i < l implies congruent(#[trigger] m(i), split(i), p) by {
            let q = pow(xs[i], k1);
            let w = weight(xs, p, i, a, b);
            let wa = weight(xs, p, i, a, l);
            lemma_pow_adds(xs[i], 1, k1);
            lemma_pow1(xs[i]);
            assert((xs[i] - xs[l]) % p != 0);
            lemma_weight_with_last(xs, p, i, a, l);
            lemma_congruent_mul((xs[l] - xs[i]) * w, xs[l] * wa, q, q, p);
            lemma_congruent_sub(
                xs[l] * (q * w),
                xs[l] * (q * w),
                ((xs[l] - xs[i]) * w) * q,
                (xs[l] * wa) * q,
                p,
            );
            assert((xs[i] * q) * w == xs[l] * (q * w) - ((xs[l] - xs[i]) * w) * q)
                by (nonlinear_arith);
            assert(xs[l] * (q * w) - (xs[l] * wa) * q == xs[l] * (q * w) + (-xs[l]) * (q * wa))
                by (nonlinear_arith);
        }
        lemma_sum_congruent(m, split, a, l, p);
        lemma_sum_linear(split, g, h, xs[l], -xs[l], a, l);
        // the last node's own term
        assert(m(l) == xs[l] * g(l)) by {
            let q = pow(xs[l], k1);
            let w = weight(xs, p, l, a, b);
            lemma_pow_adds(xs[l], 1, k1);
            lemma_pow1(xs[l]);
            assert((xs[l] * q) * w == xs[l] * (q * w)) by (nonlinear_arith);
        }
        let sg = sum_over(g, a, l);
        let sh = sum_over(h, a, l);
        assert((xs[l] * sg + (-xs[l]) * sh) + xs[l] * g(l) == xs[l] * ((sg + g(l)) - sh))
            by (nonlinear_arith);
        lemma_congruent_rem(m(l), p);
        lemma_congruent_add(sum_over(m, a, l), xs[l] * sg + (-xs[l]) * sh, m(l), m(l), p);
        assert(congruent(moment(xs, p, k, a, b), xs[l] * (moment(xs, p, k1, a, b) - sh), p));
        let e = if k1 == 0 { 1int } else { 0int };
        lemma_congruent_sub(moment(xs, p, k1, a, b), e, sh, e, p);
        lemma_congruent_mul(xs[l], xs[l], moment(xs, p, k1, a, b) - sh, e - e, p);
        assert(xs[l] * (e - e) == 0) by (nonlinear_arith);
    }
}

/// Weighted by the values of a polynomial with no more coefficients than there
/// are nodes, the weights add up to the polynomial's constant term.
proof fn lemma_weighted_values(xs: Seq<int>, p: int, coeffs: Seq<int>, a: int, b: int)
    requires
        is_prime(p),
        a < b,
        1 <= coeffs.len() <= b - a,
        distinct_nodes(xs, p, a, b),
    ensures
        congruent(sum_over(value_fn(xs, p, coeffs, a, b), a, b), coeffs[0], p),
    decreases coeffs.len(),
{
    let v = value_fn(xs, p, coeffs, a, b);
    let zero = |i: int| 0int;
    let n = coeffs.len();
    if n == 1 {
        let w = weight_fn(xs, p, a, b);
        assert forall|i: int| a <= i < b implies #[trigger] v(i) == coeffs[0] * w(i) + 0 * zero(
            i,
        ) by {
            lemma_poly_eval_constant(coeffs, xs[i]);
            assert(coeffs[0] * w(i) + 0 * zero(i) == coeffs[0] * w(i)) by (nonlinear_arith);
        }
        lemma_sum_linear(v, w, zero, coeffs[0], 0, a, b);
        assert(coeffs[0] * sum_over(w, a, b) + 0 * sum_over(zero, a, b) == coeffs[0] * sum_over(
            w,
            a,
            b,
        )) by (nonlinear_arith);
        lemma_weights_sum_to_one(xs, p, a, b);
        lemma_congruent_mul(coeffs[0], coeffs[0], sum_over(w, a, b), 1, p);
        assert(coeffs[0] * 1 == coeffs[0]) by (nonlinear_arith);
    } else {
        let lower = coeffs.drop_last();
        let k = (n - 1) as nat;
        let vl = value_fn(xs, p, lower, a, b);
        let m = moment_fn(xs, p, k, a, b);
        lemma_weighted_values(xs, p, lower, a, b);
        lemma_moment(xs, p, k, a, b);
        assert forall|i: int| a <= i < b implies #[trigger] v(i) == 1 * vl(i) + coeffs.last() * m(
            i,
        ) by {
            let w = weight(xs, p, i, a, b);
            let y = poly_eval(lower, xs[i]);
            let q = pow(xs[i], k);
            assert((y + coeffs.last() * q) * w == 1 * (y * w) + coeffs.last() * (q * w))
                by (nonlinear_arith);
        }
        lemma_sum_linear(v, vl, m, 1, coeffs.last(), a, b);
        assert(1 * sum_over(vl, a, b) == sum_over(vl, a, b)) by (nonlinear_arith);
        lemma_congruent_mul(coeffs.last(), coeffs.last(), sum_over(m, a, b), 0, p);
        assert(coeffs.last() * 0 == 0) by (nonlinear_arith);
        lemma_congruent_add(
            sum_over(vl, a, b),
            lower[0],
            coeffs.last() * sum_over(m, a, b),
            0,
            p,
        );
    }
}


/// Inverting a product by a power is inverting its factors.
proof fn lemma_inverse_of_product(x: int, y: int, p: int)
    requires
        p >= 2,
    ensures
        congruent(fermat_inverse(x * y, p), fermat_inverse(x, p) * fermat_inverse(y, p), p),
{
    let e = (p - 2) as nat;
    lemma_pow_distributes(x, y, e);
    lemma_congruent_rem(pow(x * y, e), p);
    lemma_congruent_rem(pow(x, e), p);
    lemma_congruent_rem(pow(y, e), p);
    lemma_congruent_mul(pow(x, e) % p, pow(x, e), pow(y, e) % p, pow(y, e), p);
}

/// The quotient of a node's basis numerator by its basis denominator is the
/// node's weight among the first `n` nodes.
proof fn lemma_basis_is_weight(xs: Seq<int>, p: int, i: int, n: nat)
    requires
        p >= 2,
    ensures
        congruent(
            basis_numerator(xs, i, n) * fermat_inverse(basis_denominator(xs, i, n), p),
            weight(xs, p, i, 0, n as int),
            p,
        ),
    decreases n,
{
    if n == 0 {
        lemma1_pow((p - 2) as nat);
        lemma_small_mod(1, p as nat);
        assert(1 * 1 == 1) by (nonlinear_arith);
    } else {
        let prev = (n - 1) as nat;
        lemma_basis_is_weight(xs, p, i, prev);
        if n - 1 != i {
            let num = basis_numerator(xs, i, prev);
            let den = basis_denominator(xs, i, prev);
            let d = xs[i] - xs[n - 1];
            let x = -xs[n - 1];
            let w = weight(xs, p, i, 0, prev as int);
            lemma_inverse_of_product(den, d, p);
            lemma_congruent_mul(
                num * x,
                num * x,
                fermat_inverse(den * d, p),
                fermat_inverse(den, p) * fermat_inverse(d, p),
                p,
            );
            assert((num * x) * (fermat_inverse(den, p) * fermat_inverse(d, p)) == (num
                * fermat_inverse(den, p)) * (x * fermat_inverse(d, p))) by (nonlinear_arith);
            lemma_congruent_mul(
                num * fermat_inverse(den, p),
                w,
                x * fermat_inverse(d, p),
                x * fermat_inverse(d, p),
                p,
            );
        }
    }
}

/// The contributions of the first `t` nodes, as a function of the node.
pub open spec fn term_fn(xs: Seq<int>, ys: Seq<int>, t: nat, p: int) -> spec_fn(int) -> int {
    |i: int| lagrange_term(xs, ys, i, t, p)
}

/// The sum of the contributions is a sum over the nodes.
proof fn lemma_lagrange_sum_is_sum(xs: Seq<int>, ys: Seq<int>, t: nat, p: int, n: nat)
    ensures
        lagrange_sum(xs, ys, t, p, n) == sum_over(term_fn(xs, ys, t, p), 0, n as int),
    decreases n,
{
    if n > 0 {
        lemma_lagrange_sum_is_sum(xs, ys, t, p, (n - 1) as nat);
    }
}

/// Lagrange interpolation at zero recovers the constant term: if `p` is prime,
/// the first `t >= 1` nodes are pairwise distinct modulo `p`, and each value
/// `ys[i]` is congruent to the value at `xs[i]` of a polynomial with at most
/// `t` coefficients, then the interpolated value is that polynomial's value at
/// zero, which is its constant term, modulo `p`.
pub proof fn lemma_interpolation_recovers_constant(
    xs: Seq<int>,
    ys: Seq<int>,
    coeffs: Seq<int>,
    t: nat,
    p: int,
)
    requires
        is_prime(p),
        1 <= coeffs.len() <= t,
        distinct_nodes(xs, p, 0, t as int),
        forall|i: int| 0 <= i < t ==> congruent(#[trigger] ys[i], poly_eval(coeffs, xs[i]), p),
    ensures
        interpolate_at_zero(xs, ys, t, p) == poly_eval(coeffs, 0) % p,
        interpolate_at_zero(xs, ys, t, p) == coeffs[0] % p,
{
    lemma_poly_eval_at_zero(coeffs);
    let terms = term_fn(xs, ys, t, p);
    let values = value_fn(xs, p, coeffs, 0, t as int);
    assert forall|i: int| 0 <= i < t implies congruent(#[trigger] terms(i), values(i), p) by {
        lemma_basis_is_weight(xs, p, i, t);
        lemma_congruent_mul(
            ys[i],
            poly_eval(coeffs, xs[i]),
            basis_numerator(xs, i, t) * fermat_inverse(basis_denominator(xs, i, t), p),
            weight(xs, p, i, 0, t as int),
            p,
        );
    }
    lemma_sum_congruent(terms, values, 0, t as int, p);
    lemma_lagrange_sum_is_sum(xs, ys, t, p, t);
    lemma_weighted_values(xs, p, coeffs, 0, t as int);
}

} // verus!
