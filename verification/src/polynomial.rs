//! Polynomials with integer coefficients, given by their coefficient sequence
//! in ascending order of degree, and the shares such a polynomial determines.

use vstd::arithmetic::power::*;
use vstd::prelude::*;

verus! {

/// The value at `x` of the polynomial with coefficients `coeffs`: the sum of
/// `coeffs[k] * x^k` over all `k`.
pub open spec fn poly_eval(coeffs: Seq<int>, x: int) -> int
    decreases coeffs.len(),
{
    if coeffs.len() == 0 {
        0
    } else {
        poly_eval(coeffs.drop_last(), x) + coeffs.last() * pow(x, (coeffs.len() - 1) as nat)
    }
}

/// The shares that the polynomial `coeffs` determines for `n` participants:
/// participant `i`, counted from one, holds the polynomial's value at `i`.
pub open spec fn shares_of(coeffs: Seq<int>, n: nat) -> Seq<(int, int)> {
    Seq::new(n, |k: int| (k + 1, poly_eval(coeffs, k + 1)))
}

/// `coeffs` is a sharing polynomial for threshold `t`, modulus `p` and constant
/// term `secret`: it has `t >= 1` coefficients, the first is the secret, and
/// every other coefficient lies in `[1, p)`.
pub open spec fn is_sharing_polynomial(coeffs: Seq<int>, t: nat, p: int, secret: int) -> bool {
    &&& t >= 1
    &&& coeffs.len() == t
    &&& coeffs[0] == secret
    &&& forall|k: int| 1 <= k < t ==> 1 <= #[trigger] coeffs[k] < p
}

/// The indices of `shares` are `1, 2, ..., n` in this order; in particular they
/// are pairwise distinct and lie in `[1, n]`.
pub open spec fn indexed_one_to(shares: Seq<(int, int)>, n: nat) -> bool {
    &&& shares.len() == n
    &&& forall|k: int| 0 <= k < n ==> (#[trigger] shares[k]).0 == k + 1
}

/// The indices of `shares` are pairwise distinct and lie in `[1, n]`.
pub open spec fn distinct_indices_within(shares: Seq<(int, int)>, n: nat) -> bool {
    &&& forall|k: int| 0 <= k < shares.len() ==> 1 <= (#[trigger] shares[k]).0 <= n
    &&& forall|j: int, k: int|
        0 <= j < k < shares.len() ==> (#[trigger] shares[j]).0 != (#[trigger] shares[k]).0
}

/// Evaluating one coefficient more adds that coefficient's term.
pub proof fn lemma_poly_eval_step(coeffs: Seq<int>, k: int, x: int)
    requires
        0 <= k < coeffs.len(),
    ensures
        poly_eval(coeffs.take(k + 1), x) == poly_eval(coeffs.take(k), x) + coeffs[k] * pow(
            x,
            k as nat,
        ),
{
    assert(coeffs.take(k + 1).drop_last() =~= coeffs.take(k));
}

/// A polynomial without coefficients beyond the constant one is constant.
pub proof fn lemma_poly_eval_constant(coeffs: Seq<int>, x: int)
    requires
        coeffs.len() == 1,
    ensures
        poly_eval(coeffs, x) == coeffs[0],
{
    reveal_with_fuel(poly_eval, 2);
    lemma_pow0(x);
}

/// At zero a polynomial takes the value of its constant coefficient.
pub proof fn lemma_poly_eval_at_zero(coeffs: Seq<int>)
    requires
        coeffs.len() >= 1,
    ensures
        poly_eval(coeffs, 0) == coeffs[0],
    decreases coeffs.len(),
{
    if coeffs.len() == 1 {
        lemma_poly_eval_constant(coeffs, 0);
    } else {
        lemma_poly_eval_at_zero(coeffs.drop_last());
        lemma0_pow((coeffs.len() - 1) as nat);
    }
}

/// The shares of a polynomial carry the indices `1..=n`, which are distinct.
pub proof fn lemma_shares_of_indices(coeffs: Seq<int>, n: nat)
    ensures
        indexed_one_to(shares_of(coeffs, n), n),
        distinct_indices_within(shares_of(coeffs, n), n),
{
}

} // verus!
