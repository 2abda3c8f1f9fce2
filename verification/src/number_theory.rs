//! Primes: Euclid's lemma, cancellation modulo a prime, and Fermat's little
//! theorem, from which the inverse modulo a prime is a power.

use crate::interpolation::fermat_inverse;
use crate::modular::{congruent, lemma_congruent_mul, lemma_congruent_rem};
use vstd::arithmetic::div_mod::{
    lemma_fundamental_div_mod, lemma_mod_bound, lemma_mod_equivalence,
    lemma_mod_multiples_vanish, lemma_mul_mod_noop_general, lemma_small_mod,
};
use vstd::arithmetic::power::{lemma_pow1, lemma_pow_adds, pow};
use vstd::prelude::*;
use vstd::set_lib::{lemma_int_range, lemma_len_subset, set_int_range};

verus! {

/// `p` is a prime number: at least two, with no divisor strictly between one
/// and itself.
pub open spec fn is_prime(p: int) -> bool {
    &&& p >= 2
    &&& forall|d: int| 1 < d < p ==> #[trigger] (p % d) != 0
}

/// Euclid's lemma for a non-negative factor: a prime that divides `a * b` but
/// not `b` divides `a`.
pub proof fn lemma_prime_divides_factor(a: nat, b: int, p: int)
    requires
        is_prime(p),
        (a * b) % p == 0,
        b % p != 0,
    ensures
        a % (p as nat) == 0,
    decreases a,
{
    if a == 0 {
    } else if a >= p {
        let a1 = (a - p) as nat;
        assert(a1 * b == p * (-b) + a * b) by (nonlinear_arith)
            requires
                a1 == a - p,
        ;
        lemma_mod_multiples_vanish(-b, a * b, p);
        lemma_prime_divides_factor(a1, b, p);
        lemma_mod_multiples_vanish(1, a1 as int, p);
        assert(p * 1 + a1 == a);
    } else {
        // 0 < a < p: divide p by a and descend to the remainder
        let a0 = a as int;
        let q = p / a0;
        let r = p % a0;
        lemma_fundamental_div_mod(p, a0);
        lemma_mod_bound(p, a0);
        lemma_fundamental_div_mod(a0 * b, p);
        let m = (a0 * b) / p;
        assert(r * b == p * (b - q * m)) by (nonlinear_arith)
            requires
                p == a0 * q + r,
                a0 * b == p * m,
        ;
        lemma_mod_multiples_vanish(b - q * m, 0, p);
        assert(0int % p == 0) by {
            lemma_small_mod(0, p as nat);
        }
        lemma_prime_divides_factor(r as nat, b, p);
        lemma_small_mod(r as nat, p as nat);
        assert(r == 0);
        if a0 > 1 {
            assert(p % a0 != 0);
        } else {
            assert(a0 * b == b) by (nonlinear_arith)
                requires
                    a0 == 1,
            ;
        }
        assert(false);
    }
}

/// Euclid's lemma: a prime that divides a product divides one of the factors.
pub proof fn lemma_prime_divides_product(a: int, b: int, p: int)
    requires
        is_prime(p),
        (a * b) % p == 0,
    ensures
        a % p == 0 || b % p == 0,
{
    if b % p != 0 {
        let r = a % p;
        lemma_mod_bound(a, p);
        lemma_mul_mod_noop_general(a, b, p);
        lemma_prime_divides_factor(r as nat, b, p);
        lemma_small_mod(r as nat, p as nat);
    }
}

/// Modulo a prime, a factor that the prime does not divide can be cancelled.
pub proof fn lemma_cancel(a: int, b: int, c: int, p: int)
    requires
        is_prime(p),
        c % p != 0,
        congruent(a * c, b * c, p),
    ensures
        congruent(a, b, p),
{
    lemma_mod_equivalence(a * c, b * c, p);
    assert((a - b) * c == a * c - b * c) by (nonlinear_arith);
    lemma_prime_divides_product(a - b, c, p);
    lemma_mod_equivalence(a, b, p);
}


/// The product `1 * 2 * ... * n`.
pub open spec fn factorial(n: nat) -> int
    decreases n,
{
    if n == 0 {
        1
    } else {
        factorial((n - 1) as nat) * n
    }
}

/// The product of all elements of `s`.
pub open spec fn seq_product(s: Seq<int>) -> int
    decreases s.len(),
{
    if s.len() == 0 {
        1
    } else {
        seq_product(s.drop_last()) * s.last()
    }
}

/// The residues modulo `p` of `a * 1, a * 2, ..., a * m`.
pub open spec fn multiples(a: int, p: int, m: nat) -> Seq<int> {
    Seq::new(m, |k: int| (a * (k + 1)) % p)
}

/// Taking one element out of a sequence divides its product by that element.
proof fn lemma_product_remove(s: Seq<int>, j: int)
    requires
        0 <= j < s.len(),
    ensures
        seq_product(s) == s[j] * seq_product(s.remove(j)),
    decreases s.len(),
{
    if j == s.len() - 1 {
        assert(s.remove(j) =~= s.drop_last());
        assert(seq_product(s.drop_last()) * s.last() == s.last() * seq_product(s.drop_last()))
            by (nonlinear_arith);
    } else {
        let rest = s.drop_last();
        lemma_product_remove(rest, j);
        assert(rest.remove(j) =~= s.remove(j).drop_last());
        assert(s.remove(j).last() == s.last());
        let r = seq_product(rest.remove(j));
        assert((s[j] * r) * s.last() == s[j] * (r * s.last())) by (nonlinear_arith);
    }
}

/// Among `m >= 1` distinct numbers in `[1, m]`, one is `m`.
proof fn lemma_largest_occurs(s: Seq<int>, m: nat)
    requires
        m >= 1,
        s.len() == m,
        s.no_duplicates(),
        forall|k: int| 0 <= k < m ==> 1 <= #[trigger] s[k] <= m,
    ensures
        exists|j: int| 0 <= j < m && s[j] == m,
{
    if !(exists|j: int| 0 <= j < m && s[j] == m) {
        let below = set_int_range(1, m as int);
        lemma_int_range(1, m as int);
        assert(s.to_set().subset_of(below)) by {
            assert forall|v: int| s.to_set().contains(v) implies below.contains(v) by {
                let k = choose|k: int| 0 <= k < s.len() && s[k] == v;
                assert(1 <= s[k] <= m);
            }
        }
        lemma_len_subset(s.to_set(), below);
        s.unique_seq_to_set();
        assert(false);
    }
}

/// The product of `m` distinct numbers in `[1, m]` is `m!`: they are the
/// numbers `1..=m` in some order.
proof fn lemma_product_of_arrangement(s: Seq<int>, m: nat)
    requires
        s.len() == m,
        s.no_duplicates(),
        forall|k: int| 0 <= k < m ==> 1 <= #[trigger] s[k] <= m,
    ensures
        seq_product(s) == factorial(m),
    decreases m,
{
    if m > 0 {
        lemma_largest_occurs(s, m);
        let j = choose|j: int| 0 <= j < m && s[j] == m;
        let rest = s.remove(j);
        assert(rest.no_duplicates()) by {
            assert forall|x: int, y: int|
                0 <= x < rest.len() && 0 <= y < rest.len() && x != y implies rest[x] != rest[y] by {
                let x0 = if x < j { x } else { x + 1 };
                let y0 = if y < j { y } else { y + 1 };
                assert(rest[x] == s[x0] && rest[y] == s[y0]);
            }
        }
        assert forall|k: int| 0 <= k < m - 1 implies 1 <= #[trigger] rest[k] <= m - 1 by {
            let k0 = if k < j { k } else { k + 1 };
            assert(rest[k] == s[k0]);
            assert(s[k0] != s[j]);
        }
        lemma_product_of_arrangement(rest, (m - 1) as nat);
        lemma_product_remove(s, j);
        assert(m * factorial((m - 1) as nat) == factorial((m - 1) as nat) * m)
            by (nonlinear_arith);
    }
}

/// No factorial below a prime is divisible by it.
proof fn lemma_factorial_coprime(m: nat, p: int)
    requires
        is_prime(p),
        m < p,
    ensures
        factorial(m) % p != 0,
    decreases m,
{
    if m == 0 {
        lemma_small_mod(1, p as nat);
    } else {
        lemma_factorial_coprime((m - 1) as nat, p);
        lemma_small_mod(m, p as nat);
        if factorial(m) % p == 0 {
            lemma_prime_divides_product(factorial((m - 1) as nat), m as int, p);
        }
    }
}

/// The product of the residues of `a * 1, ..., a * m` is congruent to
/// `a^m * m!`.
proof fn lemma_multiples_product(a: int, p: int, m: nat)
    requires
        p > 0,
    ensures
        congruent(seq_product(multiples(a, p, m)), pow(a, m) * factorial(m), p),
    decreases m,
{
    if m == 0 {
        assert(pow(a, 0) * factorial(0) == 1) by {
            reveal(pow);
        }
    } else {
        let prev = (m - 1) as nat;
        lemma_multiples_product(a, p, prev);
        assert(multiples(a, p, m).drop_last() =~= multiples(a, p, prev));
        assert(multiples(a, p, m).last() == (a * m) % p);
        lemma_congruent_rem(a * m, p);
        lemma_congruent_mul(
            seq_product(multiples(a, p, prev)),
            pow(a, prev) * factorial(prev),
            (a * m) % p,
            a * m,
            p,
        );
        lemma_pow_adds(a, prev, 1);
        lemma_pow1(a);
        let x = pow(a, prev);
        let f = factorial(prev);
        assert((x * f) * (a * m) == (x * a) * (f * m)) by (nonlinear_arith);
    }
}

/// Modulo a prime `p` that does not divide `a`, the residues of
/// `a * 1, ..., a * (p - 1)` are distinct and lie in `[1, p - 1]`.
proof fn lemma_multiples_arrangement(a: int, p: int)
    requires
        is_prime(p),
        a % p != 0,
    ensures
        multiples(a, p, (p - 1) as nat).no_duplicates(),
        forall|k: int|
            0 <= k < p - 1 ==> 1 <= #[trigger] multiples(a, p, (p - 1) as nat)[k] <= p - 1,
{
    let s = multiples(a, p, (p - 1) as nat);
    assert forall|k: int| 0 <= k < p - 1 implies 1 <= #[trigger] s[k] <= p - 1 by {
        lemma_mod_bound(a * (k + 1), p);
        if s[k] == 0 {
            lemma_prime_divides_product(a, k + 1, p);
            lemma_small_mod((k + 1) as nat, p as nat);
        }
    }
    assert forall|x: int, y: int|
        0 <= x < s.len() && 0 <= y < s.len() && x != y implies s[x] != s[y] by {
        if s[x] == s[y] {
            assert((x + 1) * a == a * (x + 1) && (y + 1) * a == a * (y + 1)) by (nonlinear_arith);
            lemma_cancel(x + 1, y + 1, a, p);
            lemma_small_mod((x + 1) as nat, p as nat);
            lemma_small_mod((y + 1) as nat, p as nat);
        }
    }
}

/// Fermat's little theorem: for a prime `p` that does not divide `a`,
/// `a^(p-1)` is congruent to one.
pub proof fn lemma_fermat(a: int, p: int)
    requires
        is_prime(p),
        a % p != 0,
    ensures
        pow(a, (p - 1) as nat) % p == 1,
{
    let m = (p - 1) as nat;
    let s = multiples(a, p, m);
    let f = factorial(m);
    lemma_multiples_arrangement(a, p);
    lemma_product_of_arrangement(s, m);
    lemma_multiples_product(a, p, m);
    lemma_factorial_coprime(m, p);
    assert(1 * f == f) by (nonlinear_arith);
    lemma_cancel(1, pow(a, m), f, p);
    lemma_small_mod(1, p as nat);
}

/// For a prime `p` that does not divide `d`, the power `d^(p-2) mod p` is the
/// inverse of `d` modulo `p`.
pub proof fn lemma_fermat_inverse(d: int, p: int)
    requires
        is_prime(p),
        d % p != 0,
    ensures
        (d * fermat_inverse(d, p)) % p == 1,
        0 <= fermat_inverse(d, p) < p,
{
    let e = (p - 2) as nat;
    lemma_fermat(d, p);
    lemma_pow_adds(d, 1, e);
    lemma_pow1(d);
    lemma_mul_mod_noop_general(d, pow(d, e), p);
    lemma_mod_bound(pow(d, e), p);
}

} // verus!
