use crate::generator_laws::lemma_pigeonhole;
use crate::modular::{
    eqm, is_inverse, is_unit, lemma_eqm_canonical, lemma_eqm_mod, lemma_eqm_mul,
    lemma_eqm_refl, lemma_eqm_same_mod, lemma_eqm_sym, lemma_eqm_trans, lemma_multiple_mod,
    lemma_pow_unfold, lemma_same_mod_eqm, lemma_unit_no_zero_divisor, unit_inverse,
};
use crate::prime_field::{gf_inv, gf_mul};
use vstd::arithmetic::div_mod::*;
use vstd::arithmetic::power::*;
use vstd::prelude::*;

verus! {

/// `p` is a prime number.
pub open spec fn is_prime(p: int) -> bool {
    p >= 2 && forall|d: int| 1 < d < p ==> #[trigger] (p % d) != 0
}

/// Modulo a prime every residue but zero has an inverse.
pub proof fn lemma_prime_unit(p: int, x: int)
    requires
        is_prime(p),
        0 < x < p,
    ensures
        is_unit(p, x),
    decreases x,
{
    if x == 1 {
        assert(1int * 1int == 1);
        lemma_small_mod(1, p as nat);
        assert(is_inverse(p, x, 1));
    } else {
        let q = p / x;
        let r = p % x;
        lemma_fundamental_div_mod(p, x);
        lemma_mod_bound(p, x);
        assert(r != 0);
        lemma_prime_unit(p, r);
        let kr = unit_inverse(p, r);
        assert(is_inverse(p, r, kr));
        let k = (-(kr * q)) % p;
        lemma_mod_bound(-(kr * q), p);
        // k * x == -kr * q * x == kr * (r - p) == kr * r == 1
        lemma_eqm_mod(p, -(kr * q));
        lemma_eqm_refl(p, x);
        lemma_eqm_mul(p, k, -(kr * q), x, x);
        assert((-(kr * q)) * x == kr * r - kr * p) by (nonlinear_arith)
            requires
                p == x * q + r,
        ;
        lemma_multiple_mod(p, kr);
        assert(eqm(p, kr * r - kr * p, kr * r)) by {
            assert((kr * r - kr * p) - kr * r == (-kr) * p) by (nonlinear_arith);
            lemma_multiple_mod(p, -kr);
        }
        lemma_eqm_mod(p, kr * r);
        lemma_eqm_trans(p, k * x, kr * r - kr * p, kr * r);
        lemma_eqm_trans(p, k * x, kr * r, 1);
        lemma_eqm_same_mod(p, k * x, 1);
        lemma_small_mod(1, p as nat);
        if k == 0 {
            assert(0 * x == 0);
            lemma_small_mod(0, p as nat);
        }
        assert(is_inverse(p, x, k));
    }
}

/// The product of the entries of a sequence.
pub open spec fn seq_prod(s: Seq<int>) -> int
    decreases s.len(),
{
    if s.len() == 0 {
        1
    } else {
        seq_prod(s.drop_last()) * s.last()
    }
}

/// The product `1 * 2 * ... * n`.
pub open spec fn factorial(n: nat) -> int
    decreases n,
{
    if n == 0 {
        1
    } else {
        n * factorial((n - 1) as nat)
    }
}

/// Any entry can be taken out of a product first.
proof fn lemma_prod_remove(s: Seq<int>, j: int)
    requires
        0 <= j < s.len(),
    ensures
        seq_prod(s) == s[j] * seq_prod(s.remove(j)),
    decreases s.len(),
{
    let front = s.drop_last();
    if j == s.len() - 1 {
        assert(s.remove(j) =~= front);
        assert(seq_prod(front) * s.last() == s.last() * seq_prod(front)) by (nonlinear_arith);
    } else {
        lemma_prod_remove(front, j);
        let rest = s.remove(j);
        assert(rest.drop_last() =~= front.remove(j));
        assert(rest.last() == s.last());
        let x = seq_prod(front.remove(j));
        assert((s[j] * x) * s.last() == s[j] * (x * s.last())) by (nonlinear_arith);
    }
}

/// The product of the numbers `1 .. n` in any order is `n!`.
proof fn lemma_permutation_prod(s: Seq<int>, n: nat)
    requires
        s.len() == n,
        forall|i: int| 0 <= i < n ==> 1 <= #[trigger] s[i] <= n,
        forall|i: int, j: int| 0 <= i < n && 0 <= j < n && #[trigger] s[i] == #[trigger] s[j] ==> i == j,
    ensures
        seq_prod(s) == factorial(n),
    decreases n,
{
    if n > 0 {
        let shifted = |i: int| s[i] - 1;
        assert forall|i: int| 0 <= i < n implies 0 <= #[trigger] shifted(i) < n by {
            assert(1 <= s[i] <= n);
        }
        assert forall|i: int, j: int|
            0 <= i < n && 0 <= j < n && #[trigger] shifted(i) == #[trigger] shifted(j) implies i
            == j by {
            assert(s[i] == s[j]);
        }
        let j = lemma_pigeonhole(0, n as int, shifted, n - 1);
        assert(s[j] == n);
        let rest = s.remove(j);
        assert forall|i: int| 0 <= i < n - 1 implies 1 <= #[trigger] rest[i] <= n - 1 by {
            let k = if i < j {
                i
            } else {
                i + 1
            };
            assert(rest[i] == s[k]);
            assert(1 <= s[k] <= n);
            if s[k] == n {
                assert(s[k] == s[j]);
            }
        }
        assert forall|a: int, b: int|
            0 <= a < n - 1 && 0 <= b < n - 1 && #[trigger] rest[a] == #[trigger] rest[b] implies a
            == b by {
            let ka = if a < j {
                a
            } else {
                a + 1
            };
            let kb = if b < j {
                b
            } else {
                b + 1
            };
            assert(rest[a] == s[ka] && rest[b] == s[kb]);
        }
        lemma_permutation_prod(rest, (n - 1) as nat);
        lemma_prod_remove(s, j);
    }
}

/// The residues of `a * 1, a * 2, ..., a * n` modulo `p`.
spec fn multiples(p: int, a: int, n: nat) -> Seq<int> {
    Seq::new(n, |i: int| (a * (i + 1)) % p)
}

/// The product of the first `n` multiples of `a` is `a^n * n!`, up to a
/// multiple of `p`.
proof fn lemma_multiples_prod(p: int, a: int, n: nat)
    requires
        p > 0,
    ensures
        eqm(p, seq_prod(multiples(p, a, n)), pow(a, n) * factorial(n)),
    decreases n,
{
    if n == 0 {
        lemma_pow0(a);
        assert(1int * 1int == 1);
        lemma_eqm_refl(p, 1);
    } else {
        let m = (n - 1) as nat;
        let s = multiples(p, a, n);
        lemma_multiples_prod(p, a, m);
        assert(s.drop_last() =~= multiples(p, a, m));
        assert(s.last() == (a * n) % p);
        lemma_eqm_mod(p, a * n);
        lemma_eqm_mul(p, seq_prod(multiples(p, a, m)), pow(a, m) * factorial(m), s.last(), a * n);
        lemma_pow_unfold(a, n);
        let x = pow(a, m);
        let y = factorial(m);
        assert((x * y) * (a * n) == (a * x) * (n * y)) by (nonlinear_arith);
    }
}

/// Modulo a prime the multiples of a unit are the numbers `1 .. p - 1` in
/// another order.
proof fn lemma_multiples_permute(p: int, a: int)
    requires
        is_prime(p),
        0 < a < p,
    ensures
        seq_prod(multiples(p, a, (p - 1) as nat)) == factorial((p - 1) as nat),
{
    let n = (p - 1) as nat;
    let s = multiples(p, a, n);
    lemma_prime_unit(p, a);
    assert forall|i: int| 0 <= i < n implies 1 <= #[trigger] s[i] <= n by {
        lemma_mod_bound(a * (i + 1), p);
        if s[i] == 0 {
            lemma_small_mod(0, p as nat);
            lemma_same_mod_eqm(p, a * (i + 1), 0);
            assert(a * (i + 1) == (i + 1) * a) by (nonlinear_arith);
            lemma_unit_no_zero_divisor(p, a, i + 1);
            lemma_eqm_canonical(p, i + 1, 0);
        }
    }
    assert forall|i: int, j: int|
        0 <= i < n && 0 <= j < n && #[trigger] s[i] == #[trigger] s[j] implies i == j by {
        lemma_same_mod_eqm(p, a * (i + 1), a * (j + 1));
        assert(a * (i + 1) - a * (j + 1) == (i - j) * a) by (nonlinear_arith);
        assert(eqm(p, (i - j) * a, 0));
        lemma_unit_no_zero_divisor(p, a, i - j);
        assert(eqm(p, i + 1, j + 1));
        lemma_eqm_canonical(p, i + 1, j + 1);
    }
    lemma_permutation_prod(s, n);
}

/// Modulo a prime `n!` is no zero divisor for `n < p`.
proof fn lemma_factorial_cancels(p: int, n: nat, x: int)
    requires
        is_prime(p),
        n < p,
        eqm(p, factorial(n) * x, 0),
    ensures
        eqm(p, x, 0),
    decreases n,
{
    if n == 0 {
        assert(1 * x == x);
    } else {
        let m = (n - 1) as nat;
        lemma_prime_unit(p, n as int);
        assert(factorial(n) * x == (factorial(m) * x) * n) by (nonlinear_arith)
            requires
                factorial(n) == n * factorial(m),
        ;
        lemma_unit_no_zero_divisor(p, n as int, factorial(m) * x);
        lemma_factorial_cancels(p, m, x);
    }
}

/// Fermat's little theorem: modulo a prime `p` the power `a^(p-1)` of a
/// residue that is not zero is one.
pub proof fn lemma_fermat_little(p: int, a: int)
    requires
        is_prime(p),
        0 < a < p,
    ensures
        pow(a, (p - 1) as nat) % p == 1,
{
    let n = (p - 1) as nat;
    let fact = factorial(n);
    let power = pow(a, n);
    lemma_multiples_permute(p, a);
    lemma_multiples_prod(p, a, n);
    // n! == a^n * n!, so n! * (a^n - 1) == 0
    assert(eqm(p, fact, power * fact));
    assert(fact * (power - 1) == power * fact - fact) by (nonlinear_arith);
    lemma_eqm_sym(p, fact, power * fact);
    lemma_factorial_cancels(p, n, power - 1);
    lemma_eqm_same_mod(p, power, 1);
    lemma_small_mod(1, p as nat);
}

/// In a prime field every element but zero times its inverse is one.
pub proof fn lemma_inverse_law(p: int, a: int)
    requires
        is_prime(p),
        0 < a < p,
    ensures
        gf_mul(p, a, gf_inv(p, a)) == 1,
{
    let e = (p - 2) as nat;
    lemma_fermat_little(p, a);
    lemma_pow_unfold(a, (p - 1) as nat);
    lemma_mul_mod_noop_right(a, pow(a, e), p);
}

} // verus!
