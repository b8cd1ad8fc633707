use vstd::arithmetic::div_mod::*;
use vstd::arithmetic::mul::*;
use vstd::arithmetic::power::*;
use vstd::prelude::*;

verus! {

/// One step of the definition of a power.
pub proof fn lemma_pow_unfold(b: int, e: nat)
    requires
        e > 0,
    ensures
        pow(b, e) == b * pow(b, (e - 1) as nat),
{
    reveal(pow);
}

/// `x` and `y` are congruent modulo `p`.
pub open spec fn eqm(p: int, x: int, y: int) -> bool {
    (x - y) % p == 0
}

/// A multiple of `p` leaves no remainder.
pub proof fn lemma_multiple_mod(p: int, k: int)
    requires
        p > 0,
    ensures
        (k * p) % p == 0,
        (p * k) % p == 0,
{
    lemma_mod_multiples_basic(k, p);
    lemma_mul_is_commutative(k, p);
}

/// A number that leaves no remainder is a multiple of `p`.
pub proof fn lemma_mod_zero_multiple(p: int, x: int) -> (k: int)
    requires
        p > 0,
        x % p == 0,
    ensures
        x == k * p,
{
    lemma_fundamental_div_mod(x, p);
    lemma_mul_is_commutative(p, x / p);
    x / p
}

/// Every number is congruent to itself.
pub proof fn lemma_eqm_refl(p: int, x: int)
    requires
        p > 0,
    ensures
        eqm(p, x, x),
{
    lemma_multiple_mod(p, 0);
}

/// Congruence does not depend on the order of the two numbers.
pub proof fn lemma_eqm_sym(p: int, x: int, y: int)
    requires
        p > 0,
        eqm(p, x, y),
    ensures
        eqm(p, y, x),
{
    let k = lemma_mod_zero_multiple(p, x - y);
    lemma_multiple_mod(p, -k);
    assert(y - x == (-k) * p) by (nonlinear_arith)
        requires
            x - y == k * p,
    ;
}

/// Two numbers congruent to a third are congruent to each other.
pub proof fn lemma_eqm_trans(p: int, x: int, y: int, z: int)
    requires
        p > 0,
        eqm(p, x, y),
        eqm(p, y, z),
    ensures
        eqm(p, x, z),
{
    let k = lemma_mod_zero_multiple(p, x - y);
    let l = lemma_mod_zero_multiple(p, y - z);
    lemma_multiple_mod(p, k + l);
    assert(x - z == (k + l) * p) by (nonlinear_arith)
        requires
            x - y == k * p,
            y - z == l * p,
    ;
}

/// Sums and differences of congruent numbers are congruent.
pub proof fn lemma_eqm_add(p: int, x: int, x2: int, y: int, y2: int)
    requires
        p > 0,
        eqm(p, x, x2),
        eqm(p, y, y2),
    ensures
        eqm(p, x + y, x2 + y2),
        eqm(p, x - y, x2 - y2),
{
    let k = lemma_mod_zero_multiple(p, x - x2);
    let l = lemma_mod_zero_multiple(p, y - y2);
    lemma_multiple_mod(p, k + l);
    lemma_multiple_mod(p, k - l);
    assert((x + y) - (x2 + y2) == (k + l) * p) by (nonlinear_arith)
        requires
            x - x2 == k * p,
            y - y2 == l * p,
    ;
    assert((x - y) - (x2 - y2) == (k - l) * p) by (nonlinear_arith)
        requires
            x - x2 == k * p,
            y - y2 == l * p,
    ;
}

/// Products of congruent numbers are congruent.
pub proof fn lemma_eqm_mul(p: int, x: int, x2: int, y: int, y2: int)
    requires
        p > 0,
        eqm(p, x, x2),
        eqm(p, y, y2),
    ensures
        eqm(p, x * y, x2 * y2),
{
    let k = lemma_mod_zero_multiple(p, x - x2);
    let l = lemma_mod_zero_multiple(p, y - y2);
    lemma_multiple_mod(p, k * y + x2 * l);
    assert(x * y - x2 * y2 == (k * y + x2 * l) * p) by (nonlinear_arith)
        requires
            x - x2 == k * p,
            y - y2 == l * p,
    ;
}

/// A number is congruent to its remainder.
pub proof fn lemma_eqm_mod(p: int, x: int)
    requires
        p > 0,
    ensures
        eqm(p, x % p, x),
        eqm(p, x, x % p),
{
    lemma_fundamental_div_mod(x, p);
    lemma_multiple_mod(p, x / p);
    lemma_multiple_mod(p, -(x / p));
    assert(x - x % p == (x / p) * p) by (nonlinear_arith)
        requires
            x == p * (x / p) + x % p,
    ;
    assert(x % p - x == (-(x / p)) * p) by (nonlinear_arith)
        requires
            x == p * (x / p) + x % p,
    ;
}

/// Congruent numbers leave the same remainder.
pub proof fn lemma_eqm_same_mod(p: int, x: int, y: int)
    requires
        p > 0,
        eqm(p, x, y),
    ensures
        x % p == y % p,
{
    let k = lemma_mod_zero_multiple(p, x - y);
    assert(x == y + k * p);
    lemma_mod_multiples_vanish(k, y, p);
    lemma_mul_is_commutative(k, p);
}

/// Numbers with the same remainder are congruent.
pub proof fn lemma_same_mod_eqm(p: int, x: int, y: int)
    requires
        p > 0,
        x % p == y % p,
    ensures
        eqm(p, x, y),
{
    lemma_eqm_mod(p, x);
    lemma_eqm_mod(p, y);
    lemma_eqm_trans(p, x, x % p, y);
}

/// Two congruent residues in `[0, p)` are equal.
pub proof fn lemma_eqm_canonical(p: int, x: int, y: int)
    requires
        p > 0,
        0 <= x < p,
        0 <= y < p,
        eqm(p, x, y),
    ensures
        x == y,
{
    lemma_eqm_same_mod(p, x, y);
    lemma_small_mod(x as nat, p as nat);
    lemma_small_mod(y as nat, p as nat);
}

/// `c` has a multiplicative inverse modulo `p`.
pub open spec fn is_unit(p: int, c: int) -> bool {
    exists|k: int| is_inverse(p, c, k)
}

/// `k` is a residue in `(0, p)` with `k * c == 1` modulo `p`.
pub open spec fn is_inverse(p: int, c: int, k: int) -> bool {
    0 < k < p && (k * c) % p == 1
}

/// A unit is not zero.
pub proof fn lemma_unit_nonzero(p: int, c: int)
    requires
        p >= 2,
        is_unit(p, c),
    ensures
        c != 0,
{
    if c == 0 {
        let k = choose|k: int| is_inverse(p, c, k);
        assert(k * 0 == 0);
        lemma_small_mod(0, p as nat);
    }
}

/// The inverse of a unit `c` modulo `p`, as a residue in `(0, p)`.
pub open spec fn unit_inverse(p: int, c: int) -> int {
    choose|k: int| is_inverse(p, c, k)
}

/// How many times `c` has to be taken from `v` to leave a multiple of `p`:
/// the residue `v / c`.
pub open spec fn quot_digit(p: int, c: int, v: int) -> int {
    (v * unit_inverse(p, c)) % p
}

/// Taking the unit `c` away `quot_digit` times leaves a multiple of `p`.
pub proof fn lemma_quot_digit(p: int, c: int, v: int)
    requires
        p > 0,
        is_unit(p, c),
    ensures
        0 <= quot_digit(p, c, v) < p,
        eqm(p, quot_digit(p, c, v) * c, v),
        (v - quot_digit(p, c, v) * c) % p == 0,
{
    let k = unit_inverse(p, c);
    let t = quot_digit(p, c, v);
    assert(is_inverse(p, c, k));
    lemma_mod_bound(v * k, p);
    // t == v * k, k * c == 1
    lemma_eqm_mod(p, v * k);
    lemma_eqm_refl(p, c);
    lemma_eqm_mul(p, t, v * k, c, c);
    lemma_eqm_mod(p, k * c);
    lemma_eqm_refl(p, v);
    lemma_eqm_mul(p, v, v, k * c, 1);
    assert(v * (k * c) == (v * k) * c) by (nonlinear_arith);
    assert(v * 1 == v);
    lemma_eqm_trans(p, t * c, (v * k) * c, v);
    lemma_eqm_sym(p, t * c, v);
}

/// No other count below `p` leaves a multiple of `p`.
pub proof fn lemma_quot_digit_unique(p: int, c: int, v: int, s: int)
    requires
        p > 0,
        is_unit(p, c),
        0 <= s < p,
        (v - s * c) % p == 0,
    ensures
        s == quot_digit(p, c, v),
{
    let k = unit_inverse(p, c);
    let t = quot_digit(p, c, v);
    assert(is_inverse(p, c, k));
    lemma_quot_digit(p, c, v);
    // s * c == v == t * c, so s == s * c * k == t * c * k == t
    assert(eqm(p, v, s * c));
    lemma_eqm_trans(p, t * c, v, s * c);
    lemma_eqm_refl(p, k);
    lemma_eqm_mul(p, t * c, s * c, k, k);
    lemma_cancel_unit(p, c, k, t);
    lemma_cancel_unit(p, c, k, s);
    lemma_eqm_sym(p, (t * c) * k, t);
    lemma_eqm_trans(p, t, (t * c) * k, (s * c) * k);
    lemma_eqm_trans(p, t, (s * c) * k, s);
    lemma_eqm_canonical(p, t, s);
}

/// Multiplying by a unit and then by its inverse changes nothing.
pub proof fn lemma_cancel_unit(p: int, c: int, k: int, x: int)
    requires
        p > 0,
        (k * c) % p == 1,
    ensures
        eqm(p, (x * c) * k, x),
{
    lemma_eqm_mod(p, k * c);
    lemma_eqm_refl(p, x);
    lemma_eqm_mul(p, x, x, k * c, 1);
    assert(x * (k * c) == (x * c) * k) by (nonlinear_arith);
    assert(x * 1 == x);
}

/// A unit times a residue is a multiple of `p` only if the residue is.
pub proof fn lemma_unit_no_zero_divisor(p: int, c: int, x: int)
    requires
        p > 0,
        is_unit(p, c),
        eqm(p, x * c, 0),
    ensures
        eqm(p, x, 0),
{
    let k = unit_inverse(p, c);
    assert(is_inverse(p, c, k));
    lemma_eqm_refl(p, k);
    lemma_eqm_mul(p, x * c, 0, k, k);
    lemma_cancel_unit(p, c, k, x);
    lemma_eqm_sym(p, (x * c) * k, x);
    assert(0 * k == 0);
    lemma_eqm_trans(p, x, (x * c) * k, 0);
}

} // verus!
