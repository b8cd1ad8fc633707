use crate::digits::canonical;
use crate::modular::{
    eqm, is_unit, lemma_eqm_add, lemma_eqm_canonical, lemma_eqm_mod, lemma_eqm_mul,
    lemma_eqm_refl, lemma_eqm_sym, lemma_eqm_trans, lemma_quot_digit, lemma_unit_no_zero_divisor,
    quot_digit,
};
use crate::poly::{
    at_or_zero, cancel_lead, coeff, conv_at, conv_sum, lemma_reduce_steps_len, poly_quot,
    poly_rem, reduce_steps,
};
use crate::poly_laws::{
    lemma_conv_at_eqm, lemma_conv_comm, lemma_conv_linear_left, lemma_conv_one_right,
};
use vstd::prelude::*;

verus! {

/// The polynomial `x * a + y * b` over the integers, highest degree first.
pub open spec fn int_comb(a: Seq<int>, x: int, b: Seq<int>, y: int) -> Seq<int> {
    let n = if a.len() >= b.len() {
        a.len()
    } else {
        b.len()
    };
    Seq::new(n, |i: int| x * coeff(a, n - 1 - i) + y * coeff(b, n - 1 - i))
}

/// The coefficients of `int_comb`, at every degree.
pub proof fn lemma_int_comb_coeff(a: Seq<int>, x: int, b: Seq<int>, y: int, k: int)
    ensures
        coeff(int_comb(a, x, b, y), k) == x * coeff(a, k) + y * coeff(b, k),
{
    let n = if a.len() >= b.len() {
        a.len()
    } else {
        b.len()
    };
    if !(0 <= k < n) {
        assert(x * 0 + y * 0 == 0);
    }
}

/// The product with `int_comb` in the first place.
pub proof fn lemma_conv_comb(a: Seq<int>, x: int, b: Seq<int>, y: int, f: Seq<int>, k: int)
    ensures
        conv_at(int_comb(a, x, b, y), f, k) == x * conv_at(a, f, k) + y * conv_at(b, f, k),
{
    let c = int_comb(a, x, b, y);
    assert forall|j: int| #[trigger] coeff(c, j) == x * coeff(a, j) + y * coeff(b, j - 0) by {
        lemma_int_comb_coeff(a, x, b, y, j);
    }
    lemma_conv_linear_left(c, a, b, f, x, y, 0, k);
}

/// The quotient with only the digits of the first `n` steps.
spec fn partial_quot(p: int, f: Seq<int>, u: Seq<int>, n: nat) -> Seq<int> {
    Seq::new(
        u.len(),
        |j: int|
            if f.len() - 1 <= j < f.len() - 1 + n {
                quot_digit(p, f[0], reduce_steps(p, f, u, (j - (f.len() - 1)) as nat)[0])
            } else {
                0
            },
    )
}

/// What one step of long division does to the coefficients: it takes `t`
/// times the divisor, moved up by `s` degrees, away.
proof fn lemma_cancel_lead_coeff(p: int, f: Seq<int>, u: Seq<int>, k: int)
    requires
        p > 0,
        f.len() >= 1,
        u.len() >= f.len(),
        is_unit(p, f[0]),
    ensures
        eqm(
            p,
            coeff(cancel_lead(p, f, u), k),
            coeff(u, k) - quot_digit(p, f[0], u[0]) * coeff(f, k - (u.len() - f.len())),
        ),
{
    let t = quot_digit(p, f[0], u[0]);
    let len = u.len() as int;
    let s = len - f.len();
    let next = cancel_lead(p, f, u);
    if 0 <= k < len - 1 {
        let i = len - 2 - k;
        assert(next[i] == (u[i + 1] - t * at_or_zero(f, i + 1)) % p);
        assert(coeff(u, k) == u[i + 1]);
        if k - s >= 0 {
            assert(coeff(f, k - s) == f[i + 1]);
        } else {
            assert(coeff(f, k - s) == 0);
            assert(at_or_zero(f, i + 1) == 0);
        }
        lemma_eqm_mod(p, u[i + 1] - t * at_or_zero(f, i + 1));
    } else if k == len - 1 {
        assert(coeff(f, k - s) == f[0]);
        lemma_quot_digit(p, f[0], u[0]);
        lemma_eqm_sym(p, t * f[0], u[0]);
        lemma_eqm_refl(p, 0);
        assert(eqm(p, u[0] - t * f[0], 0));
        lemma_eqm_sym(p, u[0] - t * f[0], 0);
    } else {
        assert(coeff(f, k - s) == 0);
        assert(t * 0 == 0);
        lemma_eqm_refl(p, 0);
    }
}

/// The division identity after `n` steps, with the dividend's current state
/// in the place of the remainder.
proof fn lemma_division_identity_partial(p: int, f: Seq<int>, u: Seq<int>, n: nat, k: int)
    requires
        p > 0,
        f.len() >= 1,
        u.len() >= f.len(),
        n <= u.len() - f.len() + 1,
        is_unit(p, f[0]),
    ensures
        eqm(
            p,
            coeff(u, k),
            conv_at(partial_quot(p, f, u, n), f, k) + coeff(reduce_steps(p, f, u, n), k),
        ),
    decreases n,
{
    let qn = partial_quot(p, f, u, n);
    if n == 0 {
        assert forall|j: int| #[trigger] coeff(qn, j) == 0 * coeff(qn, j) + 0 * coeff(qn, j - 0) by {}
        lemma_conv_linear_left(qn, qn, qn, f, 0, 0, 0, k);
        assert(0 * conv_at(qn, f, k) + 0 * conv_at(qn, f, k - 0) == 0);
        lemma_eqm_refl(p, coeff(u, k));
    } else {
        let m = (n - 1) as nat;
        let qm = partial_quot(p, f, u, m);
        let um = reduce_steps(p, f, u, m);
        let un = reduce_steps(p, f, u, n);
        lemma_division_identity_partial(p, f, u, m, k);
        lemma_reduce_steps_len(p, f, u, m);
        let t = quot_digit(p, f[0], um[0]);
        let s = um.len() - f.len();
        let one = seq![1int];
        lemma_cancel_lead_coeff(p, f, um, k);
        // the quotient gains the digit `t` at degree `s`
        assert forall|j: int| #[trigger] coeff(qn, j) == 1 * coeff(qm, j) + t * coeff(one, j - s) by {
            if j == s {
                assert(coeff(one, 0) == 1);
                assert(t * 1 == t);
                let idx = u.len() - 1 - j;
                assert(idx == f.len() - 1 + m);
                assert(coeff(qn, j) == qn[idx]);
                assert(coeff(qm, j) == qm[idx]);
            } else {
                assert(coeff(one, j - s) == 0);
                assert(t * 0 == 0);
                if 0 <= j < u.len() {
                    let idx = u.len() - 1 - j;
                    assert(coeff(qn, j) == qn[idx]);
                    assert(coeff(qm, j) == qm[idx]);
                }
            }
        }
        lemma_conv_linear_left(qn, qm, one, f, 1, t, s, k);
        lemma_conv_comm(one, f, k - s);
        lemma_conv_one_right(f, k - s);
        assert(1 * conv_at(qm, f, k) == conv_at(qm, f, k));
        let g = t * coeff(f, k - s);
        assert(conv_at(qn, f, k) == conv_at(qm, f, k) + g);
        // un == um - g, so the sum is unchanged
        lemma_eqm_refl(p, conv_at(qn, f, k));
        lemma_eqm_add(p, conv_at(qn, f, k), conv_at(qn, f, k), coeff(un, k), coeff(um, k) - g);
        lemma_eqm_sym(
            p,
            conv_at(qn, f, k) + coeff(un, k),
            conv_at(qm, f, k) + coeff(um, k),
        );
        lemma_eqm_trans(
            p,
            coeff(u, k),
            conv_at(qm, f, k) + coeff(um, k),
            conv_at(qn, f, k) + coeff(un, k),
        );
    }
}

/// Dividend, quotient and remainder of long division go together: at every
/// degree the dividend is congruent to the quotient times the divisor plus
/// the remainder.
pub proof fn lemma_division_identity(p: int, f: Seq<int>, u: Seq<int>, k: int)
    requires
        p > 0,
        f.len() >= 1,
        is_unit(p, f[0]),
    ensures
        eqm(
            p,
            coeff(u, k),
            conv_at(poly_quot(p, f, u), f, k) + coeff(poly_rem(p, f, u), k),
        ),
{
    if u.len() < f.len() {
        let q = poly_quot(p, f, u);
        assert forall|j: int| #[trigger] coeff(q, j) == 0 * coeff(q, j) + 0 * coeff(q, j - 0) by {}
        lemma_conv_linear_left(q, q, q, f, 0, 0, 0, k);
        assert(0 * conv_at(q, f, k) + 0 * conv_at(q, f, k - 0) == 0);
        lemma_eqm_refl(p, coeff(u, k));
    } else {
        let n = (u.len() - f.len() + 1) as nat;
        lemma_division_identity_partial(p, f, u, n, k);
        assert(partial_quot(p, f, u, n) =~= poly_quot(p, f, u));
    }
}

/// The remainder is canonical and has one coefficient fewer than the
/// divisor.
pub proof fn lemma_rem_is_reduced(p: int, f: Seq<int>, u: Seq<int>)
    requires
        p > 0,
        f.len() >= 1,
        u.len() >= f.len() - 1,
        canonical(p, u),
    ensures
        poly_rem(p, f, u).len() == f.len() - 1,
        canonical(p, poly_rem(p, f, u)),
{
    if u.len() >= f.len() {
        let n = (u.len() - f.len() + 1) as nat;
        lemma_reduce_steps_len(p, f, u, n);
        lemma_reduce_steps_len(p, f, u, (n - 1) as nat);
        let prev = reduce_steps(p, f, u, (n - 1) as nat);
        let r = reduce_steps(p, f, u, n);
        assert(r == cancel_lead(p, f, prev));
        assert forall|i: int| 0 <= i < r.len() implies 0 <= #[trigger] r[i] < p by {
            let t = quot_digit(p, f[0], prev[0]);
            vstd::arithmetic::div_mod::lemma_mod_bound(prev[i + 1] - t * at_or_zero(f, i + 1), p);
        }
    }
}

/// With the coefficients of `q` above degree `e` all multiples of `p`, the
/// coefficient of the product at the degree of `f` plus `e` is that of `q`
/// at `e`, times the leading coefficient of `f`.
proof fn lemma_top_coefficient(p: int, f: Seq<int>, q: Seq<int>, e: int, n: nat)
    requires
        p > 0,
        f.len() >= 1,
        e >= 0,
        forall|i: int| i > e ==> eqm(p, #[trigger] coeff(q, i), 0),
    ensures
        eqm(
            p,
            conv_sum(q, f, e + f.len() - 1, n),
            if n > e {
                coeff(q, e) * f[0]
            } else {
                0
            },
        ),
    decreases n,
{
    let d = e + f.len() - 1;
    if n == 0 {
        lemma_eqm_refl(p, 0);
    } else {
        let i = n - 1;
        lemma_top_coefficient(p, f, q, e, i as nat);
        let prev = conv_sum(q, f, d, i as nat);
        let term = coeff(q, i) * coeff(f, d - i);
        if i < e {
            assert(coeff(f, d - i) == 0);
            assert(coeff(q, i) * 0 == 0);
        } else if i == e {
            assert(coeff(f, d - i) == f[0]);
        } else {
            assert(eqm(p, coeff(q, i), 0));
            lemma_eqm_refl(p, coeff(f, d - i));
            lemma_eqm_mul(p, coeff(q, i), 0, coeff(f, d - i), coeff(f, d - i));
            assert(0 * coeff(f, d - i) == 0);
            lemma_eqm_add(p, prev, coeff(q, e) * f[0], term, 0);
        }
    }
}

/// A multiple of `f` that is congruent to a polynomial of lower degree at
/// every degree has only multiples of `p` as the coefficients of its other
/// factor.
proof fn lemma_factor_vanishes(p: int, f: Seq<int>, q: Seq<int>, w: Seq<int>, e: int)
    requires
        p > 0,
        f.len() >= 1,
        is_unit(p, f[0]),
        w.len() <= f.len() - 1,
        forall|k: int| eqm(p, #[trigger] conv_at(q, f, k), coeff(w, k)),
        0 <= e <= q.len(),
    ensures
        forall|i: int| i >= e ==> eqm(p, #[trigger] coeff(q, i), 0),
    decreases q.len() - e,
{
    if e == q.len() {
        assert forall|i: int| i >= e implies eqm(p, #[trigger] coeff(q, i), 0) by {
            lemma_eqm_refl(p, 0);
        }
    } else {
        lemma_factor_vanishes(p, f, q, w, e + 1);
        let d = e + f.len() - 1;
        lemma_top_coefficient(p, f, q, e, q.len());
        assert(eqm(p, conv_at(q, f, d), coeff(q, e) * f[0]));
        assert(eqm(p, conv_at(q, f, d), coeff(w, d)));
        assert(coeff(w, d) == 0);
        lemma_eqm_sym(p, conv_at(q, f, d), coeff(q, e) * f[0]);
        lemma_eqm_trans(p, coeff(q, e) * f[0], conv_at(q, f, d), 0);
        lemma_unit_no_zero_divisor(p, f[0], coeff(q, e));
    }
}

/// Two canonical polynomials of degree below that of `f` which differ by a
/// multiple of `f` are the same polynomial.
pub proof fn lemma_remainder_unique(p: int, f: Seq<int>, q: Seq<int>, r1: Seq<int>, r2: Seq<int>)
    requires
        p > 0,
        f.len() >= 1,
        is_unit(p, f[0]),
        r1.len() == f.len() - 1,
        r2.len() == f.len() - 1,
        canonical(p, r1),
        canonical(p, r2),
        forall|k: int| eqm(p, #[trigger] conv_at(q, f, k), coeff(r1, k) - coeff(r2, k)),
    ensures
        r1 == r2,
{
    let w = int_comb(r1, 1, r2, -1);
    assert forall|k: int| eqm(p, #[trigger] conv_at(q, f, k), coeff(w, k)) by {
        lemma_int_comb_coeff(r1, 1, r2, -1, k);
    }
    lemma_factor_vanishes(p, f, q, w, 0);
    let none = Seq::<int>::empty();
    assert forall|i: int| eqm(p, #[trigger] coeff(q, i), coeff(none, i)) by {
        if i >= 0 {
            assert(eqm(p, coeff(q, i), 0));
        } else {
            lemma_eqm_refl(p, 0);
        }
    }
    assert forall|j: int| eqm(p, #[trigger] coeff(f, j), coeff(f, j)) by {
        lemma_eqm_refl(p, coeff(f, j));
    }
    assert forall|i: int| 0 <= i < r1.len() implies r1[i] == r2[i] by {
        let k = r1.len() - 1 - i;
        lemma_conv_at_eqm(p, q, none, f, f, k);
        assert(conv_at(none, f, k) == 0);
        lemma_eqm_sym(p, conv_at(q, f, k), 0);
        assert(eqm(p, conv_at(q, f, k), coeff(r1, k) - coeff(r2, k)));
        lemma_eqm_trans(p, 0, conv_at(q, f, k), coeff(r1, k) - coeff(r2, k));
        lemma_eqm_sym(p, 0, coeff(r1, k) - coeff(r2, k));
        assert(eqm(p, r1[i], r2[i]));
        lemma_eqm_canonical(p, r1[i], r2[i]);
    }
    assert(r1 =~= r2);
}

/// What pins the remainder down: a canonical polynomial `r` of degree below
/// that of `f` which differs from `u` by a multiple of `f` is the remainder
/// of `u`.
pub proof fn lemma_rem_characterization(p: int, f: Seq<int>, u: Seq<int>, q: Seq<int>, r: Seq<int>)
    requires
        p > 0,
        f.len() >= 1,
        is_unit(p, f[0]),
        u.len() >= f.len() - 1,
        canonical(p, u),
        r.len() == f.len() - 1,
        canonical(p, r),
        forall|k: int| eqm(p, #[trigger] coeff(u, k), conv_at(q, f, k) + coeff(r, k)),
    ensures
        poly_rem(p, f, u) == r,
{
    let q0 = poly_quot(p, f, u);
    let r0 = poly_rem(p, f, u);
    lemma_rem_is_reduced(p, f, u);
    let dq = int_comb(q, 1, q0, -1);
    assert forall|k: int| eqm(p, #[trigger] conv_at(dq, f, k), coeff(r0, k) - coeff(r, k)) by {
        lemma_conv_comb(q, 1, q0, -1, f, k);
        lemma_division_identity(p, f, u, k);
        let a = conv_at(q, f, k);
        let b = conv_at(q0, f, k);
        // u == a + r and u == b + r0, so a - b == r0 - r
        assert(eqm(p, coeff(u, k), a + coeff(r, k)));
        assert(eqm(p, coeff(u, k), b + coeff(r0, k)));
        lemma_eqm_sym(p, coeff(u, k), a + coeff(r, k));
        lemma_eqm_trans(p, a + coeff(r, k), coeff(u, k), b + coeff(r0, k));
        lemma_eqm_refl(p, b + coeff(r, k));
        lemma_eqm_add(
            p,
            a + coeff(r, k),
            b + coeff(r0, k),
            b + coeff(r, k),
            b + coeff(r, k),
        );
        assert((a + coeff(r, k)) - (b + coeff(r, k)) == 1 * a + (-1) * b) by (nonlinear_arith);
        assert((b + coeff(r0, k)) - (b + coeff(r, k)) == coeff(r0, k) - coeff(r, k));
    }
    lemma_remainder_unique(p, f, dq, r0, r);
}

} // verus!
