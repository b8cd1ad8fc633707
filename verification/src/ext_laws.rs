use crate::digits::canonical;
use crate::division_laws::{
    int_comb, lemma_conv_comb, lemma_division_identity, lemma_int_comb_coeff,
    lemma_rem_characterization, lemma_rem_is_reduced, lemma_remainder_unique,
};
use crate::ext_spec::{ext_mul, ext_one, ext_pow, ext_zero, is_element, valid_modulus};
use crate::modular::{
    eqm, lemma_eqm_add, lemma_eqm_mod, lemma_eqm_refl, lemma_eqm_sym, lemma_eqm_trans,
};
use crate::poly::{coeff, conv_at, conv_sum, poly_mul, poly_quot};
use crate::poly_laws::{
    int_mul, lemma_conv_assoc, lemma_conv_at_eqm, lemma_conv_comm, lemma_conv_one_right,
    lemma_conv_sum_ext, lemma_conv_sum_support, lemma_int_mul_coeff,
};
use vstd::arithmetic::div_mod::*;
use vstd::prelude::*;

verus! {

/// The coefficients of the reduced product are those of the product over the
/// integers, up to multiples of `p`.
pub proof fn lemma_poly_mul_coeff(p: int, a: Seq<int>, b: Seq<int>, k: int)
    requires
        p > 0,
    ensures
        eqm(p, coeff(poly_mul(p, a, b), k), conv_at(a, b, k)),
        canonical(p, poly_mul(p, a, b)),
{
    let u = poly_mul(p, a, b);
    assert forall|i: int| 0 <= i < u.len() implies 0 <= #[trigger] u[i] < p by {
        lemma_mod_bound(conv_at(a, b, a.len() + b.len() - 2 - i), p);
    }
    if a.len() > 0 && b.len() > 0 && 0 <= k < a.len() + b.len() - 1 {
        let i = a.len() + b.len() - 2 - k;
        assert(coeff(u, k) == u[i]);
        lemma_eqm_mod(p, conv_at(a, b, k));
    } else {
        if a.len() > 0 && b.len() > 0 {
            lemma_conv_sum_support(a, b, k, a.len());
        } else if b.len() == 0 {
            lemma_conv_comm(a, b, k);
        }
        lemma_eqm_refl(p, 0);
    }
}

/// A product of two elements is an element.
pub proof fn lemma_ext_mul_is_element(p: int, m: int, f: Seq<int>, a: Seq<int>, b: Seq<int>)
    requires
        valid_modulus(p, m, f),
        a.len() == m,
        b.len() == m,
    ensures
        is_element(p, m, ext_mul(p, f, a, b)),
{
    lemma_poly_mul_coeff(p, a, b, 0);
    lemma_rem_is_reduced(p, f, poly_mul(p, a, b));
}

/// Multiplication in the extension does not depend on the order of the
/// factors.
pub proof fn lemma_ext_mul_commutative(p: int, f: Seq<int>, a: Seq<int>, b: Seq<int>)
    ensures
        ext_mul(p, f, a, b) == ext_mul(p, f, b, a),
{
    let u = poly_mul(p, a, b);
    let v = poly_mul(p, b, a);
    assert(u.len() == v.len());
    assert forall|i: int| 0 <= i < u.len() implies u[i] == v[i] by {
        lemma_conv_comm(a, b, a.len() + b.len() - 2 - i);
    }
    assert(u =~= v);
}

/// The product with the zero element is the zero element.
pub proof fn lemma_ext_mul_zero(p: int, m: int, f: Seq<int>, a: Seq<int>)
    requires
        valid_modulus(p, m, f),
        is_element(p, m, a),
    ensures
        ext_mul(p, f, a, ext_zero(m as nat)) == ext_zero(m as nat),
        ext_mul(p, f, ext_zero(m as nat), a) == ext_zero(m as nat),
{
    let z = ext_zero(m as nat);
    let u = poly_mul(p, a, z);
    let none = Seq::<int>::empty();
    assert forall|k: int| eqm(p, #[trigger] coeff(u, k), conv_at(none, f, k) + coeff(z, k)) by {
        lemma_poly_mul_coeff(p, a, z, k);
        lemma_conv_comm(a, z, k);
        lemma_conv_sum_ext(z, none, a, a, k, z.len());
        assert(conv_sum(none, a, k, z.len()) == 0) by {
            crate::poly_laws::lemma_conv_sum_beyond(none, a, k, z.len());
        }
        assert(conv_at(none, f, k) == 0);
        assert(coeff(z, k) == 0);
    }
    lemma_poly_mul_coeff(p, a, z, 0);
    lemma_rem_characterization(p, f, u, none, z);
    lemma_ext_mul_commutative(p, f, a, z);
}

/// The product with the identity is the other factor.
pub proof fn lemma_ext_mul_one(p: int, m: int, f: Seq<int>, a: Seq<int>)
    requires
        valid_modulus(p, m, f),
        is_element(p, m, a),
    ensures
        ext_mul(p, f, a, ext_one(m as nat)) == a,
        ext_mul(p, f, ext_one(m as nat), a) == a,
{
    let one = ext_one(m as nat);
    let unit = seq![1int];
    let u = poly_mul(p, a, one);
    let none = Seq::<int>::empty();
    assert forall|j: int| #[trigger] coeff(one, j) == coeff(unit, j) by {}
    assert forall|k: int| eqm(p, #[trigger] coeff(u, k), conv_at(none, f, k) + coeff(a, k)) by {
        lemma_poly_mul_coeff(p, a, one, k);
        lemma_conv_sum_ext(a, a, one, unit, k, a.len());
        lemma_conv_one_right(a, k);
        assert(conv_at(none, f, k) == 0);
    }
    lemma_poly_mul_coeff(p, a, one, 0);
    lemma_rem_characterization(p, f, u, none, a);
    lemma_ext_mul_commutative(p, f, a, one);
}

/// The product `(a * b) * c` in the extension is congruent to the product of
/// the three polynomials over the integers, less a multiple of the modulus.
proof fn lemma_triple(p: int, m: int, f: Seq<int>, a: Seq<int>, b: Seq<int>, c: Seq<int>) -> (q:
    Seq<int>)
    requires
        valid_modulus(p, m, f),
        is_element(p, m, a),
        is_element(p, m, b),
        is_element(p, m, c),
    ensures
        forall|k: int|
            eqm(
                p,
                #[trigger] coeff(ext_mul(p, f, ext_mul(p, f, a, b), c), k),
                conv_at(int_mul(a, b), c, k) - conv_at(q, f, k),
            ),
{
    let ab = poly_mul(p, a, b);
    let w = ext_mul(p, f, a, b);
    let q1 = poly_quot(p, f, ab);
    let wc = poly_mul(p, w, c);
    let q2 = poly_quot(p, f, wc);
    let lhs = ext_mul(p, f, w, c);
    let q1c = int_mul(q1, c);
    let q = int_comb(q1c, 1, q2, 1);
    // w == a * b - q1 * f
    let d = int_comb(int_mul(a, b), 1, int_mul(q1, f), -1);
    assert forall|i: int| eqm(p, #[trigger] coeff(w, i), coeff(d, i)) by {
        lemma_division_identity(p, f, ab, i);
        lemma_poly_mul_coeff(p, a, b, i);
        lemma_int_comb_coeff(int_mul(a, b), 1, int_mul(q1, f), -1, i);
        lemma_int_mul_coeff(a, b, i);
        lemma_int_mul_coeff(q1, f, i);
        let x = conv_at(a, b, i);
        let y = conv_at(q1, f, i);
        // ab == y + w, ab == x
        lemma_eqm_sym(p, coeff(ab, i), y + coeff(w, i));
        lemma_eqm_trans(p, y + coeff(w, i), coeff(ab, i), x);
        lemma_eqm_refl(p, y);
        lemma_eqm_add(p, y + coeff(w, i), x, y, y);
        assert(coeff(d, i) == 1 * x + (-1) * y);
        assert(1 * x + (-1) * y == x - y) by (nonlinear_arith);
    }
    assert forall|j: int| eqm(p, #[trigger] coeff(c, j), coeff(c, j)) by {
        lemma_eqm_refl(p, coeff(c, j));
    }
    assert forall|k: int|
        eqm(
            p,
            #[trigger] coeff(lhs, k),
            conv_at(int_mul(a, b), c, k) - conv_at(q, f, k),
        ) by {
        let t = conv_at(int_mul(a, b), c, k);
        // wc == w * c == d * c == (a * b) * c - (q1 * f) * c
        lemma_poly_mul_coeff(p, w, c, k);
        lemma_conv_at_eqm(p, w, d, c, c, k);
        lemma_conv_comb(int_mul(a, b), 1, int_mul(q1, f), -1, c, k);
        let qfc = conv_at(int_mul(q1, f), c, k);
        assert(conv_at(d, c, k) == 1 * t + (-1) * qfc);
        assert(1 * t + (-1) * qfc == t - qfc) by (nonlinear_arith);
        // (q1 * f) * c == (q1 * c) * f
        lemma_conv_assoc(q1, f, c, k);
        assert forall|j: int| #[trigger] coeff(int_mul(f, c), j) == coeff(int_mul(c, f), j) by {
            lemma_int_mul_coeff(f, c, j);
            lemma_int_mul_coeff(c, f, j);
            lemma_conv_comm(f, c, j);
        }
        lemma_conv_sum_ext(q1, q1, int_mul(f, c), int_mul(c, f), k, q1.len());
        lemma_conv_assoc(q1, c, f, k);
        assert(qfc == conv_at(q1c, f, k));
        lemma_eqm_trans(p, coeff(wc, k), conv_at(w, c, k), t - qfc);
        // wc == q2 * f + lhs
        lemma_division_identity(p, f, wc, k);
        let y2 = conv_at(q2, f, k);
        lemma_eqm_sym(p, coeff(wc, k), y2 + coeff(lhs, k));
        lemma_eqm_trans(p, y2 + coeff(lhs, k), coeff(wc, k), t - qfc);
        lemma_eqm_refl(p, y2);
        lemma_eqm_add(p, y2 + coeff(lhs, k), t - qfc, y2, y2);
        lemma_conv_comb(q1c, 1, q2, 1, f, k);
        assert(conv_at(q, f, k) == 1 * qfc + 1 * y2);
        assert(1 * qfc + 1 * y2 == qfc + y2) by (nonlinear_arith);
        assert(y2 + coeff(lhs, k) - y2 == coeff(lhs, k));
        assert(t - qfc - y2 == t - conv_at(q, f, k));
    }
    q
}

/// Multiplication in the extension does not depend on the bracketing.
pub proof fn lemma_ext_mul_associative(
    p: int,
    m: int,
    f: Seq<int>,
    a: Seq<int>,
    b: Seq<int>,
    c: Seq<int>,
)
    requires
        valid_modulus(p, m, f),
        is_element(p, m, a),
        is_element(p, m, b),
        is_element(p, m, c),
    ensures
        ext_mul(p, f, ext_mul(p, f, a, b), c) == ext_mul(p, f, a, ext_mul(p, f, b, c)),
{
    let lhs = ext_mul(p, f, ext_mul(p, f, a, b), c);
    let rhs = ext_mul(p, f, ext_mul(p, f, b, c), a);
    let q1 = lemma_triple(p, m, f, a, b, c);
    let q2 = lemma_triple(p, m, f, b, c, a);
    lemma_ext_mul_is_element(p, m, f, a, b);
    lemma_ext_mul_is_element(p, m, f, b, c);
    lemma_ext_mul_is_element(p, m, f, ext_mul(p, f, a, b), c);
    lemma_ext_mul_is_element(p, m, f, ext_mul(p, f, b, c), a);
    let dq = int_comb(q2, 1, q1, -1);
    assert forall|k: int| eqm(p, #[trigger] conv_at(dq, f, k), coeff(lhs, k) - coeff(rhs, k)) by {
        let t1 = conv_at(int_mul(a, b), c, k);
        let t2 = conv_at(int_mul(b, c), a, k);
        // the two products of three are the same polynomial
        lemma_conv_assoc(a, b, c, k);
        lemma_conv_comm(a, int_mul(b, c), k);
        assert(t1 == t2);
        let x1 = conv_at(q1, f, k);
        let x2 = conv_at(q2, f, k);
        assert(eqm(p, coeff(lhs, k), t1 - x1));
        assert(eqm(p, coeff(rhs, k), t2 - x2));
        lemma_eqm_add(p, coeff(lhs, k), t1 - x1, coeff(rhs, k), t2 - x2);
        lemma_conv_comb(q2, 1, q1, -1, f, k);
        assert(conv_at(dq, f, k) == 1 * x2 + (-1) * x1);
        assert(1 * x2 + (-1) * x1 == (t1 - x1) - (t2 - x2)) by (nonlinear_arith)
            requires
                t1 == t2,
        ;
        lemma_eqm_sym(p, coeff(lhs, k) - coeff(rhs, k), (t1 - x1) - (t2 - x2));
    }
    lemma_remainder_unique(p, f, dq, lhs, rhs);
    lemma_ext_mul_commutative(p, f, ext_mul(p, f, b, c), a);
}

/// Every power of an element is an element.
pub proof fn lemma_ext_pow_is_element(p: int, m: int, f: Seq<int>, a: Seq<int>, n: nat)
    requires
        valid_modulus(p, m, f),
        is_element(p, m, a),
    ensures
        is_element(p, m, ext_pow(p, f, a, n)),
    decreases n,
{
    if n == 0 {
    } else if n == 1 {
    } else {
        lemma_ext_pow_is_element(p, m, f, a, (n - 1) as nat);
        lemma_ext_mul_is_element(p, m, f, ext_pow(p, f, a, (n - 1) as nat), a);
    }
}

/// One more factor raises the exponent by one.
pub proof fn lemma_ext_pow_step(p: int, m: int, f: Seq<int>, a: Seq<int>, n: nat)
    requires
        valid_modulus(p, m, f),
        is_element(p, m, a),
    ensures
        ext_pow(p, f, a, n + 1) == ext_mul(p, f, ext_pow(p, f, a, n), a),
{
    if n == 0 {
        lemma_ext_mul_one(p, m, f, a);
    }
}

/// Powers of one element multiply by adding the exponents.
pub proof fn lemma_ext_pow_add(p: int, m: int, f: Seq<int>, a: Seq<int>, i: nat, j: nat)
    requires
        valid_modulus(p, m, f),
        is_element(p, m, a),
    ensures
        ext_pow(p, f, a, i + j) == ext_mul(p, f, ext_pow(p, f, a, i), ext_pow(p, f, a, j)),
    decreases j,
{
    lemma_ext_pow_is_element(p, m, f, a, i);
    if j == 0 {
        lemma_ext_mul_one(p, m, f, ext_pow(p, f, a, i));
    } else {
        let k = (j - 1) as nat;
        lemma_ext_pow_add(p, m, f, a, i, k);
        lemma_ext_pow_is_element(p, m, f, a, k);
        lemma_ext_pow_step(p, m, f, a, i + k);
        lemma_ext_pow_step(p, m, f, a, k);
        lemma_ext_mul_associative(p, m, f, ext_pow(p, f, a, i), ext_pow(p, f, a, k), a);
    }
}

/// A power of a power is the power to the product of the exponents.
pub proof fn lemma_ext_pow_mul(p: int, m: int, f: Seq<int>, a: Seq<int>, i: nat, j: nat)
    requires
        valid_modulus(p, m, f),
        is_element(p, m, a),
    ensures
        ext_pow(p, f, ext_pow(p, f, a, i), j) == ext_pow(p, f, a, i * j),
    decreases j,
{
    let b = ext_pow(p, f, a, i);
    lemma_ext_pow_is_element(p, m, f, a, i);
    if j == 0 {
        assert(i * 0 == 0);
    } else {
        let k = (j - 1) as nat;
        lemma_ext_pow_mul(p, m, f, a, i, k);
        lemma_ext_pow_step(p, m, f, b, k);
        lemma_ext_pow_add(p, m, f, a, i * k, i);
        assert(i * k + i == i * j) by (nonlinear_arith)
            requires
                k + 1 == j,
        ;
    }
}

/// Every power of the identity is the identity.
pub proof fn lemma_ext_pow_of_one(p: int, m: int, f: Seq<int>, n: nat)
    requires
        valid_modulus(p, m, f),
    ensures
        ext_pow(p, f, ext_one(m as nat), n) == ext_one(m as nat),
    decreases n,
{
    let one = ext_one(m as nat);
    if n > 0 {
        lemma_ext_pow_of_one(p, m, f, (n - 1) as nat);
        lemma_ext_pow_step(p, m, f, one, (n - 1) as nat);
        lemma_ext_mul_one(p, m, f, one);
    }
}

} // verus!
