use crate::modular::{eqm, lemma_eqm_add, lemma_eqm_mul, lemma_eqm_refl};
use crate::poly::{coeff, conv_at, conv_sum};
use vstd::prelude::*;

verus! {

/// The product of two polynomials over the integers, highest degree first,
/// written with as many coefficients as the two factors have together.
pub open spec fn int_mul(a: Seq<int>, b: Seq<int>) -> Seq<int> {
    Seq::new(a.len() + b.len(), |i: int| conv_at(a, b, a.len() + b.len() - 1 - i))
}

/// Terms above the degree of `a` add nothing to a coefficient of the
/// product.
pub proof fn lemma_conv_sum_beyond(a: Seq<int>, b: Seq<int>, d: int, n: nat)
    requires
        n >= a.len(),
    ensures
        conv_sum(a, b, d, n) == conv_at(a, b, d),
    decreases n,
{
    if n > a.len() {
        lemma_conv_sum_beyond(a, b, d, (n - 1) as nat);
        assert(coeff(a, n - 1) == 0);
        assert(coeff(a, n - 1) * coeff(b, d - (n - 1)) == 0) by (nonlinear_arith)
            requires
                coeff(a, n - 1) == 0,
        ;
    }
}

/// A coefficient of the product depends on the coefficients of the factors
/// only.
pub proof fn lemma_conv_sum_ext(a: Seq<int>, a2: Seq<int>, b: Seq<int>, b2: Seq<int>, d: int, n: nat)
    requires
        forall|i: int| 0 <= i < n ==> #[trigger] coeff(a, i) == coeff(a2, i),
        forall|j: int| #[trigger] coeff(b, j) == coeff(b2, j),
    ensures
        conv_sum(a, b, d, n) == conv_sum(a2, b2, d, n),
    decreases n,
{
    if n > 0 {
        lemma_conv_sum_ext(a, a2, b, b2, d, (n - 1) as nat);
        assert(coeff(a, n - 1) == coeff(a2, n - 1));
        assert(coeff(b, d - (n - 1)) == coeff(b2, d - (n - 1)));
    }
}

/// The product is linear in its second factor: where `b` is `x * b1` plus
/// `y * b2` moved up by `s` degrees, the product with `b` is made of the
/// products with `b1` and `b2` in the same way.
pub proof fn lemma_conv_sum_linear(
    a: Seq<int>,
    b: Seq<int>,
    b1: Seq<int>,
    b2: Seq<int>,
    x: int,
    y: int,
    s: int,
    d: int,
    n: nat,
)
    requires
        forall|j: int| #[trigger] coeff(b, j) == x * coeff(b1, j) + y * coeff(b2, j - s),
    ensures
        conv_sum(a, b, d, n) == x * conv_sum(a, b1, d, n) + y * conv_sum(a, b2, d - s, n),
    decreases n,
{
    if n == 0 {
        assert(x * 0 + y * 0 == 0);
    } else {
        lemma_conv_sum_linear(a, b, b1, b2, x, y, s, d, (n - 1) as nat);
        let c = coeff(a, n - 1);
        let j = d - (n - 1);
        let u = coeff(b1, j);
        let v = coeff(b2, j - s);
        let r1 = conv_sum(a, b1, d, (n - 1) as nat);
        let r2 = conv_sum(a, b2, d - s, (n - 1) as nat);
        assert(coeff(b, j) == x * u + y * v);
        assert(d - s - (n - 1) == j - s);
        assert(c * (x * u + y * v) == c * (x * u) + c * (y * v)) by (nonlinear_arith);
        assert(c * (x * u) == x * (c * u)) by (nonlinear_arith);
        assert(c * (y * v) == y * (c * v)) by (nonlinear_arith);
        assert(x * (r1 + c * u) == x * r1 + x * (c * u)) by (nonlinear_arith);
        assert(y * (r2 + c * v) == y * r2 + y * (c * v)) by (nonlinear_arith);
    }
}

/// The product with the constant polynomial one.
pub proof fn lemma_conv_sum_one(b: Seq<int>, d: int, n: nat)
    ensures
        conv_sum(b, seq![1int], d, n) == (if 0 <= d < n {
            coeff(b, d)
        } else {
            0
        }),
    decreases n,
{
    if n > 0 {
        lemma_conv_sum_one(b, d, (n - 1) as nat);
        let one = seq![1int];
        if d == n - 1 {
            assert(coeff(one, 0) == 1);
            assert(coeff(b, n - 1) * 1 == coeff(b, n - 1));
        } else {
            assert(coeff(one, d - (n - 1)) == 0);
            assert(coeff(b, n - 1) * 0 == 0);
        }
    }
}

/// Multiplying by one changes no coefficient.
pub proof fn lemma_conv_one_right(b: Seq<int>, d: int)
    ensures
        conv_at(b, seq![1int], d) == coeff(b, d),
{
    lemma_conv_sum_one(b, d, b.len());
}

/// The `n` lowest coefficients of `a`.
spec fn low(a: Seq<int>, n: nat) -> Seq<int> {
    a.subrange(a.len() - n, a.len() as int)
}

/// The sum over the `n` lowest terms of `a` is the product of `b` with those
/// terms.
proof fn lemma_conv_comm_partial(a: Seq<int>, b: Seq<int>, d: int, n: nat)
    requires
        n <= a.len(),
    ensures
        conv_sum(a, b, d, n) == conv_at(b, low(a, n), d),
    decreases n,
{
    if n == 0 {
        let e = low(a, 0);
        assert forall|j: int| #[trigger] coeff(e, j) == 0 * coeff(e, j) + 0 * coeff(e, j - 0) by {}
        lemma_conv_sum_linear(b, e, e, e, 0, 0, 0, d, b.len());
        assert(0 * conv_sum(b, e, d, b.len()) + 0 * conv_sum(b, e, d - 0, b.len()) == 0);
    } else {
        let m = (n - 1) as nat;
        lemma_conv_comm_partial(a, b, d, m);
        let one = seq![1int];
        let hi = low(a, n);
        let lo = low(a, m);
        let x = coeff(a, m as int);
        assert forall|j: int| #[trigger] coeff(hi, j) == 1 * coeff(lo, j) + x * coeff(one, j - m) by {
            if j == m {
                assert(coeff(one, 0) == 1);
                assert(x * 1 == x);
                assert(coeff(hi, j) == x);
                assert(coeff(lo, j) == 0);
            } else {
                assert(coeff(one, j - m) == 0);
                assert(x * 0 == 0);
                if 0 <= j < m {
                    assert(coeff(hi, j) == coeff(a, j));
                    assert(coeff(lo, j) == coeff(a, j));
                }
            }
        }
        lemma_conv_sum_linear(b, hi, lo, one, 1, x, m as int, d, b.len());
        lemma_conv_one_right(b, d - m);
        assert(1 * conv_at(b, lo, d) == conv_at(b, lo, d));
    }
}

/// The product does not depend on the order of the factors.
pub proof fn lemma_conv_comm(a: Seq<int>, b: Seq<int>, d: int)
    ensures
        conv_at(a, b, d) == conv_at(b, a, d),
{
    lemma_conv_comm_partial(a, b, d, a.len());
    assert(low(a, a.len()) =~= a);
}

/// The product is linear in its first factor as well.
pub proof fn lemma_conv_linear_left(
    a: Seq<int>,
    a1: Seq<int>,
    a2: Seq<int>,
    b: Seq<int>,
    x: int,
    y: int,
    s: int,
    d: int,
)
    requires
        forall|j: int| #[trigger] coeff(a, j) == x * coeff(a1, j) + y * coeff(a2, j - s),
    ensures
        conv_at(a, b, d) == x * conv_at(a1, b, d) + y * conv_at(a2, b, d - s),
{
    lemma_conv_comm(a, b, d);
    lemma_conv_comm(a1, b, d);
    lemma_conv_comm(a2, b, d - s);
    lemma_conv_sum_linear(b, a, a1, a2, x, y, s, d, b.len());
}

/// Outside the degrees that the two factors can reach the product has no
/// coefficient.
pub proof fn lemma_conv_sum_support(a: Seq<int>, b: Seq<int>, d: int, n: nat)
    requires
        n <= a.len(),
        d < 0 || d >= a.len() + b.len() - 1,
    ensures
        conv_sum(a, b, d, n) == 0,
    decreases n,
{
    if n > 0 {
        lemma_conv_sum_support(a, b, d, (n - 1) as nat);
        assert(coeff(b, d - (n - 1)) == 0);
        assert(coeff(a, n - 1) * 0 == 0);
    }
}

/// The coefficients of `int_mul` are those of the product, at every degree.
pub proof fn lemma_int_mul_coeff(a: Seq<int>, b: Seq<int>, k: int)
    ensures
        coeff(int_mul(a, b), k) == conv_at(a, b, k),
{
    if k < 0 || k >= a.len() + b.len() - 1 {
        lemma_conv_sum_support(a, b, k, a.len());
    }
}

/// The polynomial whose coefficients are the sums over the `n` lowest terms
/// of `a`.
spec fn partial_product(a: Seq<int>, b: Seq<int>, n: nat) -> Seq<int> {
    Seq::new(a.len() + b.len(), |i: int| conv_sum(a, b, a.len() + b.len() - 1 - i, n))
}

/// The coefficients of `partial_product`, at every degree.
proof fn lemma_partial_product_coeff(a: Seq<int>, b: Seq<int>, n: nat, k: int)
    requires
        n <= a.len(),
    ensures
        coeff(partial_product(a, b, n), k) == conv_sum(a, b, k, n),
{
    if k < 0 || k >= a.len() + b.len() - 1 {
        lemma_conv_sum_support(a, b, k, n);
    }
}

/// Associativity for the `n` lowest terms of `a`.
proof fn lemma_conv_assoc_partial(a: Seq<int>, b: Seq<int>, c: Seq<int>, k: int, n: nat)
    requires
        n <= a.len(),
    ensures
        conv_at(partial_product(a, b, n), c, k) == conv_sum(a, int_mul(b, c), k, n),
    decreases n,
{
    let xn = partial_product(a, b, n);
    if n == 0 {
        assert forall|j: int| #[trigger] coeff(xn, j) == 0 * coeff(xn, j) + 0 * coeff(xn, j - 0) by {
            lemma_partial_product_coeff(a, b, 0, j);
        }
        lemma_conv_linear_left(xn, xn, xn, c, 0, 0, 0, k);
        assert(0 * conv_at(xn, c, k) + 0 * conv_at(xn, c, k - 0) == 0);
    } else {
        let m = (n - 1) as nat;
        let xm = partial_product(a, b, m);
        let x = coeff(a, m as int);
        lemma_conv_assoc_partial(a, b, c, k, m);
        assert forall|j: int| #[trigger] coeff(xn, j) == 1 * coeff(xm, j) + x * coeff(b, j - m) by {
            lemma_partial_product_coeff(a, b, n, j);
            lemma_partial_product_coeff(a, b, m, j);
        }
        lemma_conv_linear_left(xn, xm, b, c, 1, x, m as int, k);
        lemma_int_mul_coeff(b, c, k - m);
        assert(1 * conv_at(xm, c, k) == conv_at(xm, c, k));
    }
}

/// The product of three polynomials does not depend on the bracketing.
pub proof fn lemma_conv_assoc(a: Seq<int>, b: Seq<int>, c: Seq<int>, k: int)
    ensures
        conv_at(int_mul(a, b), c, k) == conv_at(a, int_mul(b, c), k),
{
    lemma_conv_assoc_partial(a, b, c, k, a.len());
    assert(partial_product(a, b, a.len()) =~= int_mul(a, b));
}

/// Congruent factors give congruent coefficients of the product.
pub proof fn lemma_conv_sum_eqm(
    p: int,
    a: Seq<int>,
    a2: Seq<int>,
    b: Seq<int>,
    b2: Seq<int>,
    d: int,
    n: nat,
)
    requires
        p > 0,
        forall|i: int| eqm(p, #[trigger] coeff(a, i), coeff(a2, i)),
        forall|j: int| eqm(p, #[trigger] coeff(b, j), coeff(b2, j)),
    ensures
        eqm(p, conv_sum(a, b, d, n), conv_sum(a2, b2, d, n)),
    decreases n,
{
    if n == 0 {
        lemma_eqm_refl(p, 0);
    } else {
        lemma_conv_sum_eqm(p, a, a2, b, b2, d, (n - 1) as nat);
        let i = n - 1;
        assert(eqm(p, coeff(a, i), coeff(a2, i)));
        assert(eqm(p, coeff(b, d - i), coeff(b2, d - i)));
        lemma_eqm_mul(p, coeff(a, i), coeff(a2, i), coeff(b, d - i), coeff(b2, d - i));
        lemma_eqm_add(
            p,
            conv_sum(a, b, d, i as nat),
            conv_sum(a2, b2, d, i as nat),
            coeff(a, i) * coeff(b, d - i),
            coeff(a2, i) * coeff(b2, d - i),
        );
    }
}

/// Congruent factors give congruent products.
pub proof fn lemma_conv_at_eqm(p: int, a: Seq<int>, a2: Seq<int>, b: Seq<int>, b2: Seq<int>, d: int)
    requires
        p > 0,
        forall|i: int| eqm(p, #[trigger] coeff(a, i), coeff(a2, i)),
        forall|j: int| eqm(p, #[trigger] coeff(b, j), coeff(b2, j)),
    ensures
        eqm(p, conv_at(a, b, d), conv_at(a2, b2, d)),
{
    let n = if a.len() >= a2.len() {
        a.len()
    } else {
        a2.len()
    };
    lemma_conv_sum_beyond(a, b, d, n);
    lemma_conv_sum_beyond(a2, b2, d, n);
    lemma_conv_sum_eqm(p, a, a2, b, b2, d, n);
}

} // verus!
