use crate::digits::{
    all_zero, canonical, encode, lemma_encode_bound, lemma_encode_injective, lemma_encode_zero,
};
use crate::ext_laws::{
    lemma_ext_mul_commutative, lemma_ext_mul_one, lemma_ext_pow_is_element, lemma_ext_pow_mul,
    lemma_ext_pow_of_one, lemma_ext_pow_step,
};
use crate::ext_spec::{
    discrete_log, ext_inv, ext_mul, ext_one, ext_pow, ext_zero, group_order, is_element,
    is_generator, valid_modulus,
};
use crate::search::lemma_pow_at_least_two;
use vstd::prelude::*;
use vstd::relations::injective_on;
use vstd::set_lib::{lemma_int_range, lemma_map_size, lemma_subset_equality, set_int_range};

verus! {

/// A map of the integers in `[lo, hi)` into themselves that sends no two of
/// them to one value reaches every one of them.
pub proof fn lemma_pigeonhole(lo: int, hi: int, f: spec_fn(int) -> int, y: int) -> (x: int)
    requires
        lo <= y < hi,
        forall|i: int| lo <= i < hi ==> lo <= #[trigger] f(i) < hi,
        forall|i: int, j: int|
            lo <= i < hi && lo <= j < hi && #[trigger] f(i) == #[trigger] f(j) ==> i == j,
    ensures
        lo <= x < hi,
        f(x) == y,
{
    let dom = set_int_range(lo, hi);
    let img = dom.map(f);
    lemma_int_range(lo, hi);
    assert(injective_on(f, dom));
    lemma_map_size(dom, img, f);
    assert(img.subset_of(dom)) by {
        assert forall|v: int| img.contains(v) implies dom.contains(v) by {
            let i = choose|i: int| dom.contains(i) && v == f(i);
            assert(lo <= f(i) < hi);
        }
    }
    lemma_subset_equality(img, dom);
    assert(dom.contains(y));
    assert(img.contains(y));
    choose|i: int| dom.contains(i) && y == f(i)
}

/// A canonical vector that is not zero spells a number that is not zero.
pub proof fn lemma_encode_nonzero(p: int, e: Seq<int>)
    requires
        p > 0,
        canonical(p, e),
        !all_zero(e),
    ensures
        0 < encode(p, e) < vstd::arithmetic::power::pow(p, e.len()),
{
    lemma_encode_bound(p, e);
    if encode(p, e) == 0 {
        let zeros = ext_zero(e.len());
        lemma_encode_zero(p, zeros);
        lemma_encode_injective(p, e, zeros);
    }
}

/// The powers of a generator visit every non-zero element: each is
/// `g^k` for some `k` from `1` to `p^m - 1`, the number of non-zero elements,
/// and for one `k` only, as the powers of a generator are all different.
pub proof fn lemma_generator_covers(p: int, m: int, f: Seq<int>, g: Seq<int>, e: Seq<int>) -> (k:
    nat)
    requires
        valid_modulus(p, m, f),
        is_element(p, m, g),
        is_generator(p, f, g),
        is_element(p, m, e),
        !all_zero(e),
    ensures
        1 <= k <= group_order(p, m as nat),
        ext_pow(p, f, g, k) == e,
        forall|j: int|
            1 <= j <= group_order(p, m as nat) && j != k ==> #[trigger] ext_pow(p, f, g, j as nat)
                != e,
{
    let n = group_order(p, m as nat);
    let code = |i: int| encode(p, ext_pow(p, f, g, i as nat));
    assert forall|i: int| 1 <= i < n + 1 implies 1 <= #[trigger] code(i) < n + 1 by {
        lemma_ext_pow_is_element(p, m, f, g, i as nat);
        assert(!all_zero(ext_pow(p, f, g, i as nat)));
        lemma_encode_nonzero(p, ext_pow(p, f, g, i as nat));
    }
    assert forall|i: int, j: int|
        1 <= i < n + 1 && 1 <= j < n + 1 && #[trigger] code(i) == #[trigger] code(j) implies i
        == j by {
        lemma_ext_pow_is_element(p, m, f, g, i as nat);
        lemma_ext_pow_is_element(p, m, f, g, j as nat);
        lemma_encode_injective(p, ext_pow(p, f, g, i as nat), ext_pow(p, f, g, j as nat));
        if i < j {
            assert(ext_pow(p, f, g, i as nat) != ext_pow(p, f, g, j as nat));
        }
        if j < i {
            assert(ext_pow(p, f, g, j as nat) != ext_pow(p, f, g, i as nat));
        }
    }
    lemma_encode_nonzero(p, e);
    let k = lemma_pigeonhole(1, n + 1, code, encode(p, e));
    lemma_ext_pow_is_element(p, m, f, g, k as nat);
    lemma_encode_injective(p, ext_pow(p, f, g, k as nat), e);
    assert forall|j: int| 1 <= j <= n && j != k implies #[trigger] ext_pow(p, f, g, j as nat)
        != e by {
        if j < k {
            assert(ext_pow(p, f, g, j as nat) != ext_pow(p, f, g, k as nat));
        } else {
            assert(ext_pow(p, f, g, k as nat) != ext_pow(p, f, g, j as nat));
        }
    }
    k as nat
}

/// Every element but zero is the generator raised to its discrete logarithm,
/// and to no other exponent from `1` to `p^m - 1`.
pub proof fn lemma_discrete_log(p: int, m: int, f: Seq<int>, g: Seq<int>, e: Seq<int>)
    requires
        valid_modulus(p, m, f),
        is_element(p, m, g),
        is_generator(p, f, g),
        is_element(p, m, e),
        !all_zero(e),
    ensures
        1 <= discrete_log(p, f, g, e) <= group_order(p, m as nat),
        ext_pow(p, f, g, discrete_log(p, f, g, e)) == e,
        forall|j: int|
            1 <= j <= group_order(p, m as nat) && #[trigger] ext_pow(p, f, g, j as nat) == e ==> j
                == discrete_log(p, f, g, e),
{
    let k = lemma_generator_covers(p, m, f, g, e);
    assert(1 <= k <= group_order(p, g.len()) && ext_pow(p, f, g, k) == e);
    let d = discrete_log(p, f, g, e);
    let j = d as int;
    assert(ext_pow(p, f, g, j as nat) == e);
    assert(d == k);
}

/// The last of the powers of a generator, `g^(p^m - 1)`, is the identity.
pub proof fn lemma_generator_order(p: int, m: int, f: Seq<int>, g: Seq<int>)
    requires
        valid_modulus(p, m, f),
        is_element(p, m, g),
        is_generator(p, f, g),
    ensures
        ext_pow(p, f, g, group_order(p, m as nat) as nat) == ext_one(m as nat),
{
    let n = group_order(p, m as nat);
    let one = ext_one(m as nat);
    lemma_pow_at_least_two(p, m as nat);
    assert(one[m - 1] == 1);
    let k = lemma_generator_covers(p, m, f, g, one);
    if k < n {
        // g^(k+1) == 1 * g == g^1, but the powers are all different
        lemma_ext_pow_step(p, m, f, g, k);
        lemma_ext_mul_one(p, m, f, g);
        let first = 1int;
        let next = k + 1;
        assert(ext_pow(p, f, g, first as nat) == g);
        assert(ext_pow(p, f, g, next as nat) == g);
        assert(1 <= first < next <= n);
        assert(false);
    }
}

/// Where the multiplicative group has a generator, every element but zero
/// times its candidate inverse is the identity: the extension is a field.
pub proof fn lemma_ext_inverse(p: int, m: int, f: Seq<int>, g: Seq<int>, e: Seq<int>)
    requires
        valid_modulus(p, m, f),
        is_element(p, m, g),
        is_generator(p, f, g),
        is_element(p, m, e),
        !all_zero(e),
    ensures
        ext_mul(p, f, e, ext_inv(p, f, e)) == ext_one(m as nat),
        ext_mul(p, f, ext_inv(p, f, e), e) == ext_one(m as nat),
{
    let n = group_order(p, m as nat) as nat;
    lemma_pow_at_least_two(p, m as nat);
    let k = lemma_generator_covers(p, m, f, g, e);
    // e^n == g^(k * n) == (g^n)^k == 1
    lemma_ext_pow_mul(p, m, f, g, k, n);
    lemma_ext_pow_mul(p, m, f, g, n, k);
    assert(k * n == n * k) by (nonlinear_arith);
    lemma_generator_order(p, m, f, g);
    lemma_ext_pow_of_one(p, m, f, k);
    assert(ext_pow(p, f, e, n) == ext_one(m as nat));
    lemma_ext_pow_step(p, m, f, e, (n - 1) as nat);
    lemma_ext_mul_commutative(p, f, e, ext_inv(p, f, e));
}

} // verus!
