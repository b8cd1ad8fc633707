use crate::digits::{all_zero, canonical, encode};
use crate::modular::is_unit;
use crate::poly::{poly_mul, poly_rem};
use crate::prime_field::{gf_add, gf_sub};
use vstd::arithmetic::power::pow;
use vstd::prelude::*;

verus! {

/// `f` can serve as the modulus of an extension of degree `m` over the
/// integers modulo `p`: it has `m + 1` canonical coefficients, highest degree
/// first, and its leading coefficient is a unit.
pub open spec fn valid_modulus(p: int, m: int, f: Seq<int>) -> bool {
    &&& p >= 2
    &&& m >= 1
    &&& f.len() == m + 1
    &&& canonical(p, f)
    &&& is_unit(p, f[0])
}

/// `a` is the coefficient vector of an element of the extension of degree
/// `m`: `m` canonical coefficients, highest degree first.
pub open spec fn is_element(p: int, m: int, a: Seq<int>) -> bool {
    a.len() == m && canonical(p, a)
}

/// The multiplicative identity: constant term one, all else zero.
pub open spec fn ext_one(m: nat) -> Seq<int> {
    Seq::new(m, |i: int| if i == m - 1 { 1int } else { 0int })
}

/// The zero element.
pub open spec fn ext_zero(m: nat) -> Seq<int> {
    Seq::new(m, |i: int| 0int)
}

/// Sum of two elements, coefficient by coefficient.
pub open spec fn ext_add(p: int, a: Seq<int>, b: Seq<int>) -> Seq<int> {
    Seq::new(a.len(), |i: int| gf_add(p, a[i], b[i]))
}

/// Difference of two elements, coefficient by coefficient.
pub open spec fn ext_sub(p: int, a: Seq<int>, b: Seq<int>) -> Seq<int> {
    Seq::new(a.len(), |i: int| gf_sub(p, a[i], b[i]))
}

/// Product of two elements: the product of the two polynomials, reduced
/// modulo `f`.
pub open spec fn ext_mul(p: int, f: Seq<int>, a: Seq<int>, b: Seq<int>) -> Seq<int> {
    poly_rem(p, f, poly_mul(p, a, b))
}

/// The `n`-th power of an element by repeated multiplication.
pub open spec fn ext_pow(p: int, f: Seq<int>, a: Seq<int>, n: nat) -> Seq<int>
    decreases n,
{
    if n == 0 {
        ext_one(a.len())
    } else if n == 1 {
        a
    } else {
        ext_mul(p, f, ext_pow(p, f, a, (n - 1) as nat), a)
    }
}

/// The number of non-zero elements of the extension of degree `m`.
pub open spec fn group_order(p: int, m: nat) -> int {
    pow(p, m) - 1
}

/// The candidate inverse `a^(p^m - 2)`; it is the inverse of `a` in a field,
/// for `a` not zero.
pub open spec fn ext_inv(p: int, f: Seq<int>, a: Seq<int>) -> Seq<int> {
    ext_pow(p, f, a, (group_order(p, a.len()) - 1) as nat)
}

/// Quotient of two elements: the dividend times the candidate inverse of the
/// divisor.
pub open spec fn ext_div(p: int, f: Seq<int>, a: Seq<int>, b: Seq<int>) -> Seq<int> {
    ext_mul(p, f, a, ext_inv(p, f, b))
}

/// The powers `g^1 .. g^(p^m - 1)` are all different and none of them is
/// zero: `g` generates the whole multiplicative group.
pub open spec fn is_generator(p: int, f: Seq<int>, g: Seq<int>) -> bool {
    &&& canonical(p, g)
    &&& forall|i: int|
        1 <= i <= group_order(p, g.len()) ==> !all_zero(#[trigger] ext_pow(p, f, g, i as nat))
    &&& forall|i: int, j: int|
        1 <= i < j <= group_order(p, g.len()) ==> #[trigger] ext_pow(p, f, g, i as nat)
            != #[trigger] ext_pow(p, f, g, j as nat)
}

/// The discrete logarithm of `e` to the base `g`: the exponent from `1` to
/// `p^m - 1` that makes `g` the element `e`. For a generator `g` every element
/// but zero has exactly one.
pub open spec fn discrete_log(p: int, f: Seq<int>, g: Seq<int>, e: Seq<int>) -> nat {
    choose|k: nat| 1 <= k <= group_order(p, g.len()) && ext_pow(p, f, g, k) == e
}

/// `table` holds the discrete logarithms to the base `g`: at the index that
/// the coefficients of a non-zero element spell in base `p` stands the
/// exponent, from `1` to `p^m - 1`, that makes `g` that element; the entry of
/// the zero element, at index zero, is absent.
pub open spec fn is_log_table(p: int, f: Seq<int>, g: Seq<int>, table: Seq<Option<usize>>) -> bool {
    &&& table.len() == pow(p, g.len())
    &&& table[0] is None
    &&& forall|x: int|
        1 <= x < table.len() ==> {
            &&& (#[trigger] table[x]) matches Some(k)
            &&& 1 <= k <= group_order(p, g.len())
            &&& encode(p, ext_pow(p, f, g, k as nat)) == x
        }
}

} // verus!
