use crate::digits::{
    all_zero, digits, encode, is_zero, lemma_digits_canonical, lemma_encode_bound,
    lemma_encode_injective,
};
use crate::ext_spec::{ext_pow, group_order, is_element, is_generator, valid_modulus};
use crate::extension::mul_digits;
use crate::modular::{is_inverse, is_unit, lemma_pow_unfold};
use crate::prime_field::GFElement;
use std::collections::HashSet;
use vstd::arithmetic::div_mod::*;
use vstd::arithmetic::mul::*;
use vstd::arithmetic::power::*;
use vstd::prelude::*;

verus! {

/// The number of elements of the extension, `P^M`.
pub fn field_size<const P: usize, const M: usize>() -> (r: usize)
    requires
        P > 0,
        pow(P as int, M as nat) <= usize::MAX,
    ensures
        r == pow(P as int, M as nat),
{
    let mut r: usize = 1;
    let mut i: usize = 0;
    proof {
        lemma_pow0(P as int);
    }
    while i < M
        invariant
            P > 0,
            i <= M,
            r == pow(P as int, i as nat),
            pow(P as int, M as nat) <= usize::MAX,
        decreases M - i,
    {
        proof {
            lemma_pow_unfold(P as int, (i + 1) as nat);
            lemma_pow_increases(P as nat, (i + 1) as nat, M as nat);
            lemma_mul_is_commutative(P as int, r as int);
        }
        r = r * P;
        i += 1;
    }
    r
}

/// The number that the digits of `value` spell in base `P`.
pub fn encode_digits<const P: usize, const M: usize>(value: &[GFElement<P>; M]) -> (r: usize)
    requires
        pow(P as int, M as nat) <= usize::MAX,
    ensures
        r == encode(P as int, digits(value@)),
{
    let ghost p = P as int;
    let ghost d = digits(value@);
    let mut r: usize = 0;
    let mut i: usize = 0;
    assert(d.subrange(0, 0).len() == 0);
    while i < M
        invariant
            i <= M,
            p == P as int,
            d == digits(value@),
            d.len() == M,
            r == encode(p, d.subrange(0, i as int)),
            pow(p, M as nat) <= usize::MAX,
        decreases M - i,
    {
        let v = value[i].value();
        proof {
            let front = d.subrange(0, i as int);
            let next = d.subrange(0, i + 1);
            assert(next.drop_last() =~= front);
            assert(next.last() == v);
            lemma_digits_canonical(value@);
            lemma_encode_bound(p, next);
            lemma_pow_increases(P as nat, (i + 1) as nat, M as nat);
            assert(encode(p, next) == r * p + v);
            assert(r * p >= 0) by (nonlinear_arith)
                requires
                    r >= 0,
                    p >= 0,
            ;
        }
        r = r * P + v;
        i += 1;
    }
    assert(d.subrange(0, M as int) =~= d);
    r
}

/// The inverse of `c` modulo `P`, found by trying every residue; absent
/// where `c` is no unit. For a prime `P` every non-zero `c` has one.
pub fn find_unit_inverse<const P: usize>(c: GFElement<P>) -> (r: Option<GFElement<P>>)
    ensures
        r is Some <==> is_unit(P as int, c@),
        r matches Some(k) ==> is_inverse(P as int, c@, k@),
{
    let ghost p = P as int;
    let cv = c.value();
    let mut k: usize = 1;
    while k < P
        invariant
            1 <= k <= P,
            p == P as int,
            forall|j: int| 1 <= j < k ==> !is_inverse(p, c@, j),
        decreases P - k,
    {
        let candidate = GFElement::<P>::from(k);
        proof {
            lemma_small_mod(k as nat, P as nat);
        }
        if (candidate * c).value() == 1 {
            assert(is_inverse(p, c@, candidate@));
            return Some(candidate);
        }
        k += 1;
    }
    assert(!is_unit(p, c@));
    None
}

/// Whether the powers `e^1 .. e^order` are all different and not zero, for
/// `order` the number of non-zero elements: whether `e` generates the
/// multiplicative group.
pub fn generates<const P: usize, const M: usize>(
    modulus: &[GFElement<P>],
    e: &[GFElement<P>; M],
    order: usize,
) -> (r: bool)
    requires
        valid_modulus(P as int, M as int, digits(modulus@)),
        pow(P as int, M as nat) <= usize::MAX,
        order == group_order(P as int, M as nat),
    ensures
        r == is_generator(P as int, digits(modulus@), digits(e@)),
{
    broadcast use vstd::std_specs::hash::group_hash_axioms;

    let ghost p = P as int;
    let ghost f = digits(modulus@);
    let ghost de = digits(e@);
    proof {
        lemma_digits_canonical(e@);
        lemma_pow_at_least_two(p, M as nat);
    }
    if is_zero(e) {
        proof {
            let one = 1int;
            assert(ext_pow(p, f, de, one as nat) == de);
            assert(1 <= one <= group_order(p, de.len()));
        }
        return false;
    }
    let mut terms: HashSet<usize> = HashSet::new();
    let first = encode_digits(e);
    terms.insert(first);
    let ghost mut witness: Map<usize, int> = Map::empty().insert(first, 1int);
    let mut exponent = *e;
    let mut power: usize = 1;
    while power < order
        invariant
            valid_modulus(p, M as int, f),
            p == P as int,
            f == digits(modulus@),
            de == digits(e@),
            pow(p, M as nat) <= usize::MAX,
            2 * M <= usize::MAX,
            order == group_order(p, M as nat),
            1 <= power <= order,
            digits(exponent@) == ext_pow(p, f, de, power as nat),
            forall|i: int|
                1 <= i <= power ==> {
                    &&& is_element(p, M as int, #[trigger] ext_pow(p, f, de, i as nat))
                    &&& !all_zero(ext_pow(p, f, de, i as nat))
                    &&& terms@.contains(encode(p, ext_pow(p, f, de, i as nat)) as usize)
                },
            forall|i: int, j: int|
                1 <= i < j <= power ==> #[trigger] ext_pow(p, f, de, i as nat)
                    != #[trigger] ext_pow(p, f, de, j as nat),
            forall|x: usize| #[trigger]
                terms@.contains(x) ==> {
                    &&& witness.dom().contains(x)
                    &&& 1 <= witness[x] <= power
                    &&& encode(p, ext_pow(p, f, de, witness[x] as nat)) == x
                },
        decreases order - power,
    {
        exponent = mul_digits(modulus, &exponent, e);
        let ghost next = ext_pow(p, f, de, (power + 1) as nat);
        proof {
            assert(digits(exponent@) == next);
            lemma_digits_canonical(exponent@);
        }
        if is_zero(&exponent) {
            return false;
        }
        let code = encode_digits(&exponent);
        let ghost before = terms@;
        let fresh = terms.insert(code);
        if !fresh {
            proof {
                let i = witness[code];
                let repeated = ext_pow(p, f, de, i as nat);
                assert(is_element(p, M as int, repeated));
                lemma_encode_injective(p, repeated, next);
            }
            return false;
        }
        proof {
            witness = witness.insert(code, power + 1);
            assert forall|i: int, j: int| 1 <= i < j <= power + 1 implies #[trigger] ext_pow(
                p,
                f,
                de,
                i as nat,
            ) != #[trigger] ext_pow(p, f, de, j as nat) by {
                if j == power + 1 {
                    assert(before.contains(encode(p, ext_pow(p, f, de, i as nat)) as usize));
                }
            }
            assert forall|i: int| 1 <= i <= power + 1 implies {
                &&& is_element(p, M as int, #[trigger] ext_pow(p, f, de, i as nat))
                &&& !all_zero(ext_pow(p, f, de, i as nat))
                &&& terms@.contains(encode(p, ext_pow(p, f, de, i as nat)) as usize)
            } by {
                if i <= power {
                    assert(before.contains(encode(p, ext_pow(p, f, de, i as nat)) as usize));
                }
            }
        }
        power += 1;
    }
    true
}

/// A field has at least two elements.
pub proof fn lemma_pow_at_least_two(p: int, m: nat)
    requires
        p >= 2,
        m >= 1,
    ensures
        pow(p, m) >= 2,
        pow(p, m) >= 2 * m,
    decreases m,
{
    lemma_pow_unfold(p, m);
    if m == 1 {
        lemma_pow0(p);
    } else {
        lemma_pow_at_least_two(p, (m - 1) as nat);
        assert(p * pow(p, (m - 1) as nat) >= 2 * pow(p, (m - 1) as nat)) by (nonlinear_arith)
            requires
                p >= 2,
                pow(p, (m - 1) as nat) >= 0,
        ;
    }
}

} // verus!
