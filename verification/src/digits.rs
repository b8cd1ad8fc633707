use crate::modular::lemma_pow_unfold;
use crate::prime_field::GFElement;
use vstd::arithmetic::div_mod::*;
use vstd::arithmetic::mul::*;
use vstd::arithmetic::power::*;
use vstd::prelude::*;

verus! {

/// The residues that a vector of field elements stands for, in the same
/// order: highest degree first.
pub open spec fn digits<const P: usize>(s: Seq<GFElement<P>>) -> Seq<int> {
    Seq::new(s.len(), |i: int| s[i]@)
}

/// Every entry lies in `[0, p)`.
pub open spec fn canonical(p: int, d: Seq<int>) -> bool {
    forall|i: int| 0 <= i < d.len() ==> 0 <= #[trigger] d[i] < p
}

/// Every entry is zero.
pub open spec fn all_zero(d: Seq<int>) -> bool {
    forall|i: int| 0 <= i < d.len() ==> #[trigger] d[i] == 0
}

/// The number that the digits spell in base `p`, most significant digit
/// first.
pub open spec fn encode(p: int, d: Seq<int>) -> int
    decreases d.len(),
{
    if d.len() == 0 {
        0
    } else {
        encode(p, d.drop_last()) * p + d.last()
    }
}

/// The views of field elements are canonical digits.
pub proof fn lemma_digits_canonical<const P: usize>(s: Seq<GFElement<P>>)
    requires
        P > 0,
    ensures
        canonical(P as int, digits(s)),
        digits(s).len() == s.len(),
{
    assert forall|i: int| 0 <= i < s.len() implies 0 <= #[trigger] digits(s)[i] < P by {
        s[i].lemma_view_range();
    }
}

/// Canonical digits spell a number below `p^len`.
pub proof fn lemma_encode_bound(p: int, d: Seq<int>)
    requires
        p > 0,
        canonical(p, d),
    ensures
        0 <= encode(p, d) < pow(p, d.len()),
    decreases d.len(),
{
    reveal(pow);
    if d.len() > 0 {
        let front = d.drop_last();
        lemma_encode_bound(p, front);
        assert(0 <= d.last() < p);
        assert(encode(p, front) * p + d.last() < pow(p, front.len()) * p) by (nonlinear_arith)
            requires
                0 <= encode(p, front) < pow(p, front.len()),
                0 <= d.last() < p,
        ;
        assert(0 <= encode(p, front) * p) by (nonlinear_arith)
            requires
                0 <= encode(p, front),
                p > 0,
        ;
        lemma_mul_is_commutative(p, pow(p, front.len()));
    }
}

/// Changing one digit moves the encoded number by the change times the
/// weight of the position.
pub proof fn lemma_encode_update(p: int, d: Seq<int>, j: int, v: int)
    requires
        0 <= j < d.len(),
    ensures
        encode(p, d.update(j, v)) == encode(p, d) + (v - d[j]) * pow(p, (d.len() - 1 - j) as nat),
    decreases d.len(),
{
    reveal(pow);
    let e = d.update(j, v);
    if j == d.len() - 1 {
        assert(e.drop_last() =~= d.drop_last());
        assert((v - d[j]) * pow(p, 0) == v - d[j]) by (nonlinear_arith)
            requires
                pow(p, 0) == 1,
        ;
    } else {
        let front = d.drop_last();
        assert(e.drop_last() =~= front.update(j, v));
        lemma_encode_update(p, front, j, v);
        let w = pow(p, (front.len() - 1 - j) as nat);
        assert(pow(p, (d.len() - 1 - j) as nat) == p * w);
        assert((encode(p, front) + (v - d[j]) * w) * p == encode(p, front) * p + (v - d[j]) * (p
            * w)) by (nonlinear_arith);
    }
}

/// The zero vector spells zero.
pub proof fn lemma_encode_zero(p: int, d: Seq<int>)
    requires
        all_zero(d),
    ensures
        encode(p, d) == 0,
    decreases d.len(),
{
    if d.len() > 0 {
        lemma_encode_zero(p, d.drop_last());
        assert(d.last() == 0);
    }
}

/// Two canonical vectors of one length that spell the same number are the
/// same vector.
pub proof fn lemma_encode_injective(p: int, a: Seq<int>, b: Seq<int>)
    requires
        p > 0,
        canonical(p, a),
        canonical(p, b),
        a.len() == b.len(),
        encode(p, a) == encode(p, b),
    ensures
        a == b,
    decreases a.len(),
{
    if a.len() > 0 {
        let fa = a.drop_last();
        let fb = b.drop_last();
        assert(0 <= a.last() < p && 0 <= b.last() < p);
        lemma_fundamental_div_mod_converse(encode(p, a), p, encode(p, fa), a.last());
        lemma_fundamental_div_mod_converse(encode(p, b), p, encode(p, fb), b.last());
        lemma_encode_injective(p, fa, fb);
        assert(a =~= fa.push(a.last()));
        assert(b =~= fb.push(b.last()));
    }
    assert(a =~= b);
}

/// Whether every digit is zero.
pub fn is_zero<const P: usize, const M: usize>(value: &[GFElement<P>; M]) -> (r: bool)
    ensures
        r == all_zero(digits(value@)),
{
    let mut i: usize = 0;
    while i < M
        invariant
            i <= M,
            forall|j: int| 0 <= j < i ==> #[trigger] digits(value@)[j] == 0,
        decreases M - i,
    {
        if value[i].value() != 0 {
            assert(digits(value@)[i as int] != 0);
            return false;
        }
        i += 1;
    }
    true
}

/// The next digit vector in counting order: one is added to the number the
/// digits spell in base `P`, and the largest vector wraps to zero.
pub fn positional_inc<const P: usize, const M: usize>(value: [GFElement<P>; M]) -> (r: [GFElement<
    P,
>; M])
    ensures
        encode(P as int, digits(r@)) == (encode(P as int, digits(value@)) + 1) % pow(
            P as int,
            M as nat,
        ),
{
    let mut value = value;
    let ghost orig = digits(value@);
    let mut carry = true;
    let mut i: usize = M;
    proof {
        reveal(pow);
    }
    while i > 0
        invariant
            i <= M,
            i < M ==> P > 0,
            i == M ==> carry,
            digits(value@).len() == M,
            orig.len() == M,
            encode(P as int, digits(value@)) + (if carry {
                pow(P as int, (M - i) as nat)
            } else {
                0
            }) == encode(P as int, orig) + 1,
        decreases i,
    {
        i -= 1;
        if carry {
            let ghost before = digits(value@);
            let v = value[i].value();
            let new_digit = value[i] + GFElement::<P>::from(1);
            // widened so that `v + 1` cannot overflow
            carry = (v as u128 + 1) >= P as u128;
            value[i] = new_digit;
            proof {
                let p = P as int;
                assert(before[i as int] == v);
                assert(digits(value@) =~= before.update(i as int, new_digit@));
                lemma_encode_update(p, before, i as int, new_digit@);
                let w = pow(p, (M - 1 - i) as nat);
                lemma_pow_unfold(p, (M - i) as nat);
                if P == 1 {
                    lemma_small_mod(0, 1);
                } else {
                    lemma_small_mod(1, P as nat);
                }
                lemma_add_mod_noop(v as int, 1, p);
                lemma_small_mod(v as nat, P as nat);
                if carry {
                    assert(v + 1 == p);
                    lemma_mod_self_0(p);
                    assert(new_digit@ == 0);
                    assert((0 - v) * w + p * w == w) by (nonlinear_arith)
                        requires
                            v + 1 == p,
                    ;
                } else {
                    lemma_small_mod((v + 1) as nat, P as nat);
                    assert(new_digit@ == v + 1);
                    assert((v + 1 - v) * w == w) by (nonlinear_arith);
                }
            }
        } else {
            proof {
                reveal(pow);
            }
        }
    }
    proof {
        let p = P as int;
        let m = pow(p, M as nat);
        if M == 0 {
            lemma_pow0(p);
            assert(encode(p, digits(value@)) == 0);
            assert(encode(p, orig) == 0);
            assert(1int % 1 == 0);
        } else {
            lemma_digits_canonical(value@);
            lemma_encode_bound(p, digits(value@));
            lemma_pow_positive(p, M as nat);
            if carry {
                lemma_mod_add_multiples_vanish(encode(p, digits(value@)), m);
            }
            lemma_small_mod(encode(p, digits(value@)) as nat, m as nat);
        }
    }
    value
}

} // verus!
