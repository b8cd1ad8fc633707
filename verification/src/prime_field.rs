use crate::error::FieldError;
use vstd::arithmetic::div_mod::*;
use vstd::arithmetic::mul::*;
use vstd::arithmetic::power::*;
use vstd::prelude::*;

verus! {

/// Sum of two residues modulo `p`.
pub open spec fn gf_add(p: int, a: int, b: int) -> int {
    (a + b) % p
}

/// Difference of two residues modulo `p`.
pub open spec fn gf_sub(p: int, a: int, b: int) -> int {
    (a - b) % p
}

/// Product of two residues modulo `p`.
pub open spec fn gf_mul(p: int, a: int, b: int) -> int {
    (a * b) % p
}

/// The candidate inverse `a^(p-2) mod p`; it is the inverse of `a` when `p`
/// is prime and `a` is not a multiple of `p`.
pub open spec fn gf_inv(p: int, a: int) -> int {
    pow(a, (p - 2) as nat) % p
}

/// Quotient of two residues: the dividend times the candidate inverse of the
/// divisor.
pub open spec fn gf_div(p: int, a: int, b: int) -> int {
    gf_mul(p, a, gf_inv(p, b))
}

/// An element of the ring of integers modulo `P`, held as its least
/// non-negative residue.
#[derive(Clone, Copy, Debug, PartialEq, Eq, Hash)]
pub struct GFElement<const P: usize> {
    value: usize,
}

impl<const P: usize> View for GFElement<P> {
    type V = int;

    /// The residue that the element stands for, in `[0, P)`.
    closed spec fn view(&self) -> int {
        (self.value as int) % (P as int)
    }
}

impl<const P: usize> GFElement<P> {
    /// The residue is held reduced.
    #[verifier::type_invariant]
    spec fn reduced(self) -> bool {
        self.value < P
    }

    /// The element that stands for the integer `v`.
    pub closed spec fn of_int(v: int) -> Self {
        GFElement { value: (v % (P as int)) as usize }
    }

    /// Every element, also one that exists in ghost code only, stands for a
    /// residue in `[0, P)`.
    pub broadcast proof fn lemma_view_range(self)
        requires
            P > 0,
        ensures
            0 <= #[trigger] self@ < P,
    {
        lemma_mod_bound(self.value as int, P as int);
    }

    /// `of_int` reduces its argument modulo `P`.
    pub broadcast proof fn lemma_of_int_view(v: int)
        requires
            P > 0,
        ensures
            #[trigger] Self::of_int(v)@ == v % (P as int),
    {
        lemma_mod_bound(v, P as int);
        lemma_mod_twice(v, P as int);
    }

    /// The modulus of the field.
    pub fn modulo() -> (p: usize)
        ensures
            p == P,
    {
        P
    }

    /// The residue as a machine integer.
    pub fn value(&self) -> (v: usize)
        ensures
            v == self@,
            v < P,
    {
        proof {
            use_type_invariant(self);
            lemma_small_mod(self.value as nat, P as nat);
        }
        self.value
    }

    /// The element `value mod P`.
    pub fn from(value: usize) -> (r: Self)
        requires
            P > 0,
        ensures
            r@ == value as int % P as int,
            r == Self::of_int(value as int),
    {
        proof {
            lemma_mod_twice(value as int, P as int);
        }
        GFElement { value: value % P }
    }

    /// The zero element.
    pub fn zero() -> (r: Self)
        requires
            P > 0,
        ensures
            r@ == 0,
            r == Self::of_int(0),
    {
        proof {
            lemma_small_mod(0, P as nat);
        }
        GFElement { value: 0 }
    }

    /// `(a * b) mod P` without overflow, whatever the width of `usize`.
    fn mul_mod(a: usize, b: usize) -> (r: usize)
        requires
            P > 0,
        ensures
            r == (a as int * b as int) % (P as int),
            r < P,
    {
        assert(0 <= a as int * b as int <= 0xffff_ffff_ffff_ffff * 0xffff_ffff_ffff_ffff)
            by (nonlinear_arith)
            requires
                0 <= a <= 0xffff_ffff_ffff_ffff,
                0 <= b <= 0xffff_ffff_ffff_ffff,
        ;
        let wide: u128 = (a as u128) * (b as u128);
        proof {
            lemma_mod_bound(wide as int, P as int);
        }
        (wide % (P as u128)) as usize
    }

    /// `base^exp mod P` by repeated squaring.
    fn pow_mod(base: usize, exp: usize) -> (r: usize)
        requires
            P > 0,
        ensures
            r == pow(base as int, exp as nat) % (P as int),
            r < P,
    {
        let mut acc: usize = 1 % P;
        let mut b: usize = base % P;
        let mut e: usize = exp;
        proof {
            lemma_pow0(base as int);
            lemma_mod_bound(1, P as int);
            lemma_mod_bound(base as int, P as int);
            lemma_pow_mod_noop(base as int, exp as nat, P as int);
            lemma_mul_mod_noop_general(1, pow(b as int, exp as nat), P as int);
        }
        while e > 0
            invariant
                P > 0,
                acc < P,
                b < P,
                (acc as int * pow(b as int, e as nat)) % (P as int) == pow(base as int, exp as nat)
                    % (P as int),
            decreases e,
        {
            let ghost acc0 = acc as int;
            let ghost b0 = b as int;
            let ghost e0 = e as nat;
            let ghost p = P as int;
            if e % 2 == 1 {
                acc = Self::mul_mod(acc, b);
                e = e - 1;
                proof {
                    // acc0 * b0^e0 == (acc0 * b0) * b0^(e0 - 1)
                    reveal(pow);
                    lemma_mul_is_associative(acc0, b0, pow(b0, e as nat));
                    lemma_mul_mod_noop_general(acc0 * b0, pow(b0, e as nat), p);
                }
            } else {
                b = Self::mul_mod(b, b);
                e = e / 2;
                proof {
                    // b0^e0 == (b0 * b0)^(e0 / 2)
                    lemma_pow_square(b0, e as nat);
                    lemma_pow_mod_noop(b0 * b0, e as nat, p);
                    lemma_mul_mod_noop_general(acc0, pow(b0 * b0, e as nat), p);
                    lemma_mul_mod_noop_general(acc0, pow(b as int, e as nat), p);
                }
            }
        }
        proof {
            lemma_pow0(b as int);
            lemma_small_mod(acc as nat, P as nat);
        }
        acc
    }

    /// The multiplicative inverse as `value^(P-2) mod P`, absent for zero.
    /// For a composite `P` the result is still that power, which need not be
    /// an inverse.
    pub fn inv(&self) -> (r: Option<Self>)
        ensures
            self@ == 0 <==> r is None,
            r matches Some(i) ==> i@ == gf_inv(P as int, self@),
    {
        let v = self.value();
        if v == 0 {
            None
        } else {
            let i = Self::pow_mod(v, P - 2);
            proof {
                lemma_small_mod(i as nat, P as nat);
            }
            Some(GFElement { value: i })
        }
    }

    /// Division that reports a zero divisor instead of demanding its absence.
    pub fn checked_div(self, rhs: Self) -> (r: Result<Self, FieldError>)
        ensures
            rhs@ == 0 <==> r is Err,
            r matches Err(e) ==> e == FieldError::DivisionByZero,
            r matches Ok(q) ==> q@ == gf_div(P as int, self@, rhs@),
    {
        match rhs.inv() {
            None => Err(FieldError::DivisionByZero),
            Some(i) => Ok(self * i),
        }
    }
}

/// Taking `b` away and adding it again gives the element back.
pub proof fn lemma_sub_then_add(p: int, a: int, b: int)
    requires
        p > 0,
        0 <= a < p,
    ensures
        gf_add(p, gf_sub(p, a, b), b) == a,
{
    lemma_add_mod_noop(a - b, b, p);
    lemma_mod_twice(a - b, p);
    lemma_add_mod_noop((a - b) % p, b, p);
    lemma_small_mod(a as nat, p as nat);
}

/// Division is multiplication by the inverse of the divisor.
pub proof fn lemma_div_is_mul_by_inverse(p: int, a: int, b: int)
    ensures
        gf_div(p, a, b) == gf_mul(p, a, gf_inv(p, b)),
{
}

/// A power with an even exponent is a power of the square.
proof fn lemma_pow_square(b: int, k: nat)
    ensures
        pow(b, 2 * k) == pow(b * b, k),
{
    lemma_pow_multiplies(b, 2, k);
    lemma_pow2_is_square(b);
}

/// The second power is the square.
proof fn lemma_pow2_is_square(b: int)
    ensures
        pow(b, 2) == b * b,
{
    reveal_with_fuel(pow, 3);
}

impl<const P: usize> core::ops::Add for GFElement<P> {
    type Output = Self;

    /// The sum modulo `P`.
    fn add(self, rhs: Self) -> (r: Self)
        ensures
            r@ == gf_add(P as int, self@, rhs@),
    {
        let a = self.value();
        let b = rhs.value();
        proof {
            lemma_mod_bound(a + b, P as int);
            lemma_mod_twice(a + b, P as int);
        }
        let s: u128 = (a as u128 + b as u128) % (P as u128);
        GFElement { value: s as usize }
    }
}

impl<const P: usize> vstd::std_specs::ops::AddSpecImpl for GFElement<P> {
    open spec fn obeys_add_spec() -> bool {
        true
    }

    open spec fn add_req(self, rhs: Self) -> bool {
        true
    }

    open spec fn add_spec(self, rhs: Self) -> Self {
        Self::of_int(gf_add(P as int, self@, rhs@))
    }
}

impl<const P: usize> core::ops::AddAssign for GFElement<P> {
    /// Adds `rhs` to the element in place.
    fn add_assign(&mut self, rhs: Self)
        ensures
            final(self)@ == gf_add(P as int, old(self)@, rhs@),
    {
        *self = *self + rhs;
    }
}

impl<const P: usize> core::ops::Sub for GFElement<P> {
    type Output = Self;

    /// The difference modulo `P`.
    fn sub(self, rhs: Self) -> (r: Self)
        ensures
            r@ == gf_sub(P as int, self@, rhs@),
    {
        let a = self.value();
        let b = rhs.value();
        proof {
            lemma_mod_bound(a + P - b, P as int);
            lemma_mod_twice(a + P - b, P as int);
            // (a + P - b) mod P == (a - b) mod P
            lemma_mod_add_multiples_vanish(a - b, P as int);
            lemma_mod_twice(a - b, P as int);
        }
        let s: u128 = (a as u128 + P as u128 - b as u128) % (P as u128);
        GFElement { value: s as usize }
    }
}

impl<const P: usize> vstd::std_specs::ops::SubSpecImpl for GFElement<P> {
    open spec fn obeys_sub_spec() -> bool {
        true
    }

    open spec fn sub_req(self, rhs: Self) -> bool {
        true
    }

    open spec fn sub_spec(self, rhs: Self) -> Self {
        Self::of_int(gf_sub(P as int, self@, rhs@))
    }
}

impl<const P: usize> core::ops::Mul for GFElement<P> {
    type Output = Self;

    /// The product modulo `P`.
    fn mul(self, rhs: Self) -> (r: Self)
        ensures
            r@ == gf_mul(P as int, self@, rhs@),
    {
        let a = self.value();
        let b = rhs.value();
        proof {
            lemma_mod_twice(a * b, P as int);
        }
        GFElement { value: Self::mul_mod(a, b) }
    }
}

impl<const P: usize> vstd::std_specs::ops::MulSpecImpl for GFElement<P> {
    open spec fn obeys_mul_spec() -> bool {
        true
    }

    open spec fn mul_req(self, rhs: Self) -> bool {
        true
    }

    open spec fn mul_spec(self, rhs: Self) -> Self {
        Self::of_int(gf_mul(P as int, self@, rhs@))
    }
}

impl<const P: usize> core::ops::Div for GFElement<P> {
    type Output = Self;

    /// The quotient: `self` times the inverse of `rhs`, which must not be zero.
    fn div(self, rhs: Self) -> (r: Self)
        ensures
            r@ == gf_div(P as int, self@, rhs@),
    {
        let i = rhs.inv();
        self * i.unwrap()
    }
}

impl<const P: usize> vstd::std_specs::ops::DivSpecImpl for GFElement<P> {
    open spec fn obeys_div_spec() -> bool {
        true
    }

    /// Division by the zero element is not defined.
    open spec fn div_req(self, rhs: Self) -> bool {
        rhs@ != 0
    }

    open spec fn div_spec(self, rhs: Self) -> Self {
        Self::of_int(gf_div(P as int, self@, rhs@))
    }
}

} // verus!
