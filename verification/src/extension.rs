use crate::digits::{
    all_zero, canonical, digits, encode, is_zero, lemma_digits_canonical, lemma_encode_bound,
    lemma_encode_injective, lemma_encode_zero, positional_inc,
};
use crate::error::FieldError;
use crate::ext_laws::{lemma_ext_mul_commutative, lemma_ext_pow_add, lemma_ext_pow_is_element};
use crate::ext_spec::{
    discrete_log, ext_add, ext_div, ext_inv, ext_mul, ext_one, ext_pow, ext_sub, group_order,
    is_element, is_generator, is_log_table, valid_modulus,
};
use crate::generator_laws::{lemma_discrete_log, lemma_encode_nonzero, lemma_ext_inverse};
use crate::modular::lemma_unit_nonzero;
use crate::poly::{
    coeff, conv_at, conv_sum, convolve, degree, euclidian_divrem, padded, poly_mul, poly_rem,
    trim, zero_vec,
};
use crate::prime_field::GFElement;
use crate::search::{
    encode_digits, field_size, find_unit_inverse, generates, lemma_pow_at_least_two,
};
use vstd::arithmetic::div_mod::*;
use vstd::arithmetic::power::*;
use vstd::prelude::*;

verus! {

/// A polynomial with `z` zero coefficients in front of a non-zero one has
/// the degree of that coefficient.
proof fn lemma_degree_after_zeros(d: Seq<int>, z: int)
    requires
        0 <= z < d.len(),
        forall|j: int| 0 <= j < z ==> d[j] == 0,
        d[z] != 0,
    ensures
        degree(d) == d.len() - 1 - z,
    decreases z,
{
    if z > 0 {
        let rest = d.drop_first();
        assert(rest[z - 1] == d[z]);
        lemma_degree_after_zeros(rest, z - 1);
    }
}

/// The product of two elements of the extension whose modulus is `modulus`:
/// the two polynomials are multiplied, and the product is divided by the
/// modulus; the remainder is the result.
pub fn mul_digits<const P: usize, const M: usize>(
    modulus: &[GFElement<P>],
    a: &[GFElement<P>; M],
    b: &[GFElement<P>; M],
) -> (r: [GFElement<P>; M])
    requires
        valid_modulus(P as int, M as int, digits(modulus@)),
        2 * M <= usize::MAX,
    ensures
        digits(r@) == ext_mul(P as int, digits(modulus@), digits(a@), digits(b@)),
{
    let ghost p = P as int;
    let ghost f = digits(modulus@);
    let ghost da = digits(a@);
    let ghost db = digits(b@);
    if M == 1 {
        let x = a[0] * b[0];
        let mut r = [GFElement::<P>::zero();M];
        r[0] = x;
        proof {
            assert(da[0] == a@[0]@ && db[0] == b@[0]@);
            let u = poly_mul(p, da, db);
            assert(conv_sum(da, db, 0, 1) == conv_sum(da, db, 0, 0) + coeff(da, 0) * coeff(db, 0));
            assert(u.len() == 1);
            assert(conv_at(da, db, 0) == da[0] * db[0]);
            assert(u[0] == (da[0] * db[0]) % p);
            assert(r@.len() == 1);
            assert(r@[0]@ == (da[0] * db[0]) % p);
            assert(digits(r@) =~= u);
        }
        return r;
    }
    let product = convolve(a.as_slice(), b.as_slice());
    let len = M - 1 + M;
    let mut upcast = zero_vec::<P>(len);
    let mut i: usize = 0;
    while i <= M
        invariant
            P > 0,
            M >= 2,
            i <= M + 1,
            len == 2 * M - 1,
            upcast.len() == len,
            modulus.len() == M + 1,
            forall|j: int| 0 <= j < M - 2 ==> (#[trigger] upcast@[j])@ == 0,
            forall|j: int| M - 2 <= j < M - 2 + i ==> #[trigger] upcast@[j] == modulus@[j - (M - 2)],
        decreases M + 1 - i,
    {
        upcast[M - 2 + i] = modulus[i];
        i += 1;
    }
    let ghost du = digits(upcast@);
    proof {
        lemma_unit_nonzero(p, f[0]);
        assert(du[M - 2] == f[0]);
        assert forall|j: int| 0 <= j < M - 2 implies du[j] == 0 by {
            assert(upcast@[j]@ == 0);
        }
        lemma_degree_after_zeros(du, M - 2);
        assert(trim(du) =~= f);
    }
    let (_quotient, remainder) = euclidian_divrem(product, upcast.as_slice());
    let mut r = [GFElement::<P>::zero();M];
    let ghost rem = poly_rem(p, f, poly_mul(p, da, db));
    proof {
        crate::poly::lemma_reduce_steps_len(p, f, poly_mul(p, da, db), (M - 1) as nat);
        assert(rem.len() == M);
    }
    let mut k: usize = 0;
    while k < M
        invariant
            k <= M,
            M >= 2,
            remainder.len() == 2 * M - 1,
            rem.len() == M,
            digits(remainder@) == padded((2 * M - 1) as nat, rem),
            forall|j: int| 0 <= j < k ==> (#[trigger] r@[j])@ == rem[j],
        decreases M - k,
    {
        r[k] = remainder[M - 1 + k];
        proof {
            assert(digits(remainder@)[M - 1 + k] == rem[k as int]);
        }
        k += 1;
    }
    assert(digits(r@) =~= rem);
    r
}

/// The extension of degree `M` of the integers modulo `P` that a modulus
/// polynomial defines, together with a generator of its multiplicative
/// group.
#[derive(Debug, PartialEq, Eq, Hash)]
pub struct EGF<const P: usize, const M: usize> {
    /// The modulus, highest degree first.
    polynomial: Vec<GFElement<P>>,
    primitive: [GFElement<P>; M],
}

/// An element of an extension field: the `M` coefficients of a polynomial,
/// highest degree first, and the field that it belongs to.
#[derive(Clone, Copy, Debug, PartialEq, Eq, Hash)]
pub struct EGFElement<'f, const P: usize, const M: usize> {
    value: [GFElement<P>; M],
    field: &'f EGF<P, M>,
}

impl<const P: usize, const M: usize> EGF<P, M> {
    /// The modulus is valid and the cached element generates the group.
    #[verifier::type_invariant]
    spec fn well_formed(self) -> bool {
        &&& valid_modulus(P as int, M as int, digits(self.polynomial@))
        &&& pow(P as int, M as nat) <= usize::MAX
        &&& is_generator(P as int, digits(self.polynomial@), digits(self.primitive@))
    }

    /// The coefficients of the modulus, highest degree first.
    pub closed spec fn modulus(&self) -> Seq<int> {
        digits(self.polynomial@)
    }

    /// The coefficients of the cached generator.
    pub closed spec fn generator(&self) -> Seq<int> {
        digits(self.primitive@)
    }

    /// The first generator of the multiplicative group in counting order of
    /// the coefficient vectors, starting from the vector that spells one;
    /// `None` where no vector generates the group.
    pub fn find_primitive(modulus: &[GFElement<P>]) -> (r: Option<[GFElement<P>; M]>)
        requires
            valid_modulus(P as int, M as int, digits(modulus@)),
            pow(P as int, M as nat) <= usize::MAX,
        ensures
            r matches Some(g) ==> {
                &&& is_generator(P as int, digits(modulus@), digits(g@))
                &&& forall|e: Seq<int>|
                    is_element(P as int, M as int, e) && encode(P as int, e) < encode(
                        P as int,
                        digits(g@),
                    ) ==> !#[trigger] is_generator(P as int, digits(modulus@), e)
            },
            r is None ==> forall|e: Seq<int>|
                is_element(P as int, M as int, e) ==> !#[trigger] is_generator(
                    P as int,
                    digits(modulus@),
                    e,
                ),
    {
        let ghost p = P as int;
        let ghost f = digits(modulus@);
        proof {
            lemma_pow_at_least_two(p, M as nat);
        }
        let order = field_size::<P, M>() - 1;
        let mut element = [GFElement::<P>::zero();M];
        element[M - 1] = GFElement::from(1);
        proof {
            let d = digits(element@);
            lemma_small_mod(1, P as nat);
            let zeros = d.update(M - 1, 0);
            assert(all_zero(zeros));
            lemma_encode_zero(p, zeros);
            crate::digits::lemma_encode_update(p, zeros, M - 1, 1);
            assert(zeros.update(M - 1, 1) =~= d);
            lemma_pow0(p);
            assert(encode(p, d) == 1);
            assert forall|e: Seq<int>|
                is_element(p, M as int, e) && encode(p, e) < 1 implies !#[trigger] is_generator(
                p,
                f,
                e,
            ) by {
                lemma_zero_not_generator(p, f, e);
            }
        }
        loop
            invariant
                valid_modulus(p, M as int, f),
                p == P as int,
                f == digits(modulus@),
                pow(p, M as nat) <= usize::MAX,
                2 * M <= usize::MAX,
                order == group_order(p, M as nat),
                1 <= encode(p, digits(element@)) <= order,
                forall|e: Seq<int>|
                    is_element(p, M as int, e) && encode(p, e) < encode(p, digits(element@))
                        ==> !#[trigger] is_generator(p, f, e),
            decreases order - encode(p, digits(element@)),
        {
            let ghost cur = digits(element@);
            proof {
                lemma_digits_canonical(element@);
            }
            if generates(modulus, &element, order) {
                return Some(element);
            }
            element = positional_inc(element);
            proof {
                let next = digits(element@);
                let c = encode(p, cur);
                lemma_digits_canonical(element@);
                lemma_encode_bound(p, next);
                assert forall|e: Seq<int>|
                    is_element(p, M as int, e) && encode(p, e) < c + 1 implies !#[trigger] is_generator(
                p, f, e) by {
                    if encode(p, e) == c {
                        lemma_encode_injective(p, e, cur);
                    }
                }
                if c + 1 == pow(p, M as nat) {
                    lemma_mod_self_0(pow(p, M as nat));
                    let zeros = Seq::new(M as nat, |i: int| 0int);
                    lemma_encode_zero(p, zeros);
                    lemma_encode_injective(p, next, zeros);
                    assert(all_zero(next));
                    assert forall|e: Seq<int>| is_element(p, M as int, e) implies !#[trigger] is_generator(
                    p, f, e) by {
                        lemma_encode_bound(p, e);
                    }
                } else {
                    lemma_small_mod((c + 1) as nat, pow(p, M as nat) as nat);
                    if all_zero(next) {
                        lemma_encode_zero(p, next);
                    }
                }
            }
            if is_zero(&element) {
                return None;
            }
        }
    }

    /// The field that `polynomial` defines: `M + 1` coefficients, highest
    /// degree first, with an invertible leading coefficient. The generator is
    /// searched at once. A vector of another length is refused as
    /// `InvalidConstruction`; a modulus that gives no generator, by its
    /// leading coefficient or because it is not irreducible, as
    /// `PrimitiveSearchExhausted`.
    pub fn new(polynomial: Vec<GFElement<P>>) -> (r: Result<Self, FieldError>)
        requires
            pow(P as int, M as nat) <= usize::MAX,
        ensures
            r is Ok <==> {
                &&& polynomial.len() == M + 1
                &&& valid_modulus(P as int, M as int, digits(polynomial@))
                &&& exists|e: Seq<int>|
                    is_element(P as int, M as int, e) && #[trigger] is_generator(
                        P as int,
                        digits(polynomial@),
                        e,
                    )
            },
            r matches Err(e) ==> (e == FieldError::InvalidConstruction <==> polynomial.len() != M
                + 1),
            r matches Err(e) ==> (e == FieldError::PrimitiveSearchExhausted <==> polynomial.len()
                == M + 1),
            r matches Ok(field) ==> {
                &&& field.modulus() == digits(polynomial@)
                &&& is_generator(P as int, field.modulus(), field.generator())
                &&& forall|e: Seq<int>|
                    is_element(P as int, M as int, e) && encode(P as int, e) < encode(
                        P as int,
                        field.generator(),
                    ) ==> !#[trigger] is_generator(P as int, field.modulus(), e)
            },
    {
        let ghost p = P as int;
        let ghost f = digits(polynomial@);
        if polynomial.len() == 0 || polynomial.len() - 1 != M {
            return Err(FieldError::InvalidConstruction);
        }
        if M == 0 {
            return Err(FieldError::PrimitiveSearchExhausted);
        }
        match find_unit_inverse(polynomial[0]) {
            None => {
                return Err(FieldError::PrimitiveSearchExhausted);
            },
            Some(_) => {},
        }
        proof {
            lemma_digits_canonical(polynomial@);
            if P == 1 {
                let k = choose|k: int| crate::modular::is_inverse(p, f[0], k);
                assert(false);
            }
            assert(valid_modulus(p, M as int, f));
        }
        match Self::find_primitive(polynomial.as_slice()) {
            None => Err(FieldError::PrimitiveSearchExhausted),
            Some(primitive) => {
                proof {
                    lemma_digits_canonical(primitive@);
                    assert(is_element(p, M as int, digits(primitive@)));
                }
                Ok(EGF { polynomial, primitive })
            },
        }
    }

    /// The element of this field with the given coefficients, highest degree
    /// first.
    pub fn construct_element(&self, value: [GFElement<P>; M]) -> (r: EGFElement<'_, P, M>)
        ensures
            r@ == digits(value@),
            r.field() == *self,
    {
        EGFElement { value, field: self }
    }

    /// The element of this field whose coefficients are the given integers,
    /// each reduced modulo `P`.
    pub fn construct_from_digits(&self, value: [usize; M]) -> (r: EGFElement<'_, P, M>)
        ensures
            r@ == Seq::new(M as nat, |i: int| value@[i] as int % P as int),
            r.field() == *self,
    {
        proof {
            use_type_invariant(self);
        }
        let mut digits = [GFElement::<P>::zero();M];
        let mut i: usize = 0;
        while i < M
            invariant
                P > 0,
                i <= M,
                forall|j: int| 0 <= j < i ==> (#[trigger] digits@[j])@ == value@[j] as int % P as int,
            decreases M - i,
        {
            digits[i] = GFElement::from(value[i]);
            i += 1;
        }
        let r = self.construct_element(digits);
        assert(r@ =~= Seq::new(M as nat, |i: int| value@[i] as int % P as int));
        r
    }

    /// The table of discrete logarithms: at the index that the coefficients
    /// of a non-zero element spell in base `P` stands the power of the
    /// generator that gives the element; the entry of the zero element, at
    /// index zero, is absent.
    pub fn build_log_table(&self) -> (table: Vec<Option<usize>>)
        ensures
            is_log_table(P as int, self.modulus(), self.generator(), table@),
    {
        let ghost p = P as int;
        let ghost f = self.modulus();
        let ghost g = self.generator();
        proof {
            use_type_invariant(self);
            lemma_pow_at_least_two(p, M as nat);
        }
        let size = field_size::<P, M>();
        assert(g.len() == M);
        let mut table: Vec<Option<usize>> = Vec::new();
        table.push(None);
        let mut element = [GFElement::<P>::zero();M];
        element[M - 1] = GFElement::from(1);
        proof {
            let d = digits(element@);
            lemma_small_mod(1, P as nat);
            let zeros = d.update(M - 1, 0);
            assert(all_zero(zeros));
            lemma_encode_zero(p, zeros);
            crate::digits::lemma_encode_update(p, zeros, M - 1, 1);
            assert(zeros.update(M - 1, 1) =~= d);
            lemma_pow0(p);
        }
        let mut code: usize = 1;
        while code < size
            invariant
                p == P as int,
                f == self.modulus(),
                g == self.generator(),
                size == pow(p, M as nat),
                1 <= code <= size,
                table.len() == code,
                code < size ==> encode(p, digits(element@)) == code,
                table@[0] is None,
                forall|x: int|
                    1 <= x < code ==> {
                        &&& (#[trigger] table@[x]) matches Some(k)
                        &&& 1 <= k <= group_order(p, M as nat)
                        &&& encode(p, ext_pow(p, f, g, k as nat)) == x
                    },
            decreases size - code,
        {
            proof {
                if all_zero(digits(element@)) {
                    lemma_encode_zero(p, digits(element@));
                }
            }
            let log = self.construct_element(element).primitive_power();
            table.push(Some(log));
            element = positional_inc(element);
            proof {
                if code + 1 < size {
                    lemma_small_mod((code + 1) as nat, size as nat);
                }
            }
            code += 1;
        }
        table
    }

    /// The order of the prime field underneath.
    pub fn prime_base(&self) -> (p: usize)
        ensures
            p == P,
    {
        P
    }

    /// The degree of the extension.
    pub fn power(&self) -> (m: usize)
        ensures
            m == M,
    {
        M
    }

    /// The cached generator of the multiplicative group, as an element of
    /// this field.
    pub fn primitive(&self) -> (g: EGFElement<'_, P, M>)
        ensures
            g@ == self.generator(),
            g.field() == *self,
            valid_modulus(P as int, M as int, self.modulus()),
            is_generator(P as int, self.modulus(), self.generator()),
    {
        proof {
            use_type_invariant(self);
        }
        self.construct_element(self.primitive)
    }
}

impl<const P: usize, const M: usize> Clone for EGF<P, M> {
    /// A field with the same modulus and generator.
    fn clone(&self) -> (r: Self)
        ensures
            r.modulus() == self.modulus(),
            r.generator() == self.generator(),
    {
        proof {
            use_type_invariant(self);
        }
        let n = self.polynomial.len();
        let mut polynomial: Vec<GFElement<P>> = Vec::new();
        let mut i: usize = 0;
        while i < n
            invariant
                i <= n,
                n == self.polynomial.len(),
                polynomial.len() == i,
                forall|j: int| 0 <= j < i ==> polynomial@[j] == self.polynomial@[j],
            decreases n - i,
        {
            polynomial.push(self.polynomial[i]);
            i += 1;
        }
        assert(polynomial@ =~= self.polynomial@);
        EGF { polynomial, primitive: self.primitive }
    }
}

/// Whether two coefficient vectors are the same.
pub fn same_digits<const P: usize, const M: usize>(
    a: &[GFElement<P>; M],
    b: &[GFElement<P>; M],
) -> (r: bool)
    ensures
        r == (digits(a@) == digits(b@)),
{
    let mut i: usize = 0;
    while i < M
        invariant
            i <= M,
            forall|j: int| 0 <= j < i ==> digits(a@)[j] == digits(b@)[j],
        decreases M - i,
    {
        if a[i].value() != b[i].value() {
            assert(digits(a@)[i as int] != digits(b@)[i as int]);
            return false;
        }
        i += 1;
    }
    assert(digits(a@) =~= digits(b@));
    true
}

/// The zero vector generates nothing.
proof fn lemma_zero_not_generator(p: int, f: Seq<int>, e: Seq<int>)
    requires
        p >= 2,
        e.len() >= 1,
        canonical(p, e),
        encode(p, e) < 1,
    ensures
        !is_generator(p, f, e),
{
    let zeros = Seq::new(e.len(), |i: int| 0int);
    lemma_encode_zero(p, zeros);
    lemma_encode_bound(p, e);
    lemma_encode_injective(p, e, zeros);
    lemma_pow_at_least_two(p, e.len());
    let one = 1int;
    assert(ext_pow(p, f, e, one as nat) == e);
    assert(1 <= one <= group_order(p, e.len()));
}

impl<'f, const P: usize, const M: usize> View for EGFElement<'f, P, M> {
    type V = Seq<int>;

    /// The coefficients of the element, highest degree first, each in
    /// `[0, P)`.
    closed spec fn view(&self) -> Seq<int> {
        digits(self.value@)
    }
}

impl<'f, const P: usize, const M: usize> EGFElement<'f, P, M> {
    /// The field that the element belongs to.
    pub closed spec fn field(&self) -> EGF<P, M> {
        *self.field
    }

    /// The view of every element is a coefficient vector of its field.
    pub proof fn lemma_view_is_element(self)
        requires
            P > 0,
        ensures
            is_element(P as int, M as int, self@),
    {
        lemma_digits_canonical(self.value@);
    }

    /// The element as a polynomial in `x`: the terms that are not zero,
    /// highest degree first, joined by `" + "`; `"0"` for the zero element.
    pub fn as_polynomial(&self) -> (r: String)
        ensures
            r@ == crate::render::render_polynomial(self@),
    {
        crate::render::render_digits(self.value.as_slice())
    }

    /// The element raised to `power` by repeated squaring; the identity for
    /// the power zero.
    pub fn pow(self, power: usize) -> (r: Self)
        ensures
            r@ == ext_pow(P as int, self.field().modulus(), self@, power as nat),
            r.field() == self.field(),
        decreases power,
    {
        let ghost p = P as int;
        let ghost f = self.field().modulus();
        proof {
            use_type_invariant(self.field);
            self.lemma_view_is_element();
        }
        if power == 0 {
            let mut buf = [0usize;M];
            buf[M - 1] = 1;
            let r = self.field.construct_from_digits(buf);
            proof {
                lemma_small_mod(0, P as nat);
                lemma_small_mod(1, P as nat);
                assert(r@ =~= ext_one(M as nat));
            }
            return r;
        }
        if power == 1 {
            return self;
        }
        if power % 2 == 0 {
            let half = self.pow(power / 2);
            proof {
                lemma_ext_pow_add(p, M as int, f, self@, (power / 2) as nat, (power / 2) as nat);
            }
            half * half
        } else {
            let rest = self.pow(power - 1);
            proof {
                lemma_ext_mul_commutative(p, f, self@, rest@);
            }
            self * rest
        }
    }

    /// The multiplicative inverse as the power `self^(P^M - 2)`, absent for
    /// zero.
    pub fn inv(&self) -> (r: Option<Self>)
        ensures
            all_zero(self@) <==> r is None,
            r matches Some(i) ==> {
                &&& i@ == ext_inv(P as int, self.field().modulus(), self@)
                &&& i.field() == self.field()
                &&& ext_mul(P as int, self.field().modulus(), self@, i@) == ext_one(M as nat)
            },
    {
        if is_zero(&self.value) {
            return None;
        }
        proof {
            use_type_invariant(self.field);
            self.lemma_view_is_element();
            lemma_digits_canonical(self.field.primitive@);
            lemma_pow_at_least_two(P as int, M as nat);
            lemma_ext_inverse(
                P as int,
                M as int,
                self.field().modulus(),
                self.field().generator(),
                self@,
            );
        }
        let order = field_size::<P, M>() - 1;
        Some(self.pow(order - 1))
    }

    /// Division that reports a zero divisor instead of demanding its absence.
    pub fn checked_div(self, rhs: Self) -> (r: Result<Self, FieldError>)
        requires
            self.field() == rhs.field(),
        ensures
            all_zero(rhs@) <==> r is Err,
            r matches Err(e) ==> e == FieldError::DivisionByZero,
            r matches Ok(q) ==> {
                &&& q@ == ext_div(P as int, self.field().modulus(), self@, rhs@)
                &&& q.field() == self.field()
            },
    {
        match rhs.inv() {
            None => Err(FieldError::DivisionByZero),
            Some(i) => Ok(self * i),
        }
    }

    /// The discrete logarithm of the element: the smallest positive `k` with
    /// `g^k == self` for the generator `g` of the field, found by multiplying
    /// up from `g`. Zero is no power of `g`, so it is not accepted.
    pub fn primitive_power(&self) -> (k: usize)
        requires
            !all_zero(self@),
        ensures
            k == discrete_log(P as int, self.field().modulus(), self.field().generator(), self@),
            1 <= k <= group_order(P as int, M as nat),
            ext_pow(P as int, self.field().modulus(), self.field().generator(), k as nat) == self@,
            forall|j: int|
                1 <= j < k ==> #[trigger] ext_pow(
                    P as int,
                    self.field().modulus(),
                    self.field().generator(),
                    j as nat,
                ) != self@,
    {
        let ghost p = P as int;
        let ghost f = self.field().modulus();
        let ghost g = self.field().generator();
        let ghost n = group_order(p, M as nat);
        let primitive = self.field.primitive();
        let mut exp: usize = 1;
        let mut element = primitive;
        proof {
            use_type_invariant(self.field);
            self.lemma_view_is_element();
            primitive.lemma_view_is_element();
            lemma_pow_at_least_two(p, M as nat);
        }
        let ghost log = discrete_log(p, f, g, self@);
        proof {
            lemma_discrete_log(p, M as int, f, g, self@);
        }
        loop
            invariant
                valid_modulus(p, M as int, f),
                p == P as int,
                f == self.field().modulus(),
                g == self.field().generator(),
                n == group_order(p, M as nat),
                n <= usize::MAX,
                primitive@ == g,
                primitive.field() == self.field(),
                element.field() == self.field(),
                is_element(p, M as int, g),
                is_generator(p, f, g),
                is_element(p, M as int, self@),
                !all_zero(self@),
                1 <= exp <= log <= n,
                ext_pow(p, f, g, log) == self@,
                log == discrete_log(p, f, g, self@),
                element@ == ext_pow(p, f, g, exp as nat),
                forall|j: int| 1 <= j < exp ==> #[trigger] ext_pow(p, f, g, j as nat) != self@,
            decreases n - exp,
        {
            let ghost j = exp as int;
            if same_digits(&element.value, &self.value) {
                proof {
                    lemma_discrete_log(p, M as int, f, g, self@);
                    assert(ext_pow(p, f, g, j as nat) == self@);
                }
                return exp;
            }
            assert(exp != log);
            exp += 1;
            element = element * primitive;
        }
    }

    /// The discrete logarithm read from a table that `build_log_table` made
    /// for the field of the element; absent for the zero element.
    pub fn table_logarithm(&self, table: &[Option<usize>]) -> (r: Option<usize>)
        requires
            is_log_table(
                P as int,
                self.field().modulus(),
                self.field().generator(),
                table@,
            ),
        ensures
            all_zero(self@) <==> r is None,
            r matches Some(k) ==> {
                &&& k == discrete_log(
                    P as int,
                    self.field().modulus(),
                    self.field().generator(),
                    self@,
                )
                &&& 1 <= k <= group_order(P as int, M as nat)
                &&& ext_pow(P as int, self.field().modulus(), self.field().generator(), k as nat)
                    == self@
            },
    {
        let ghost p = P as int;
        let ghost f = self.field().modulus();
        let ghost g = self.field().generator();
        proof {
            use_type_invariant(self.field);
            self.lemma_view_is_element();
            lemma_digits_canonical(self.field.primitive@);
            lemma_encode_bound(p, self@);
            if all_zero(self@) {
                lemma_encode_zero(p, self@);
            } else {
                lemma_encode_nonzero(p, self@);
            }
        }
        let code = encode_digits(&self.value);
        let r = table[code];
        proof {
            if code > 0 {
                let k = table@[code as int]->Some_0;
                lemma_ext_pow_is_element(p, M as int, f, g, k as nat);
                lemma_encode_injective(p, ext_pow(p, f, g, k as nat), self@);
                lemma_discrete_log(p, M as int, f, g, self@);
                let j = k as int;
                assert(ext_pow(p, f, g, j as nat) == self@);
            }
        }
        r
    }

    /// The discrete logarithm, with the zero element reported as
    /// `PrimitivePowerOfZero` instead of being ruled out.
    pub fn checked_primitive_power(&self) -> (r: Result<usize, FieldError>)
        ensures
            all_zero(self@) <==> r is Err,
            r matches Err(e) ==> e == FieldError::PrimitivePowerOfZero,
            r matches Ok(k) ==> {
                &&& k == discrete_log(
                    P as int,
                    self.field().modulus(),
                    self.field().generator(),
                    self@,
                )
                &&& 1 <= k <= group_order(P as int, M as nat)
                &&& ext_pow(P as int, self.field().modulus(), self.field().generator(), k as nat)
                    == self@
                &&& forall|j: int|
                    1 <= j < k ==> #[trigger] ext_pow(
                        P as int,
                        self.field().modulus(),
                        self.field().generator(),
                        j as nat,
                    ) != self@
            },
    {
        if is_zero(&self.value) {
            Err(FieldError::PrimitivePowerOfZero)
        } else {
            Ok(self.primitive_power())
        }
    }

    /// The coefficients of the element.
    pub fn into_digits(self) -> (r: [GFElement<P>; M])
        ensures
            digits(r@) == self@,
    {
        self.value
    }
}

impl<'f, const P: usize, const M: usize> core::ops::Add for EGFElement<'f, P, M> {
    type Output = Self;

    /// The sum, coefficient by coefficient.
    fn add(self, rhs: Self) -> (r: Self)
        ensures
            r@ == ext_add(P as int, self@, rhs@),
            r.field() == self.field(),
    {
        let mut buf = self.value;
        let mut i: usize = 0;
        while i < M
            invariant
                i <= M,
                forall|j: int|
                    0 <= j < i ==> (#[trigger] buf@[j])@ == crate::prime_field::gf_add(
                        P as int,
                        self.value@[j]@,
                        rhs.value@[j]@,
                    ),
                forall|j: int| i <= j < M ==> buf@[j] == self.value@[j],
            decreases M - i,
        {
            buf[i] = buf[i] + rhs.value[i];
            i += 1;
        }
        let r = EGFElement { value: buf, field: self.field };
        assert(r@ =~= ext_add(P as int, self@, rhs@));
        r
    }
}

impl<'f, const P: usize, const M: usize> vstd::std_specs::ops::AddSpecImpl for EGFElement<'f, P, M> {
    /// What `+` returns is stated by the contract of `add`, over views.
    open spec fn obeys_add_spec() -> bool {
        false
    }

    /// Only elements of one field can be added.
    open spec fn add_req(self, rhs: Self) -> bool {
        self.field() == rhs.field()
    }

    /// Left open: see `obeys_add_spec`.
    open spec fn add_spec(self, rhs: Self) -> Self {
        arbitrary()
    }
}

impl<'f, const P: usize, const M: usize> core::ops::Sub for EGFElement<'f, P, M> {
    type Output = Self;

    /// The difference, coefficient by coefficient.
    fn sub(self, rhs: Self) -> (r: Self)
        ensures
            r@ == ext_sub(P as int, self@, rhs@),
            r.field() == self.field(),
    {
        let mut buf = self.value;
        let mut i: usize = 0;
        while i < M
            invariant
                i <= M,
                forall|j: int|
                    0 <= j < i ==> (#[trigger] buf@[j])@ == crate::prime_field::gf_sub(
                        P as int,
                        self.value@[j]@,
                        rhs.value@[j]@,
                    ),
                forall|j: int| i <= j < M ==> buf@[j] == self.value@[j],
            decreases M - i,
        {
            buf[i] = buf[i] - rhs.value[i];
            i += 1;
        }
        let r = EGFElement { value: buf, field: self.field };
        assert(r@ =~= ext_sub(P as int, self@, rhs@));
        r
    }
}

impl<'f, const P: usize, const M: usize> vstd::std_specs::ops::SubSpecImpl for EGFElement<'f, P, M> {
    /// What `-` returns is stated by the contract of `sub`, over views.
    open spec fn obeys_sub_spec() -> bool {
        false
    }

    /// Only elements of one field can be subtracted.
    open spec fn sub_req(self, rhs: Self) -> bool {
        self.field() == rhs.field()
    }

    /// Left open: see `obeys_sub_spec`.
    open spec fn sub_spec(self, rhs: Self) -> Self {
        arbitrary()
    }
}

impl<'f, const P: usize, const M: usize> core::ops::Mul for EGFElement<'f, P, M> {
    type Output = Self;

    /// The product of the two polynomials, reduced modulo the modulus of the field.
    fn mul(self, rhs: Self) -> (r: Self)
        ensures
            r@ == ext_mul(P as int, self.field().modulus(), self@, rhs@),
            r.field() == self.field(),
    {
        proof {
            use_type_invariant(self.field);
            lemma_pow_at_least_two(P as int, M as nat);
        }
        let value = mul_digits(self.field.polynomial.as_slice(), &self.value, &rhs.value);
        EGFElement { value, field: self.field }
    }
}

impl<'f, const P: usize, const M: usize> core::ops::Div for EGFElement<'f, P, M> {
    type Output = Self;

    /// The quotient: `self` times the inverse of `rhs`, which must not be zero.
    fn div(self, rhs: Self) -> (r: Self)
        ensures
            r@ == ext_div(P as int, self.field().modulus(), self@, rhs@),
            r.field() == self.field(),
    {
        let i = rhs.inv();
        self * i.unwrap()
    }
}

impl<'f, const P: usize, const M: usize> vstd::std_specs::ops::DivSpecImpl for EGFElement<'f, P, M> {
    /// What `/` returns is stated by the contract of `div`, over views.
    open spec fn obeys_div_spec() -> bool {
        false
    }

    /// Only elements of one field can be divided, and not by zero.
    open spec fn div_req(self, rhs: Self) -> bool {
        self.field() == rhs.field() && !all_zero(rhs@)
    }

    /// Left open: see `obeys_div_spec`.
    open spec fn div_spec(self, rhs: Self) -> Self {
        arbitrary()
    }
}

impl<'f, const P: usize, const M: usize> vstd::std_specs::ops::MulSpecImpl for EGFElement<'f, P, M> {
    /// What `*` returns is stated by the contract of `mul`, over views.
    open spec fn obeys_mul_spec() -> bool {
        false
    }

    /// Only elements of one field can be multiplied.
    open spec fn mul_req(self, rhs: Self) -> bool {
        self.field() == rhs.field()
    }

    /// Left open: see `obeys_mul_spec`.
    open spec fn mul_spec(self, rhs: Self) -> Self {
        arbitrary()
    }
}

} // verus!
