use crate::digits::{all_zero, digits, lemma_digits_canonical};
use crate::modular::{is_unit, lemma_quot_digit, lemma_quot_digit_unique, quot_digit};
use crate::prime_field::{gf_mul, gf_sub, GFElement};
use vstd::arithmetic::div_mod::*;
use vstd::prelude::*;

verus! {

/// The coefficient of `x^k` in a polynomial written highest degree first;
/// zero outside the vector.
pub open spec fn coeff(a: Seq<int>, k: int) -> int {
    if 0 <= k < a.len() {
        a[a.len() - 1 - k]
    } else {
        0
    }
}

/// The sum of `a_i * b_(d-i)` over the degrees `i < n`: the part of the
/// coefficient of `x^d` in the product that the `n` lowest terms of `a`
/// contribute.
pub open spec fn conv_sum(a: Seq<int>, b: Seq<int>, d: int, n: nat) -> int
    decreases n,
{
    if n == 0 {
        0
    } else {
        conv_sum(a, b, d, (n - 1) as nat) + coeff(a, n - 1) * coeff(b, d - (n - 1))
    }
}

/// The coefficient of `x^d` in the product of `a` and `b` over the integers.
pub open spec fn conv_at(a: Seq<int>, b: Seq<int>, d: int) -> int {
    conv_sum(a, b, d, a.len())
}

/// The product of two polynomials with coefficients reduced modulo `p`,
/// highest degree first.
pub open spec fn poly_mul(p: int, a: Seq<int>, b: Seq<int>) -> Seq<int> {
    if a.len() == 0 || b.len() == 0 {
        Seq::empty()
    } else {
        Seq::new(
            (a.len() + b.len() - 1) as nat,
            |i: int| conv_at(a, b, a.len() + b.len() - 2 - i) % p,
        )
    }
}

/// The degree of a polynomial written highest degree first; zero for the
/// zero polynomial.
pub open spec fn degree(d: Seq<int>) -> int
    decreases d.len(),
{
    if d.len() <= 1 {
        0
    } else if d[0] != 0 {
        d.len() - 1
    } else {
        degree(d.drop_first())
    }
}

/// The polynomial without its leading zero coefficients (the constant term
/// always stays).
pub open spec fn trim(d: Seq<int>) -> Seq<int> {
    d.subrange(d.len() - 1 - degree(d), d.len() as int)
}

/// `r`, written with `n` coefficients by putting zeros in front.
pub open spec fn padded(n: nat, r: Seq<int>) -> Seq<int> {
    Seq::new(n, |i: int| if i < n - r.len() { 0 } else { r[i - (n - r.len())] })
}

/// The coefficient of `f` at index `i`, zero behind its end.
pub open spec fn at_or_zero(f: Seq<int>, i: int) -> int {
    if 0 <= i < f.len() {
        f[i]
    } else {
        0
    }
}

/// One step of long division: the multiple of `f` that cancels the leading
/// coefficient of `u` is taken away, and the cancelled coefficient dropped.
pub open spec fn cancel_lead(p: int, f: Seq<int>, u: Seq<int>) -> Seq<int> {
    let t = quot_digit(p, f[0], u[0]);
    Seq::new((u.len() - 1) as nat, |i: int| (u[i + 1] - t * at_or_zero(f, i + 1)) % p)
}

/// The dividend after `n` steps of long division by `f`.
pub open spec fn reduce_steps(p: int, f: Seq<int>, u: Seq<int>, n: nat) -> Seq<int>
    decreases n,
{
    if n == 0 {
        u
    } else {
        cancel_lead(p, f, reduce_steps(p, f, u, (n - 1) as nat))
    }
}

/// The remainder of `u` on division by `f` modulo `p`, for a divisor whose
/// leading coefficient `f[0]` is a unit: one coefficient fewer than `f` has,
/// or `u` itself where it is shorter than `f`.
pub open spec fn poly_rem(p: int, f: Seq<int>, u: Seq<int>) -> Seq<int> {
    if u.len() < f.len() {
        u
    } else {
        reduce_steps(p, f, u, (u.len() - f.len() + 1) as nat)
    }
}

/// The quotient of `u` on division by `f` modulo `p`, written with as many
/// coefficients as `u` has.
pub open spec fn poly_quot(p: int, f: Seq<int>, u: Seq<int>) -> Seq<int> {
    Seq::new(
        u.len(),
        |j: int|
            if j >= f.len() - 1 {
                quot_digit(p, f[0], reduce_steps(p, f, u, (j - (f.len() - 1)) as nat)[0])
            } else {
                0
            },
    )
}

/// The length of the dividend after `n` steps.
pub proof fn lemma_reduce_steps_len(p: int, f: Seq<int>, u: Seq<int>, n: nat)
    requires
        n <= u.len(),
    ensures
        reduce_steps(p, f, u, n).len() == u.len() - n,
    decreases n,
{
    if n > 0 {
        lemma_reduce_steps_len(p, f, u, (n - 1) as nat);
    }
}

/// A vector of `n` zero elements.
pub fn zero_vec<const P: usize>(n: usize) -> (r: Vec<GFElement<P>>)
    requires
        P > 0,
    ensures
        r.len() == n,
        all_zero(digits(r@)),
        forall|j: int| 0 <= j < n ==> (#[trigger] r@[j])@ == 0,
{
    let mut r: Vec<GFElement<P>> = Vec::new();
    let mut i: usize = 0;
    while i < n
        invariant
            P > 0,
            i <= n,
            r.len() == i,
            forall|j: int| 0 <= j < i ==> (#[trigger] r@[j])@ == 0,
        decreases n - i,
    {
        r.push(GFElement::zero());
        i += 1;
    }
    r
}

/// The degree of the polynomial: the power of `x` at the first non-zero
/// coefficient, zero where there is none.
pub fn find_power<const P: usize>(value: &[GFElement<P>]) -> (r: usize)
    ensures
        r == degree(digits(value@)),
        value.len() > 0 ==> r < value.len(),
{
    let n = value.len();
    let ghost d = digits(value@);
    let mut i: usize = 0;
    assert(d.subrange(0, n as int) =~= d);
    while i < n
        invariant
            i <= n,
            n == value.len(),
            d == digits(value@),
            i < n ==> degree(d) == degree(d.subrange(i as int, n as int)),
            i == n ==> degree(d) == 0,
        decreases n - i,
    {
        let ghost rest = d.subrange(i as int, n as int);
        if value[i].value() != 0 {
            proof {
                assert(rest[0] == d[i as int]);
                if n - i <= 1 {
                    assert(rest.len() <= 1);
                }
            }
            return n - 1 - i;
        }
        proof {
            assert(rest[0] == 0);
            if rest.len() > 1 {
                assert(rest.drop_first() =~= d.subrange(i + 1, n as int));
            }
        }
        i += 1;
    }
    proof {
        if n == 0 {
            assert(d.len() == 0);
        }
    }
    0
}

/// The polynomial times `x^power`: every coefficient moves `power` places
/// towards the front, the coefficients pushed out are dropped and zeros come
/// in at the end.
pub fn shift_by_power<const P: usize>(value: &[GFElement<P>], power: usize) -> (r: Vec<
    GFElement<P>,
>)
    requires
        P > 0,
        power <= value.len(),
    ensures
        r.len() == value.len(),
        digits(r@) == Seq::new(
            value.len() as nat,
            |i: int| at_or_zero(digits(value@), i + power),
        ),
{
    let n = value.len();
    let mut r: Vec<GFElement<P>> = Vec::new();
    let mut i: usize = 0;
    while i < n
        invariant
            P > 0,
            i <= n,
            power <= n,
            n == value.len(),
            r.len() == i,
            forall|j: int|
                0 <= j < i ==> (#[trigger] r@[j])@ == at_or_zero(digits(value@), j + power),
        decreases n - i,
    {
        if i < n - power {
            r.push(value[i + power]);
        } else {
            r.push(GFElement::zero());
        }
        i += 1;
    }
    assert(digits(r@) =~= Seq::new(n as nat, |i: int| at_or_zero(digits(value@), i + power)));
    r
}

/// The difference of two polynomials of one length, coefficient by
/// coefficient.
pub fn sub_array<const P: usize>(a: Vec<GFElement<P>>, b: &[GFElement<P>]) -> (r: Vec<
    GFElement<P>,
>)
    requires
        a.len() == b.len(),
    ensures
        r.len() == a.len(),
        digits(r@) == Seq::new(
            a.len() as nat,
            |i: int| gf_sub(P as int, digits(a@)[i], digits(b@)[i]),
        ),
{
    let n = a.len();
    let ghost a0 = a@;
    let mut a = a;
    let mut i: usize = 0;
    while i < n
        invariant
            i <= n,
            n == a.len(),
            n == b.len(),
            n == a0.len(),
            forall|j: int| 0 <= j < i ==> (#[trigger] a@[j])@ == gf_sub(P as int, a0[j]@, b@[j]@),
            forall|j: int| i <= j < n ==> a@[j] == a0[j],
        decreases n - i,
    {
        let v = a[i] - b[i];
        a[i] = v;
        i += 1;
    }
    assert(digits(a@) =~= Seq::new(
        n as nat,
        |i: int| gf_sub(P as int, digits(a0)[i], digits(b@)[i]),
    ));
    a
}

/// The polynomial times a constant, coefficient by coefficient.
pub fn multiply_by_digit<const P: usize>(value: Vec<GFElement<P>>, digit: GFElement<P>) -> (r:
    Vec<GFElement<P>>)
    ensures
        r.len() == value.len(),
        digits(r@) == Seq::new(
            value.len() as nat,
            |i: int| gf_mul(P as int, digits(value@)[i], digit@),
        ),
{
    let n = value.len();
    let ghost v0 = value@;
    let mut value = value;
    let mut i: usize = 0;
    while i < n
        invariant
            i <= n,
            n == value.len(),
            n == v0.len(),
            forall|j: int| 0 <= j < i ==> (#[trigger] value@[j])@ == gf_mul(P as int, v0[j]@, digit@),
            forall|j: int| i <= j < n ==> value@[j] == v0[j],
        decreases n - i,
    {
        let v = value[i] * digit;
        value[i] = v;
        i += 1;
    }
    assert(digits(value@) =~= Seq::new(
        n as nat,
        |i: int| gf_mul(P as int, digits(v0)[i], digit@),
    ));
    value
}

/// The part of the coefficient of `x^k` that the term of degree `ea` of `a`
/// contributes through the `eb` lowest terms of `b`.
spec fn partial_row(a: Seq<int>, b: Seq<int>, k: int, ea: int, eb: int) -> int {
    if 0 <= k - ea < eb {
        coeff(a, ea) * coeff(b, k - ea)
    } else {
        0
    }
}

/// The product of two non-empty polynomials: for every degree the sum of the
/// products of the coefficients whose degrees add up to it.
pub fn convolve<const P: usize>(a: &[GFElement<P>], b: &[GFElement<P>]) -> (r: Vec<GFElement<P>>)
    requires
        P > 0,
        a.len() >= 1,
        b.len() >= 1,
        a.len() + b.len() <= usize::MAX,
    ensures
        digits(r@) == poly_mul(P as int, digits(a@), digits(b@)),
        r.len() == a.len() + b.len() - 1,
{
    let na = a.len();
    let nb = b.len();
    let len = na + nb - 1;
    let mut r = zero_vec::<P>(len);
    let ghost da = digits(a@);
    let ghost db = digits(b@);
    let ghost p = P as int;
    let mut ea: usize = 0;
    proof {
        assert forall|k: int| 0 <= k < len implies (#[trigger] r@[len - 1 - k])@ == conv_sum(
            da,
            db,
            k,
            0,
        ) % p by {
            assert(digits(r@)[len - 1 - k] == 0);
            lemma_small_mod(0, P as nat);
        }
    }
    while ea < na
        invariant
            P > 0,
            p == P as int,
            ea <= na,
            na == a.len(),
            nb == b.len(),
            len == na + nb - 1,
            r.len() == len,
            da == digits(a@),
            db == digits(b@),
            forall|k: int|
                0 <= k < len ==> (#[trigger] r@[len - 1 - k])@ == conv_sum(da, db, k, ea as nat)
                    % p,
        decreases na - ea,
    {
        let x = a[na - 1 - ea];
        let mut eb: usize = 0;
        proof {
            assert forall|k: int| 0 <= k < len implies (#[trigger] r@[len - 1 - k])@ == (conv_sum(
                da,
                db,
                k,
                ea as nat,
            ) + partial_row(da, db, k, ea as int, 0)) % p by {}
        }
        while eb < nb
            invariant
                P > 0,
                p == P as int,
                ea < na,
                eb <= nb,
                na == a.len(),
                nb == b.len(),
                len == na + nb - 1,
                r.len() == len,
                da == digits(a@),
                db == digits(b@),
                x == a@[na - 1 - ea],
                forall|k: int|
                    0 <= k < len ==> (#[trigger] r@[len - 1 - k])@ == (conv_sum(
                        da,
                        db,
                        k,
                        ea as nat,
                    ) + partial_row(da, db, k, ea as int, eb as int)) % p,
            decreases nb - eb,
        {
            let y = b[nb - 1 - eb];
            let idx = len - 1 - (ea + eb);
            let ghost before = r@;
            let v = r[idx] + x * y;
            r[idx] = v;
            proof {
                let kk = (ea + eb) as int;
                assert(coeff(da, ea as int) == x@);
                assert(coeff(db, eb as int) == y@);
                assert forall|k: int| 0 <= k < len implies (#[trigger] r@[len - 1 - k])@ == (
                conv_sum(da, db, k, ea as nat) + partial_row(da, db, k, ea as int, eb + 1)) % p by {
                    if k == kk {
                        let s = conv_sum(da, db, k, ea as nat);
                        assert(before[len - 1 - k]@ == (s + partial_row(
                            da,
                            db,
                            k,
                            ea as int,
                            eb as int,
                        )) % p);
                        assert(partial_row(da, db, k, ea as int, eb as int) == 0);
                        assert(partial_row(da, db, k, ea as int, eb + 1) == x@ * y@);
                        lemma_add_mod_noop(s, x@ * y@, p);
                        lemma_mod_twice(s, p);
                    } else {
                        assert(r@[len - 1 - k] == before[len - 1 - k]);
                        assert(partial_row(da, db, k, ea as int, eb as int) == partial_row(
                            da,
                            db,
                            k,
                            ea as int,
                            eb + 1,
                        ));
                    }
                }
            }
            eb += 1;
        }
        proof {
            assert forall|k: int| 0 <= k < len implies (#[trigger] r@[len - 1 - k])@ == conv_sum(
                da,
                db,
                k,
                (ea + 1) as nat,
            ) % p by {
                assert(partial_row(da, db, k, ea as int, nb as int) == coeff(da, ea as int) * coeff(
                    db,
                    k - ea,
                ));
            }
        }
        ea += 1;
    }
    proof {
        let target = poly_mul(p, da, db);
        assert(digits(r@).len() == target.len());
        assert forall|i: int| 0 <= i < len implies digits(r@)[i] == target[i] by {
            let k = len - 1 - i;
            assert(r@[len - 1 - k] == r@[i]);
        }
        assert(digits(r@) =~= target);
    }
    r
}

/// Above its degree a polynomial has only zero coefficients.
pub proof fn lemma_degree_bounds(d: Seq<int>)
    requires
        d.len() >= 1,
    ensures
        0 <= degree(d) < d.len(),
        forall|j: int| 0 <= j < d.len() - 1 - degree(d) ==> d[j] == 0,
        degree(d) > 0 ==> d[d.len() - 1 - degree(d)] != 0,
    decreases d.len(),
{
    if d.len() > 1 && d[0] == 0 {
        let rest = d.drop_first();
        lemma_degree_bounds(rest);
        assert forall|j: int| 0 <= j < d.len() - 1 - degree(d) implies d[j] == 0 by {
            if j > 0 {
                assert(rest[j - 1] == d[j]);
            }
        }
        assert(rest[rest.len() - 1 - degree(rest)] == d[d.len() - 1 - degree(d)]);
    }
}

/// Long division of `a` by `b`, two polynomials written with the same number
/// of coefficients: for each position from the leading one down to the degree
/// of `b`, the divisor, moved so that its leading term stands at that
/// position, is taken away until the coefficient there is zero, and each
/// subtraction is counted in the quotient's digit for that shift. The
/// leading coefficient of `b` has to be a unit, else the subtractions need
/// not end.
pub fn euclidian_divrem<const P: usize>(a: Vec<GFElement<P>>, b: &[GFElement<P>]) -> (qr: (
    Vec<GFElement<P>>,
    Vec<GFElement<P>>,
))
    requires
        P > 0,
        a.len() == b.len(),
        a.len() >= 1,
        is_unit(P as int, trim(digits(b@))[0]),
    ensures
        qr.0.len() == a.len(),
        qr.1.len() == a.len(),
        digits(qr.0@) == poly_quot(P as int, trim(digits(b@)), digits(a@)),
        digits(qr.1@) == padded(
            a.len() as nat,
            poly_rem(P as int, trim(digits(b@)), digits(a@)),
        ),
{
    let n = a.len();
    let ghost p = P as int;
    let ghost u0 = digits(a@);
    let ghost db = digits(b@);
    let ghost f = trim(db);
    let mut a = a;
    let mut quotient = zero_vec::<P>(n);
    let divisor_power = find_power(b);
    let steps = n - divisor_power;
    proof {
        lemma_degree_bounds(db);
        lemma_digits_canonical(b@);
        assert(f.len() == divisor_power + 1);
        assert forall|j: int| 0 <= j < n implies (#[trigger] quotient@[j])@ == 0 by {
            assert(digits(quotient@)[j] == 0);
        }
    }
    let mut i: usize = 0;
    while i < steps
        invariant
            P > 0,
            p == P as int,
            i <= steps,
            steps == n - divisor_power,
            divisor_power < n,
            n == a.len(),
            n == b.len(),
            n == quotient.len(),
            n == u0.len(),
            db == digits(b@),
            f == trim(db),
            f.len() == divisor_power + 1,
            divisor_power == degree(db),
            is_unit(p, f[0]),
            forall|j: int| 0 <= j < i ==> (#[trigger] a@[j])@ == 0,
            forall|j: int|
                i <= j < n ==> (#[trigger] a@[j])@ == reduce_steps(p, f, u0, i as nat)[j - i],
            forall|j: int|
                0 <= j < n ==> (#[trigger] quotient@[j])@ == (if divisor_power <= j
                    < divisor_power + i {
                    quot_digit(p, f[0], reduce_steps(p, f, u0, (j - divisor_power) as nat)[0])
                } else {
                    0
                }),
        decreases steps - i,
    {
        let power = steps - 1 - i;
        let divisor = shift_by_power(b, power);
        let ghost u = reduce_steps(p, f, u0, i as nat);
        let ghost t = quot_digit(p, f[0], u[0]);
        let ghost s: int = 0;
        let ghost q0 = quotient@;
        proof {
            lemma_reduce_steps_len(p, f, u0, i as nat);
            lemma_quot_digit(p, f[0], u[0]);
            lemma_degree_bounds(db);
            lemma_digits_canonical(b@);
            assert forall|j: int| 0 <= j < n implies (#[trigger] divisor@[j])@ == (if j >= i {
                at_or_zero(f, j - i)
            } else {
                0
            }) by {
                assert(digits(divisor@)[j] == at_or_zero(db, j + power));
                if j >= i && j - i <= divisor_power {
                    assert(f[j - i] == db[n - 1 - divisor_power + (j - i)]);
                }
            }
            assert forall|j: int| i <= j < n implies (#[trigger] a@[j])@ == (u[j - i] - s
                * at_or_zero(f, j - i)) % p by {
                a@[j].lemma_view_range();
                lemma_small_mod(a@[j]@ as nat, P as nat);
            }
        }
        while a[i].value() != 0
            invariant
                P > 0,
                p == P as int,
                i < steps,
                steps == n - divisor_power,
                divisor_power < n,
                n == a.len(),
                n == divisor.len(),
                n == quotient.len(),
                q0.len() == n,
                f.len() == divisor_power + 1,
                is_unit(p, f[0]),
                u.len() == n - i,
                t == quot_digit(p, f[0], u[0]),
                0 <= s <= t < p,
                forall|j: int|
                    0 <= j < n ==> (#[trigger] divisor@[j])@ == (if j >= i {
                        at_or_zero(f, j - i)
                    } else {
                        0
                    }),
                forall|j: int| 0 <= j < i ==> (#[trigger] a@[j])@ == 0,
                forall|j: int|
                    i <= j < n ==> (#[trigger] a@[j])@ == (u[j - i] - s * at_or_zero(f, j - i))
                        % p,
                forall|j: int|
                    0 <= j < n && j != divisor_power + i ==> #[trigger] quotient@[j] == q0[j],
                quotient@[divisor_power + i]@ == s,
            decreases t - s,
        {
            let ghost before = a@;
            proof {
                // the coefficient is not zero yet, so the count is not complete
                if s == t {
                    lemma_quot_digit(p, f[0], u[0]);
                    assert(at_or_zero(f, 0) == f[0]);
                    assert(a@[i as int]@ == (u[0] - s * at_or_zero(f, 0)) % p);
                    assert(false);
                }
            }
            a = sub_array(a, divisor.as_slice());
            let digit = quotient[divisor_power + i] + GFElement::from(1);
            quotient[divisor_power + i] = digit;
            proof {
                assert forall|j: int| 0 <= j < i implies (#[trigger] a@[j])@ == 0 by {
                    assert(digits(a@)[j] == gf_sub(p, digits(before)[j], digits(divisor@)[j]));
                    lemma_small_mod(0, P as nat);
                }
                assert forall|j: int| i <= j < n implies (#[trigger] a@[j])@ == (u[j - i] - (s
                    + 1) * at_or_zero(f, j - i)) % p by {
                    let g = at_or_zero(f, j - i);
                    assert(digits(a@)[j] == gf_sub(p, digits(before)[j], digits(divisor@)[j]));
                    assert(before[j]@ == (u[j - i] - s * g) % p);
                    assert(divisor@[j]@ == g);
                    divisor@[j].lemma_view_range();
                    lemma_small_mod(g as nat, P as nat);
                    lemma_sub_mod_noop(u[j - i] - s * g, g, p);
                    assert(u[j - i] - s * g - g == u[j - i] - (s + 1) * g) by (nonlinear_arith);
                }
                lemma_small_mod((s + 1) as nat, P as nat);
                if P > 1 {
                    lemma_small_mod(1, P as nat);
                }
                s = s + 1;
            }
        }
        proof {
            assert(at_or_zero(f, 0) == f[0]);
            lemma_quot_digit_unique(p, f[0], u[0], s);
            let next = reduce_steps(p, f, u0, (i + 1) as nat);
            assert(next == cancel_lead(p, f, u));
            assert forall|j: int| i + 1 <= j < n implies (#[trigger] a@[j])@ == next[j - (i
                + 1)] by {}
            assert forall|j: int| 0 <= j < n implies (#[trigger] quotient@[j])@ == (
            if divisor_power <= j < divisor_power + (i + 1) {
                quot_digit(p, f[0], reduce_steps(p, f, u0, (j - divisor_power) as nat)[0])
            } else {
                0
            }) by {
                if j != divisor_power + i {
                    assert(quotient@[j] == q0[j]);
                }
            }
        }
        i += 1;
    }
    proof {
        lemma_reduce_steps_len(p, f, u0, steps as nat);
        let rem = poly_rem(p, f, u0);
        assert(rem == reduce_steps(p, f, u0, steps as nat));
        assert(digits(a@) =~= padded(n as nat, rem));
        assert(digits(quotient@) =~= poly_quot(p, f, u0));
    }
    (quotient, a)
}

} // verus!
