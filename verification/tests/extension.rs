use galois_field::{FieldError, GFElement, EGF};

fn gf8() -> EGF<2, 3> {
    EGF::new([1, 0, 1, 1].map(<GFElement<2>>::from).to_vec()).unwrap()
}

fn gf125() -> EGF<5, 3> {
    EGF::new([1, 0, 3, 2].map(<GFElement<5>>::from).to_vec()).unwrap()
}

#[test]
fn field_reports_base_and_degree() {
    let field = gf125();
    assert_eq!(field.prime_base(), 5);
    assert_eq!(field.power(), 3);
}

#[test]
fn construct_from_digits_reduces_each_digit() {
    let field = gf125();
    let e = field.construct_from_digits([6, 12, 5]);
    assert_eq!(e.into_digits(), [1, 2, 0].map(<GFElement<5>>::from));
}

#[test]
fn construct_element_keeps_the_digits() {
    let field = gf125();
    let digits = [4, 0, 3].map(<GFElement<5>>::from);
    assert_eq!(field.construct_element(digits).into_digits(), digits);
}

#[test]
fn wrong_length_is_invalid_construction() {
    let short: Result<EGF<2, 3>, _> = EGF::new([1, 1, 1].map(<GFElement<2>>::from).to_vec());
    assert_eq!(short.err(), Some(FieldError::InvalidConstruction));
    let long: Result<EGF<2, 3>, _> = EGF::new([1, 0, 0, 1, 1].map(<GFElement<2>>::from).to_vec());
    assert_eq!(long.err(), Some(FieldError::InvalidConstruction));
    let empty: Result<EGF<2, 3>, _> = EGF::new(Vec::new());
    assert_eq!(empty.err(), Some(FieldError::InvalidConstruction));
}

#[test]
fn reducible_modulus_exhausts_the_search() {
    // x^2 + 1 = (x + 1)^2 over GF(2)
    let field: Result<EGF<2, 2>, _> = EGF::new([1, 0, 1].map(<GFElement<2>>::from).to_vec());
    assert_eq!(field.err(), Some(FieldError::PrimitiveSearchExhausted));
    // x^3 + 1 = (x + 1)(x^2 + x + 1) over GF(2)
    let field: Result<EGF<2, 3>, _> = EGF::new([1, 0, 0, 1].map(<GFElement<2>>::from).to_vec());
    assert_eq!(field.err(), Some(FieldError::PrimitiveSearchExhausted));
    // x^2 - 1 over GF(3)
    let field: Result<EGF<3, 2>, _> = EGF::new([1, 0, 2].map(<GFElement<3>>::from).to_vec());
    assert_eq!(field.err(), Some(FieldError::PrimitiveSearchExhausted));
}

#[test]
fn zero_leading_coefficient_gives_no_field() {
    let field: Result<EGF<2, 3>, _> = EGF::new([0, 1, 1, 1].map(<GFElement<2>>::from).to_vec());
    assert_eq!(field.err(), Some(FieldError::PrimitiveSearchExhausted));
    let field: Result<EGF<5, 2>, _> = EGF::new([0, 0, 0].map(<GFElement<5>>::from).to_vec());
    assert_eq!(field.err(), Some(FieldError::PrimitiveSearchExhausted));
}

#[test]
fn non_unit_leading_coefficient_gives_no_field() {
    // 2 has no inverse modulo 4
    let field: Result<EGF<4, 2>, _> = EGF::new([2, 1, 1].map(<GFElement<4>>::from).to_vec());
    assert_eq!(field.err(), Some(FieldError::PrimitiveSearchExhausted));
}

#[test]
fn degree_zero_gives_no_field() {
    let field: Result<EGF<5, 0>, _> = EGF::new([1].map(<GFElement<5>>::from).to_vec());
    assert_eq!(field.err(), Some(FieldError::PrimitiveSearchExhausted));
}

#[test]
fn primitive_is_the_first_generator() {
    // over GF(2) with x^3 + x + 1 every element but 0 and 1 generates
    assert_eq!(gf8().primitive().into_digits(), [0, 1, 0].map(<GFElement<2>>::from));
    // GF(5)[x]/(x^2 + 2): 1, 2, 3, 4 and x have orders 1, 4, 4, 2 and 8
    let field: EGF<5, 2> = EGF::new([1, 0, 2].map(<GFElement<5>>::from).to_vec()).unwrap();
    assert_eq!(field.primitive().into_digits(), [1, 1].map(<GFElement<5>>::from));
}

#[test]
fn find_primitive_gives_the_cached_generator() {
    let modulus = [1, 0, 1, 1].map(<GFElement<2>>::from);
    let found: Option<[GFElement<2>; 3]> = <EGF<2, 3>>::find_primitive(&modulus);
    assert_eq!(found, Some(gf8().primitive().into_digits()));
    let reducible = [1, 0, 1].map(<GFElement<2>>::from);
    let found: Option<[GFElement<2>; 2]> = <EGF<2, 2>>::find_primitive(&reducible);
    assert_eq!(found, None);
}

#[test]
fn degree_one_extension_is_the_prime_field() {
    // GF(7) as GF(7)[x]/(x): 3 is the least generator
    let field: EGF<7, 1> = EGF::new([1, 0].map(<GFElement<7>>::from).to_vec()).unwrap();
    assert_eq!(field.primitive().into_digits(), [3].map(<GFElement<7>>::from));
    let a = field.construct_from_digits([4]);
    let b = field.construct_from_digits([5]);
    assert_eq!(a * b, field.construct_from_digits([6]));
    // GF(2) has the single non-zero element 1
    let field: EGF<2, 1> = EGF::new([1, 1].map(<GFElement<2>>::from).to_vec()).unwrap();
    assert_eq!(field.primitive().into_digits(), [1].map(<GFElement<2>>::from));
}

#[test]
fn non_monic_modulus_defines_the_same_field() {
    // 2x^2 + 4 = 2 (x^2 + 2) over GF(5)
    let monic: EGF<5, 2> = EGF::new([1, 0, 2].map(<GFElement<5>>::from).to_vec()).unwrap();
    let scaled: EGF<5, 2> = EGF::new([2, 0, 4].map(<GFElement<5>>::from).to_vec()).unwrap();
    for a in 0..25 {
        for b in 0..25 {
            let x = monic.construct_from_digits([a / 5, a % 5])
                * monic.construct_from_digits([b / 5, b % 5]);
            let y = scaled.construct_from_digits([a / 5, a % 5])
                * scaled.construct_from_digits([b / 5, b % 5]);
            assert_eq!(x.into_digits(), y.into_digits());
        }
    }
}

#[test]
fn addition_and_subtraction_are_componentwise() {
    let field = gf125();
    let a = field.construct_from_digits([1, 2, 3]);
    let b = field.construct_from_digits([4, 4, 1]);
    assert_eq!(a + b, field.construct_from_digits([0, 1, 4]));
    assert_eq!(a - b, field.construct_from_digits([2, 3, 2]));
    assert_eq!((a - b) + b, a);
}

#[test]
fn multiplication_exact_value_over_gf5() {
    // (x + 1)(x + 2) = x^2 + 3x + 2 needs no reduction
    let field = gf125();
    let a = field.construct_from_digits([0, 1, 1]);
    let b = field.construct_from_digits([0, 1, 2]);
    assert_eq!(a * b, field.construct_from_digits([1, 3, 2]));
    // x^2 * x = x^3 = -3x - 2 = 2x + 3 modulo x^3 + 3x + 2
    let x2 = field.construct_from_digits([1, 0, 0]);
    let x = field.construct_from_digits([0, 1, 0]);
    assert_eq!(x2 * x, field.construct_from_digits([0, 2, 3]));
}

#[test]
fn multiplication_is_commutative_and_associative() {
    let field = gf8();
    for a in 0..8 {
        for b in 0..8 {
            for c in 0..8 {
                let a = field.construct_from_digits([a / 4, a / 2 % 2, a % 2]);
                let b = field.construct_from_digits([b / 4, b / 2 % 2, b % 2]);
                let c = field.construct_from_digits([c / 4, c / 2 % 2, c % 2]);
                assert_eq!(a * b, b * a);
                assert_eq!((a * b) * c, a * (b * c));
            }
        }
    }
}

#[test]
fn identity_and_zero_laws() {
    let field = gf125();
    let one = field.construct_from_digits([0, 0, 1]);
    let zero = field.construct_from_digits([0, 0, 0]);
    for n in 0..125 {
        let e = field.construct_from_digits([n / 25, n / 5 % 5, n % 5]);
        assert_eq!(e * one, e);
        assert_eq!(one * e, e);
        assert_eq!(e * zero, zero);
        assert_eq!(zero * e, zero);
    }
}

#[test]
fn generator_powers_visit_every_nonzero_element_once() {
    let field = gf125();
    let g = field.primitive();
    let mut seen = vec![false; 125];
    let mut power = g;
    for k in 1..=124 {
        assert_eq!(power, g.pow(k));
        let digits = power.into_digits();
        let code = digits[0].value() * 25 + digits[1].value() * 5 + digits[2].value();
        assert_ne!(code, 0);
        assert!(!seen[code]);
        seen[code] = true;
        power = power * g;
    }
    assert!(seen[1..].iter().all(|s| *s));
    assert_eq!(g.pow(124), field.construct_from_digits([0, 0, 1]));
}

#[test]
fn element_is_generator_to_its_primitive_power() {
    let field = gf125();
    let g = field.primitive();
    for n in 1..125 {
        let e = field.construct_from_digits([n / 25, n / 5 % 5, n % 5]);
        let k = e.primitive_power();
        assert!(1 <= k && k <= 124);
        assert_eq!(g.pow(k), e);
        assert_eq!(e.checked_primitive_power(), Ok(k));
    }
}

#[test]
fn primitive_power_exact_values() {
    let field = gf8();
    // g = x: x^1 = x, x^2, x^3 = x + 1, x^7 = 1
    assert_eq!(field.construct_from_digits([0, 1, 0]).primitive_power(), 1);
    assert_eq!(field.construct_from_digits([1, 0, 0]).primitive_power(), 2);
    assert_eq!(field.construct_from_digits([0, 1, 1]).primitive_power(), 3);
    assert_eq!(field.construct_from_digits([1, 1, 0]).primitive_power(), 4);
    assert_eq!(field.construct_from_digits([1, 1, 1]).primitive_power(), 5);
    assert_eq!(field.construct_from_digits([1, 0, 1]).primitive_power(), 6);
    assert_eq!(field.construct_from_digits([0, 0, 1]).primitive_power(), 7);
}

#[test]
fn primitive_power_of_zero_is_refused() {
    let field = gf8();
    let zero = field.construct_from_digits([0, 0, 0]);
    assert_eq!(
        zero.checked_primitive_power(),
        Err(FieldError::PrimitivePowerOfZero)
    );
}

#[test]
fn log_table_holds_every_logarithm() {
    let field = gf8();
    let table = field.build_log_table();
    assert_eq!(
        table,
        vec![None, Some(7), Some(1), Some(3), Some(2), Some(6), Some(4), Some(5)]
    );
    let field = gf125();
    let table = field.build_log_table();
    assert_eq!(table.len(), 125);
    assert_eq!(table[0], None);
    for n in 1..125 {
        let e = field.construct_from_digits([n / 25, n / 5 % 5, n % 5]);
        assert_eq!(table[n], Some(e.primitive_power()));
    }
}

#[test]
fn cloned_field_multiplies_alike() {
    let field = gf8();
    let copy = field.clone();
    assert_eq!(field, copy);
    let a = copy.construct_from_digits([1, 1, 0]);
    let b = copy.construct_from_digits([1, 0, 1]);
    assert_eq!((a * b).into_digits(), [0, 1, 1].map(<GFElement<2>>::from));
}

#[test]
fn extension_element_times_inverse_is_one() {
    let field = gf125();
    let one = field.construct_from_digits([0, 0, 1]);
    for n in 1..125 {
        let e = field.construct_from_digits([n / 25, n / 5 % 5, n % 5]);
        let inverse = e.inv().unwrap();
        assert_eq!(e * inverse, one);
        assert_eq!(inverse, e.pow(123));
    }
    assert_eq!(field.construct_from_digits([0, 0, 0]).inv(), None);
}

#[test]
fn extension_inverse_exact_value() {
    // x * (x^2 + 1) = x^3 + x = 1 modulo x^3 + x + 1 over GF(2)
    let field = gf8();
    let x = field.construct_from_digits([0, 1, 0]);
    assert_eq!(x.inv(), Some(field.construct_from_digits([1, 0, 1])));
}

#[test]
fn extension_division_is_multiplication_by_inverse() {
    let field = gf8();
    for a in 0..8 {
        for b in 1..8 {
            let a = field.construct_from_digits([a / 4, a / 2 % 2, a % 2]);
            let b = field.construct_from_digits([b / 4, b / 2 % 2, b % 2]);
            assert_eq!(a / b, a * b.inv().unwrap());
            assert_eq!((a / b) * b, a);
            assert_eq!(a.checked_div(b), Ok(a / b));
        }
    }
}

#[test]
fn extension_division_by_zero_fails() {
    let field = gf8();
    let zero = field.construct_from_digits([0, 0, 0]);
    for a in 0..8 {
        let a = field.construct_from_digits([a / 4, a / 2 % 2, a % 2]);
        assert_eq!(a.checked_div(zero), Err(FieldError::DivisionByZero));
    }
}

#[test]
fn log_table_answers_logarithm_queries() {
    let field = gf125();
    let table = field.build_log_table();
    for n in 0..125 {
        let e = field.construct_from_digits([n / 25, n / 5 % 5, n % 5]);
        assert_eq!(e.table_logarithm(&table), e.checked_primitive_power().ok());
    }
    assert_eq!(field.construct_from_digits([0, 0, 0]).table_logarithm(&table), None);
}
