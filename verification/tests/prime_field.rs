use galois_field::{FieldError, GFElement};

type GF5 = GFElement<5>;
type GF7 = GFElement<7>;

#[test]
fn modulo_is_the_type_parameter() {
    assert_eq!(GF5::modulo(), 5);
    assert_eq!(<GFElement<13>>::modulo(), 13);
}

#[test]
fn from_reduces_modulo_p() {
    assert_eq!(GF5::from(0).value(), 0);
    assert_eq!(GF5::from(4).value(), 4);
    assert_eq!(GF5::from(5).value(), 0);
    assert_eq!(GF5::from(12).value(), 2);
    assert_eq!(GF5::from(usize::MAX).value(), usize::MAX % 5);
}

#[test]
fn zero_is_zero() {
    assert_eq!(GF5::zero(), GF5::from(0));
    assert_eq!(GF5::zero().value(), 0);
}

#[test]
fn addition_exact_values() {
    assert_eq!((GF5::from(3) + GF5::from(4)).value(), 2);
    assert_eq!((GF5::from(0) + GF5::from(4)).value(), 4);
    assert_eq!((GF5::from(1) + GF5::from(4)).value(), 0);
}

#[test]
fn add_assign_is_addition() {
    let mut a = GF5::from(3);
    a += GF5::from(4);
    assert_eq!(a, GF5::from(2));
}

#[test]
fn subtraction_exact_values() {
    assert_eq!((GF5::from(2) - GF5::from(4)).value(), 3);
    assert_eq!((GF5::from(4) - GF5::from(2)).value(), 2);
    assert_eq!((GF5::from(0) - GF5::from(0)).value(), 0);
    assert_eq!((GF5::from(0) - GF5::from(1)).value(), 4);
}

#[test]
fn multiplication_exact_values() {
    assert_eq!((GF5::from(3) * GF5::from(4)).value(), 2);
    assert_eq!((GF5::from(0) * GF5::from(4)).value(), 0);
    assert_eq!((GF7::from(6) * GF7::from(6)).value(), 1);
}

#[test]
fn multiplication_does_not_overflow_for_a_large_modulus() {
    const P: usize = usize::MAX - 58; // a large modulus
    type Big = GFElement<P>;
    let a = Big::from(P - 1);
    // (-1) * (-1) == 1
    assert_eq!((a * a).value(), 1);
    let b = Big::from(P - 2);
    // (-1) * (-2) == 2
    assert_eq!((a * b).value(), 2);
    // (-1) + (-2) == -3
    assert_eq!((a + b).value(), P - 3);
    // (-2) - (-1) == -1
    assert_eq!((b - a).value(), P - 1);
}

#[test]
fn inverse_exact_values() {
    assert_eq!(GF5::from(1).inv(), Some(GF5::from(1)));
    assert_eq!(GF5::from(2).inv(), Some(GF5::from(3)));
    assert_eq!(GF5::from(3).inv(), Some(GF5::from(2)));
    assert_eq!(GF5::from(4).inv(), Some(GF5::from(4)));
    assert_eq!(<GFElement<2>>::from(1).inv(), Some(<GFElement<2>>::from(1)));
}

#[test]
fn inverse_of_zero_is_absent() {
    assert_eq!(GF5::from(0).inv(), None);
    assert_eq!(GF5::from(5).inv(), None);
    assert_eq!(<GFElement<1>>::from(3).inv(), None);
}

#[test]
fn inverse_for_a_composite_modulus_is_the_power() {
    // 2^(9-2) = 128 = 2 (mod 9), which is no inverse of 2
    assert_eq!(<GFElement<9>>::from(2).inv(), Some(<GFElement<9>>::from(2)));
}

#[test]
fn element_times_inverse_is_one() {
    for a in 1..7 {
        let a = GF7::from(a);
        assert_eq!(a * a.inv().unwrap(), GF7::from(1));
    }
    for a in 1..101 {
        let a = <GFElement<101>>::from(a);
        assert_eq!(a * a.inv().unwrap(), <GFElement<101>>::from(1));
    }
}

#[test]
fn subtract_then_add_gives_back() {
    for a in 0..7 {
        for b in 0..7 {
            let (a, b) = (GF7::from(a), GF7::from(b));
            assert_eq!((a - b) + b, a);
        }
    }
}

#[test]
fn division_is_multiplication_by_inverse() {
    for a in 0..7 {
        for b in 1..7 {
            let (a, b) = (GF7::from(a), GF7::from(b));
            assert_eq!(a / b, a * b.inv().unwrap());
            assert_eq!(a.checked_div(b), Ok(a * b.inv().unwrap()));
            assert_eq!((a / b) * b, a);
        }
    }
}

#[test]
fn division_exact_value() {
    assert_eq!((GF5::from(3) / GF5::from(2)).value(), 4);
}

#[test]
fn division_by_zero_fails() {
    for a in 0..7 {
        assert_eq!(
            GF7::from(a).checked_div(GF7::from(0)),
            Err(FieldError::DivisionByZero)
        );
    }
}

#[test]
fn element_prints_its_residue() {
    assert_eq!(GF5::from(7).to_string(), "2");
    assert_eq!(GF5::from(0).to_string(), "0");
    assert_eq!(<GFElement<1000>>::from(1907).to_string(), "907");
    assert_eq!(<GFElement<1000>>::from(10).to_string(), "10");
}
