use galois_field::{GFElement, EGF};

fn gf8() -> EGF<2, 3> {
    EGF::new([1, 0, 1, 1].map(<GFElement<2>>::from).to_vec()).unwrap()
}

#[test]
fn multiplication_works_without_overflow() {
    let field: EGF<2, 3> = gf8();

    let q1 = field.construct_from_digits([0, 1, 0]);
    let q2 = field.construct_from_digits([0, 1, 1]);

    assert_eq!((q1 * q2).into_digits(), [1, 1, 0].map(<GFElement<2>>::from));
}

#[test]
fn multiplication_by_zero_gives_zero() {
    let field: EGF<2, 3> = gf8();

    let q1 = field.construct_from_digits([0, 1, 0]);
    let q2 = field.construct_from_digits([0, 0, 0]);

    assert_eq!((q1 * q2).into_digits(), [0, 0, 0].map(<GFElement<2>>::from));
}

#[test]
fn multiplication_by_one_gives_same_element() {
    let field: EGF<2, 3> = gf8();

    let q1 = field.construct_from_digits([0, 1, 0]);
    let q2 = field.construct_from_digits([0, 0, 1]);

    assert_eq!((q1 * q2).into_digits(), q1.into_digits());
}

#[test]
fn multiplication_wraps_by_polynomial() {
    let field: EGF<2, 3> = gf8();

    let q1 = field.construct_from_digits([1, 1, 0]);
    let q2 = field.construct_from_digits([1, 0, 1]);

    assert_eq!(q1 * q2, field.construct_from_digits([0, 1, 1]));
}
