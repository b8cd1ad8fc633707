use galois_field::{GFElement, EGF};

fn gf8() -> EGF<2, 3> {
    EGF::new([1, 0, 1, 1].map(<GFElement<2>>::from).to_vec()).unwrap()
}

#[test]
fn power_computation() {
    let field: EGF<2, 3> = gf8();

    let q1 = field.construct_from_digits([1, 1, 0]);

    assert_eq!(q1.pow(3), field.construct_from_digits([1, 1, 1]));
}

#[test]
fn power_zero_is_identity() {
    let field = gf8();
    let q = field.construct_from_digits([1, 1, 0]);
    assert_eq!(q.pow(0), field.construct_from_digits([0, 0, 1]));
    let zero = field.construct_from_digits([0, 0, 0]);
    assert_eq!(zero.pow(0), field.construct_from_digits([0, 0, 1]));
}

#[test]
fn power_one_is_the_element() {
    let field = gf8();
    let q = field.construct_from_digits([1, 0, 1]);
    assert_eq!(q.pow(1), q);
}

#[test]
fn power_agrees_with_repeated_multiplication() {
    let field: EGF<5, 2> = EGF::new([1, 0, 2].map(<GFElement<5>>::from).to_vec()).unwrap();
    for a in 0..5 {
        for b in 0..5 {
            let e = field.construct_from_digits([a, b]);
            let mut acc = field.construct_from_digits([0, 1]);
            for n in 0..30 {
                assert_eq!(e.pow(n), acc);
                acc = acc * e;
            }
        }
    }
}

#[test]
fn power_even_and_odd_exponents() {
    let field = gf8();
    let x = field.construct_from_digits([0, 1, 0]);
    // x^3 = x + 1, x^4 = x^2 + x, x^5 = x^2 + x + 1, x^6 = x^2 + 1, x^7 = 1
    assert_eq!(x.pow(2), field.construct_from_digits([1, 0, 0]));
    assert_eq!(x.pow(3), field.construct_from_digits([0, 1, 1]));
    assert_eq!(x.pow(4), field.construct_from_digits([1, 1, 0]));
    assert_eq!(x.pow(5), field.construct_from_digits([1, 1, 1]));
    assert_eq!(x.pow(6), field.construct_from_digits([1, 0, 1]));
    assert_eq!(x.pow(7), field.construct_from_digits([0, 0, 1]));
    assert_eq!(x.pow(8), x);
}
