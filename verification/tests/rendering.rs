use galois_field::{GFElement, EGF};

fn gf125() -> EGF<5, 3> {
    EGF::new([1, 0, 3, 2].map(<GFElement<5>>::from).to_vec()).unwrap()
}

#[test]
fn renders_terms_highest_degree_first() {
    let field = gf125();
    assert_eq!(field.construct_from_digits([1, 2, 0]).as_polynomial(), "x^2 + 2*x");
}

#[test]
fn renders_zero_polynomial() {
    let field = gf125();
    assert_eq!(field.construct_from_digits([0, 0, 0]).as_polynomial(), "0");
}

#[test]
fn renders_each_kind_of_term() {
    let field = gf125();
    assert_eq!(field.construct_from_digits([0, 0, 3]).as_polynomial(), "3");
    assert_eq!(field.construct_from_digits([0, 0, 1]).as_polynomial(), "1");
    assert_eq!(field.construct_from_digits([0, 1, 0]).as_polynomial(), "x");
    assert_eq!(field.construct_from_digits([0, 4, 0]).as_polynomial(), "4*x");
    assert_eq!(field.construct_from_digits([1, 0, 0]).as_polynomial(), "x^2");
    assert_eq!(field.construct_from_digits([3, 0, 0]).as_polynomial(), "3*x^2");
    assert_eq!(field.construct_from_digits([1, 0, 1]).as_polynomial(), "x^2 + 1");
    assert_eq!(field.construct_from_digits([2, 1, 4]).as_polynomial(), "2*x^2 + x + 4");
}

#[test]
fn renders_numbers_of_several_digits() {
    // x^2 - 2 has no root modulo 101, since 2 is no square there
    let field: EGF<101, 2> = EGF::new([1, 0, 99].map(<GFElement<101>>::from).to_vec()).unwrap();
    assert_eq!(field.construct_from_digits([100, 10]).as_polynomial(), "100*x + 10");
    // x^11 + x^2 + 1 is irreducible over GF(2)
    let mut modulus = [0usize; 12];
    modulus[0] = 1;
    modulus[9] = 1;
    modulus[11] = 1;
    let field: EGF<2, 11> = EGF::new(modulus.map(<GFElement<2>>::from).to_vec()).unwrap();
    let mut digits = [0usize; 11];
    digits[0] = 1;
    digits[10] = 1;
    assert_eq!(field.construct_from_digits(digits).as_polynomial(), "x^10 + 1");
}

#[test]
fn render_digits_works_on_plain_vectors() {
    let digits = [2, 0, 0, 1, 3].map(<GFElement<7>>::from);
    assert_eq!(
        galois_field::render::render_digits(&digits),
        "2*x^4 + x + 3"
    );
    let none: [GFElement<7>; 0] = [];
    assert_eq!(galois_field::render::render_digits(&none), "0");
}
