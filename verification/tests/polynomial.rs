use galois_field::is_zero;
use galois_field::poly::{
    convolve, euclidian_divrem, find_power, multiply_by_digit, shift_by_power, sub_array, zero_vec,
};
use galois_field::search::{encode_digits, field_size, find_unit_inverse, generates};
use galois_field::GFElement;

fn gf2(digits: &[usize]) -> Vec<GFElement<2>> {
    digits.iter().map(|d| <GFElement<2>>::from(*d)).collect()
}

fn gf5(digits: &[usize]) -> Vec<GFElement<5>> {
    digits.iter().map(|d| <GFElement<5>>::from(*d)).collect()
}

#[test]
fn is_zero_tells_zero_vectors() {
    assert!(is_zero(&[0, 0, 0].map(<GFElement<5>>::from)));
    assert!(is_zero(&[5, 10, 0].map(<GFElement<5>>::from)));
    assert!(!is_zero(&[0, 0, 1].map(<GFElement<5>>::from)));
    assert!(!is_zero(&[2, 0, 0].map(<GFElement<5>>::from)));
    let none: [GFElement<5>; 0] = [];
    assert!(is_zero(&none));
}

#[test]
fn zero_vec_is_all_zero() {
    assert_eq!(zero_vec::<5>(3), gf5(&[0, 0, 0]));
    assert_eq!(zero_vec::<5>(0), gf5(&[]));
}

#[test]
fn find_power_gives_the_degree() {
    assert_eq!(find_power(&gf5(&[0, 0, 0, 0])), 0);
    assert_eq!(find_power(&gf5(&[0, 0, 0, 3])), 0);
    assert_eq!(find_power(&gf5(&[0, 0, 2, 0])), 1);
    assert_eq!(find_power(&gf5(&[0, 1, 0, 0])), 2);
    assert_eq!(find_power(&gf5(&[4, 0, 0, 1])), 3);
    assert_eq!(find_power(&gf5(&[])), 0);
}

#[test]
fn shift_by_power_multiplies_by_a_power_of_x() {
    assert_eq!(shift_by_power(&gf5(&[0, 0, 1, 2]), 0), gf5(&[0, 0, 1, 2]));
    assert_eq!(shift_by_power(&gf5(&[0, 0, 1, 2]), 2), gf5(&[1, 2, 0, 0]));
    assert_eq!(shift_by_power(&gf5(&[3, 0, 1, 2]), 1), gf5(&[0, 1, 2, 0]));
    assert_eq!(shift_by_power(&gf5(&[3, 0, 1, 2]), 4), gf5(&[0, 0, 0, 0]));
}

#[test]
fn sub_array_subtracts_componentwise() {
    assert_eq!(sub_array(gf5(&[1, 2, 3]), &gf5(&[3, 2, 1])), gf5(&[3, 0, 2]));
}

#[test]
fn multiply_by_digit_scales_componentwise() {
    assert_eq!(
        multiply_by_digit(gf5(&[1, 2, 3, 0]), <GFElement<5>>::from(3)),
        gf5(&[3, 1, 4, 0])
    );
}

#[test]
fn convolve_multiplies_polynomials() {
    // (x + 1)(x + 2) = x^2 + 3x + 2
    assert_eq!(convolve(&gf5(&[1, 1]), &gf5(&[1, 2])), gf5(&[1, 3, 2]));
    // (2x^2 + 3)(4x + 1) = 8x^3 + 2x^2 + 12x + 3
    assert_eq!(convolve(&gf5(&[2, 0, 3]), &gf5(&[4, 1])), gf5(&[3, 2, 2, 3]));
    assert_eq!(convolve(&gf5(&[3]), &gf5(&[4])), gf5(&[2]));
}

#[test]
fn division_gives_quotient_and_remainder() {
    // x^4 + x^3 = (x + 1)(x^3 + x + 1) + x^2 + 1 over GF(2)
    let (q, r) = euclidian_divrem(gf2(&[1, 1, 0, 0, 0]), &gf2(&[0, 1, 0, 1, 1]));
    assert_eq!(q, gf2(&[0, 0, 0, 1, 1]));
    assert_eq!(r, gf2(&[0, 0, 1, 0, 1]));
    // 3x^2 + 1 = (4x + 3)(2x + 1) + 3 over GF(5): 8x^2 + 10x + 3 + 3
    let (q, r) = euclidian_divrem(gf5(&[3, 0, 1]), &gf5(&[0, 2, 1]));
    assert_eq!(q, gf5(&[0, 4, 3]));
    assert_eq!(r, gf5(&[0, 0, 3]));
}

#[test]
fn division_by_a_constant_leaves_nothing() {
    let (q, r) = euclidian_divrem(gf5(&[3, 0, 1]), &gf5(&[0, 0, 2]));
    // 1/2 = 3: the quotient is 3 * (3x^2 + 1) = 4x^2 + 3
    assert_eq!(q, gf5(&[4, 0, 3]));
    assert_eq!(r, gf5(&[0, 0, 0]));
}

#[test]
fn division_of_a_lower_degree_leaves_the_dividend() {
    let (q, r) = euclidian_divrem(gf5(&[0, 0, 4]), &gf5(&[0, 2, 1]));
    assert_eq!(q, gf5(&[0, 0, 0]));
    assert_eq!(r, gf5(&[0, 0, 4]));
}

#[test]
fn field_size_is_the_power() {
    assert_eq!(field_size::<5, 3>(), 125);
    assert_eq!(field_size::<2, 10>(), 1024);
    assert_eq!(field_size::<7, 0>(), 1);
}

#[test]
fn encode_digits_reads_base_p() {
    assert_eq!(encode_digits(&[1, 2, 0].map(<GFElement<5>>::from)), 35);
    assert_eq!(encode_digits(&[0, 0, 0].map(<GFElement<5>>::from)), 0);
    assert_eq!(encode_digits(&[4, 4, 4].map(<GFElement<5>>::from)), 124);
}

#[test]
fn unit_inverse_is_found_or_absent() {
    assert_eq!(
        find_unit_inverse(<GFElement<5>>::from(2)),
        Some(<GFElement<5>>::from(3))
    );
    assert_eq!(
        find_unit_inverse(<GFElement<9>>::from(2)),
        Some(<GFElement<9>>::from(5))
    );
    assert_eq!(find_unit_inverse(<GFElement<9>>::from(3)), None);
    assert_eq!(find_unit_inverse(<GFElement<5>>::from(0)), None);
    assert_eq!(find_unit_inverse(<GFElement<1>>::from(0)), None);
}

#[test]
fn generates_tells_generators() {
    let modulus = gf2(&[1, 0, 1, 1]);
    assert!(generates(&modulus, &[0, 1, 0].map(<GFElement<2>>::from), 7));
    assert!(!generates(&modulus, &[0, 0, 1].map(<GFElement<2>>::from), 7));
    assert!(!generates(&modulus, &[0, 0, 0].map(<GFElement<2>>::from), 7));
    let modulus = gf5(&[1, 0, 2]);
    assert!(!generates(&modulus, &[0, 2].map(<GFElement<5>>::from), 24));
    assert!(generates(&modulus, &[1, 1].map(<GFElement<5>>::from), 24));
}
