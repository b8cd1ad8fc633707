use galois_field::{positional_inc, GFElement};

#[test]
fn add_one_increases() {
    let vector = [0, 1, 0].map(<GFElement<2>>::from);
    assert_eq!(positional_inc(vector), [0, 1, 1].map(<GFElement<2>>::from));
}

#[test]
fn add_one_carrying() {
    let vector = [0, 1, 1].map(<GFElement<2>>::from);
    assert_eq!(positional_inc(vector), [1, 0, 0].map(<GFElement<2>>::from));
}

#[test]
fn add_one_wraps() {
    let vector = [1, 1, 1].map(<GFElement<2>>::from);
    assert_eq!(positional_inc(vector), [0, 0, 0].map(<GFElement<2>>::from));
}

#[test]
fn add_one_works_with_other_bases() {
    let vector = [1, 1, 4].map(<GFElement<5>>::from);
    assert_eq!(positional_inc(vector), [1, 2, 0].map(<GFElement<5>>::from));
}

#[test]
fn add_one_walks_through_every_vector() {
    let mut vector = [0, 0].map(<GFElement<3>>::from);
    for n in 0..9 {
        assert_eq!(vector, [n / 3, n % 3].map(<GFElement<3>>::from));
        vector = positional_inc(vector);
    }
    assert_eq!(vector, [0, 0].map(<GFElement<3>>::from));
}

#[test]
fn add_one_to_the_empty_vector() {
    let vector: [GFElement<3>; 0] = [];
    assert_eq!(positional_inc(vector), vector);
}
