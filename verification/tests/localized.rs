use oderom::localized::{merge_add, merge_max};

#[test]
fn merge_add_sums_shared_exponents_and_appends_new_generators() {
    let mut den = vec![(0usize, 2u32), (3, 1)];
    merge_add(&mut den, &[(3, 4), (5, 1), (0, 1)]);
    assert_eq!(den, vec![(0, 3), (3, 5), (5, 1)]);
}

#[test]
fn merge_max_keeps_the_larger_exponent() {
    let mut den = vec![(0usize, 2u32), (3, 1)];
    merge_max(&mut den, &[(3, 4), (5, 1), (0, 1)]);
    assert_eq!(den, vec![(0, 2), (3, 4), (5, 1)]);
}

#[test]
fn merging_into_an_empty_product_copies_the_other() {
    let mut den: Vec<(usize, u32)> = Vec::new();
    merge_add(&mut den, &[(7, 2), (1, 1)]);
    assert_eq!(den, vec![(7, 2), (1, 1)]);
    let mut den2: Vec<(usize, u32)> = vec![(1, 1)];
    merge_max(&mut den2, &[]);
    assert_eq!(den2, vec![(1, 1)]);
}
