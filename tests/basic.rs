use scilib::math::basic::{binomial, factorial, levi_civita, pascal_triangle};

#[test]
fn factorial_of_five() {
    assert_eq!(factorial(5), 120);
}

#[test]
fn factorial_of_zero() {
    assert_eq!(factorial(0), 1);
}

#[test]
fn factorial_small_values() {
    assert_eq!(factorial(1), 1);
    assert_eq!(factorial(2), 2);
    assert_eq!(factorial(3), 6);
    assert_eq!(factorial(10), 3_628_800);
}

#[test]
fn factorial_largest_on_64_bits() {
    if usize::BITS == 64 {
        assert_eq!(factorial(20), 2_432_902_008_176_640_000);
    }
}

#[test]
fn binomial_four_choose_two() {
    assert_eq!(binomial(4, 2), 6);
}

#[test]
fn binomial_is_symmetric() {
    for n in 0..30usize {
        for k in 0..=n {
            assert_eq!(binomial(n, k), binomial(n, n - k));
        }
    }
    assert_eq!(binomial(10, 3), 120);
    assert_eq!(binomial(10, 7), 120);
}

#[test]
fn binomial_above_n_is_zero() {
    assert_eq!(binomial(3, 4), 0);
    assert_eq!(binomial(0, 1), 0);
    assert_eq!(binomial(5, 100), 0);
}

#[test]
fn binomial_edges() {
    assert_eq!(binomial(0, 0), 1);
    assert_eq!(binomial(7, 0), 1);
    assert_eq!(binomial(7, 7), 1);
    assert_eq!(binomial(7, 1), 7);
    assert_eq!(binomial(7, 6), 7);
}

#[test]
fn binomial_pascal_rule() {
    for n in 1..40usize {
        for k in 1..=n {
            assert_eq!(binomial(n, k), binomial(n - 1, k - 1) + binomial(n - 1, k));
        }
    }
}

#[test]
fn binomial_largest_central_on_64_bits() {
    if usize::BITS == 64 {
        assert_eq!(binomial(67, 33), 14_226_520_737_620_288_370);
        assert_eq!(binomial(67, 34), 14_226_520_737_620_288_370);
        assert_eq!(binomial(100, 98), 4950);
    }
}

#[test]
fn pascal_triangle_row_five() {
    assert_eq!(pascal_triangle(5), vec![1, 5, 10, 10, 5, 1]);
}

#[test]
fn pascal_triangle_first_rows() {
    assert_eq!(pascal_triangle(0), vec![1]);
    assert_eq!(pascal_triangle(1), vec![1, 1]);
    assert_eq!(pascal_triangle(2), vec![1, 2, 1]);
    assert_eq!(pascal_triangle(6), vec![1, 6, 15, 20, 15, 6, 1]);
}

#[test]
fn pascal_triangle_row_sums_to_power_of_two() {
    for n in 0..20usize {
        let row = pascal_triangle(n);
        assert_eq!(row.len(), n + 1);
        assert_eq!(row.iter().sum::<usize>(), 1usize << n);
    }
}

#[test]
fn levi_civita_even_permutation() {
    assert_eq!(levi_civita(vec![2, 3, 4, 5, 1]), 1);
}

#[test]
fn levi_civita_odd_permutation() {
    assert_eq!(levi_civita(vec![3, 2, 1]), -1);
}

#[test]
fn levi_civita_repeated_index() {
    assert_eq!(levi_civita(vec![1, 1, 2, 3, 4, 5, 6]), 0);
}

#[test]
fn levi_civita_small_cases() {
    assert_eq!(levi_civita(vec![]), 1);
    assert_eq!(levi_civita(vec![7]), 1);
    assert_eq!(levi_civita(vec![1, 2, 3]), 1);
    assert_eq!(levi_civita(vec![2, 3, 1]), 1);
    assert_eq!(levi_civita(vec![2, 1, 3]), -1);
    assert_eq!(levi_civita(vec![1, 2, 3, 2]), 0);
}

#[test]
fn levi_civita_extreme_values_do_not_overflow() {
    assert_eq!(levi_civita(vec![isize::MIN, isize::MAX]), 1);
    assert_eq!(levi_civita(vec![isize::MAX, isize::MIN]), -1);
}
