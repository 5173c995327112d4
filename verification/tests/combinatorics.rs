use hp_data_structures::combinatorics::binomial_mod;

#[test]
fn test_binomial_mod() {
    let p = 1_000_000_007;
    assert_eq!(binomial_mod(5, 2, p), 10);
    assert_eq!(binomial_mod(6, 3, p), 20);
    assert_eq!(binomial_mod(10, 0, p), 1);
    assert_eq!(binomial_mod(10, 10, p), 1);
}

#[test]
fn binomial_mod_reduces_inner_entries() {
    // 10 choose 5 is 252.
    assert_eq!(binomial_mod(10, 5, 1_000_000_007), 252);
    assert_eq!(binomial_mod(10, 5, 100), 52);
    assert_eq!(binomial_mod(10, 5, 7), 0);
    // 20 choose 10 is 184756.
    assert_eq!(binomial_mod(20, 10, 1_000_000_007), 184_756);
    assert_eq!(binomial_mod(20, 10, 1000), 756);
}

#[test]
fn binomial_mod_row_of_pascals_triangle() {
    let row: Vec<usize> = (0..=6).map(|k| binomial_mod(6, k, 1_000_000_007)).collect();
    assert_eq!(row, vec![1, 6, 15, 20, 15, 6, 1]);
}

#[test]
fn binomial_mod_modulus_one() {
    // The ends of a row are the literal one; every inner entry is reduced.
    assert_eq!(binomial_mod(4, 0, 1), 1);
    assert_eq!(binomial_mod(4, 4, 1), 1);
    assert_eq!(binomial_mod(4, 2, 1), 0);
    assert_eq!(binomial_mod(0, 0, 1), 1);
}

#[test]
fn binomial_mod_largest_modulus() {
    // The sum of two entries below the modulus does not fit the word; the
    // result is right all the same.
    let p = usize::MAX;
    assert_eq!(binomial_mod(5, 2, p), 10);
    assert_eq!(binomial_mod(2, 1, 2), 0);
    assert_eq!(binomial_mod(3, 1, 2), 1);
}
