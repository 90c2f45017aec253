use hlp_brute_force::text::{decimal_digits, notation, thousands};
use hlp_brute_force::unique_vec::generate_unique;

#[test]
fn thousands_small_numbers_have_no_commas() {
    assert_eq!(thousands(0), "0");
    assert_eq!(thousands(7), "7");
    assert_eq!(thousands(999), "999");
}

#[test]
fn thousands_groups_by_three() {
    assert_eq!(thousands(1000), "1,000");
    assert_eq!(thousands(1234567), "1,234,567");
    assert_eq!(thousands(100000), "100,000");
    assert_eq!(thousands(12345678), "12,345,678");
}

#[test]
fn thousands_without_commas_is_the_number() {
    let n: usize = 9876543210;
    assert_eq!(thousands(n).replace(',', ""), n.to_string());
}

#[test]
fn decimal_digits_of_numbers() {
    assert_eq!(decimal_digits(0), vec!['0']);
    assert_eq!(decimal_digits(305), vec!['3', '0', '5']);
}

#[test]
fn notation_of_readme_layers() {
    let unique = generate_unique();
    // Indices of the layers `1, *F`, `C, 3` and `A, *F` among the unique layers.
    let count = vec![[130, 130], [71, 0], [209, 0]];
    assert_eq!(notation(&count, &unique), "0,*15; 12,3; 10,*15; ");
}

#[test]
fn notation_marks_subtract_mode() {
    let unique = generate_unique();
    // `*3, 4` is unique layer 315.
    assert_eq!(notation(&vec![[315, 315]], &unique), "*3,4; ");
}

#[test]
fn notation_of_empty_chain_is_empty() {
    let unique = generate_unique();
    assert_eq!(notation(&Vec::new(), &unique), "");
}

#[test]
fn notation_skips_tables_no_layer_computes() {
    let unique = vec![[5, 4, 3, 2, 1, 0, 5, 4, 3, 2, 1, 0, 5, 4, 3, 2]];
    assert_eq!(notation(&vec![[0, 0]], &unique), "");
}
