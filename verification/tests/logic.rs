use link_variants::catalan::{
    catalan, checked_catalan, TableExceeded, CATALAN_NUMBERS, CATALAN_TABLE_LEN,
};
use link_variants::link::{Link, Sentinels};
use link_variants::logic::nand;
use link_variants::text::{append_decimal, append_index};

#[test]
fn test_nand() {
    assert_eq!(nand(true, true), false);
    assert_eq!(nand(true, false), true);
    assert_eq!(nand(false, true), true);
    assert_eq!(nand(false, false), true);
}

#[test]
fn catalan_table_starts_as_known() {
    assert_eq!(catalan(0), 1);
    assert_eq!(catalan(1), 1);
    assert_eq!(catalan(2), 2);
    assert_eq!(catalan(3), 5);
    assert_eq!(catalan(4), 14);
    assert_eq!(catalan(5), 42);
    assert_eq!(catalan(10), 16796);
    assert_eq!(catalan(24), 1289904147324);
}

#[test]
fn catalan_table_obeys_the_convolution() {
    assert_eq!(CATALAN_TABLE_LEN, CATALAN_NUMBERS.len());
    for n in 0..CATALAN_TABLE_LEN - 1 {
        let mut sum: u64 = 0;
        for i in 0..=n {
            sum += CATALAN_NUMBERS[i] * CATALAN_NUMBERS[n - i];
        }
        assert_eq!(catalan(n + 1), sum);
    }
}

#[test]
fn link_points() {
    let full = Link::point(4);
    assert_eq!(full, Link::new(4, 4, 4));
    assert!(full.is_full());
    assert!(full.is_partial());
    let partial = Link::new(4, 4, 9);
    assert!(!partial.is_full());
    assert!(partial.is_partial());
    let other = Link::new(4, 9, 4);
    assert!(!other.is_full());
    assert!(other.is_partial());
    let compound = Link::new(4, 2, 3);
    assert!(!compound.is_full());
    assert!(!compound.is_partial());
}

#[test]
fn sentinels_contain_only_themselves() {
    let s = Sentinels { null: 0, any: 100, itself: 99 };
    assert!(s.contains(0));
    assert!(s.contains(100));
    assert!(s.contains(99));
    assert!(!s.contains(1));
    assert!(!s.contains(98));
}

#[test]
fn decimal_numerals() {
    let mut sb = String::new();
    append_decimal(&mut sb, 0);
    assert_eq!(sb, "0");
    let mut sb = String::from("n=");
    append_decimal(&mut sb, 7);
    assert_eq!(sb, "n=7");
    let mut sb = String::new();
    append_decimal(&mut sb, 10);
    assert_eq!(sb, "10");
    let mut sb = String::new();
    append_decimal(&mut sb, 1234567890);
    assert_eq!(sb, "1234567890");
    let mut sb = String::new();
    append_decimal(&mut sb, usize::MAX);
    assert_eq!(sb, format!("{}", usize::MAX));
}

#[test]
fn index_markers() {
    let mut sb = String::new();
    append_index(&mut sb, 12, false, false, true);
    assert_eq!(sb, "12");
    let mut sb = String::new();
    append_index(&mut sb, 12, true, false, true);
    assert_eq!(sb, "~12");
    let mut sb = String::new();
    append_index(&mut sb, 12, false, true, true);
    assert_eq!(sb, "*12");
    let mut sb = String::new();
    append_index(&mut sb, 12, true, true, true);
    assert_eq!(sb, "~12");
    let mut sb = String::new();
    append_index(&mut sb, 12, true, true, false);
    assert_eq!(sb, "12");
}

#[test]
fn checked_lookup_refuses_what_the_table_lacks() {
    assert_eq!(checked_catalan(0), Ok(1));
    assert_eq!(checked_catalan(3), Ok(5));
    assert_eq!(checked_catalan(24), Ok(1289904147324));
    assert_eq!(checked_catalan(25), Err(TableExceeded(25)));
    assert_eq!(checked_catalan(usize::MAX), Err(TableExceeded(usize::MAX)));
}
