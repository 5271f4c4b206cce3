use showcase::text::decimal_chars;

#[test]
fn decimal_digits_of_numbers() {
    assert_eq!(decimal_chars(0), vec!['0']);
    assert_eq!(decimal_chars(7), vec!['7']);
    assert_eq!(decimal_chars(1024), vec!['1', '0', '2', '4']);
    assert_eq!(decimal_chars(u64::MAX).len(), 20);
}
