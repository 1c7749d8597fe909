use deepfinder::text::{chars_lt, chars_of, decimal, same_text};

#[test]
fn decimal_writes_numbers_without_leading_zeros() {
    assert_eq!(decimal(0), "0");
    assert_eq!(decimal(7), "7");
    assert_eq!(decimal(10), "10");
    assert_eq!(decimal(1048576), "1048576");
    assert_eq!(decimal(9007199254740993), "9007199254740993");
    assert_eq!(decimal(u64::MAX), "18446744073709551615");
    for n in [1u64, 9, 11, 99, 100, 101, 12345, 999999, 1u64 << 40] {
        assert_eq!(decimal(n), n.to_string());
    }
}

#[test]
fn chars_of_gives_the_characters() {
    assert_eq!(chars_of("aé/"), vec!['a', 'é', '/']);
    assert_eq!(chars_of(""), Vec::<char>::new());
}

#[test]
fn order_is_that_of_the_strings() {
    let words = ["", "a", "A", "ab", "abc", "b", "é", "z", "zz", "\u{10000}", "\u{ffff}", "a\0"];
    for x in words {
        for y in words {
            assert_eq!(chars_lt(&chars_of(x), &chars_of(y)), x < y);
            assert_eq!(same_text(x, y), x == y);
        }
    }
}
