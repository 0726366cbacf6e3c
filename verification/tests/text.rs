use att::text::{is_whitespace, parse_decimal, push_decimal, trim};

fn chars(text: &str) -> Vec<char> {
    text.chars().collect()
}

#[test]
fn whitespace_is_what_the_standard_library_takes_for_it() {
    for n in 0..=0x10FFFFu32 {
        if let Some(c) = char::from_u32(n) {
            assert_eq!(is_whitespace(c), c.is_whitespace(), "{:x}", n);
        }
    }
}

#[test]
fn trimming_removes_whitespace_at_both_ends_only() {
    for text in [
        "",
        " ",
        "a",
        "  a",
        "a  ",
        " a b ",
        "\t\n a\u{a0}b \u{2003}\r\n",
        "   \u{3000}  ",
        "x y z",
    ] {
        assert_eq!(trim(&chars(text)), chars(text.trim()), "{:?}", text);
    }
}

#[test]
fn decimal_numbers_are_read_as_the_standard_library_reads_them() {
    for text in [
        "", "0", "7", "+7", "-7", "007", "+", "++1", "+-1", "12a", "a12", " 12", "12 ", "1_000",
        "4294967295", "4294967296", "+4294967295", "00000000004294967295", "99999999999999999999",
        "5.1", "٣", "１２",
    ] {
        assert_eq!(
            parse_decimal(&chars(text)),
            text.parse::<u32>().ok(),
            "{:?}",
            text
        );
    }
}

#[test]
fn exact_values_of_decimal_numbers() {
    assert_eq!(parse_decimal(&chars("0")), Some(0));
    assert_eq!(parse_decimal(&chars("+15")), Some(15));
    assert_eq!(parse_decimal(&chars("4294967295")), Some(u32::MAX));
    assert_eq!(parse_decimal(&chars("4294967296")), None);
    assert_eq!(parse_decimal(&chars("")), None);
}

#[test]
fn numbers_are_written_in_decimal() {
    for n in [0u128, 1, 9, 10, 11, 99, 100, 101, 4294967295, 4294967296, u128::MAX] {
        let mut out = String::from("n=");
        push_decimal(&mut out, n);
        assert_eq!(out, format!("n={}", n));
    }
}

#[test]
fn a_written_number_is_read_back() {
    for n in [0u32, 5, 10, 1234567890, u32::MAX] {
        let mut out = String::new();
        push_decimal(&mut out, n as u128);
        assert_eq!(parse_decimal(&chars(&out)), Some(n));
    }
}
