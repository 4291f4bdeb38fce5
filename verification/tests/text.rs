use toutates::text::{
    chars_of, contains, join, parse_u32, push_decimal, push_signed, same_text, split, trim,
    white_space, NumberError,
};

fn chars(s: &str) -> Vec<char> {
    s.chars().collect()
}

#[test]
fn white_space_is_unicode_white_space() {
    for u in 0..=0x10ffffu32 {
        if let Some(c) = char::from_u32(u) {
            assert_eq!(white_space(c), c.is_whitespace(), "{u:x}");
        }
    }
}

#[test]
fn trimming_takes_both_ends() {
    for s in ["", "  ", " a b ", "\t\u{2003}x", "y\u{85}\n", "z"] {
        assert_eq!(trim(&chars(s)), chars(s.trim()));
    }
}

#[test]
fn splitting_keeps_empty_parts() {
    for s in ["", ",", "a", "a,b", ",a,,b,"] {
        let expected: Vec<Vec<char>> = s.split(',').map(chars).collect();
        assert_eq!(split(&chars(s), ','), expected);
    }
}

#[test]
fn numbers_are_read_as_the_standard_library_reads_them() {
    for s in [
        "", "0", "7", "+7", "+", "-", "-1", "++1", "007", "4294967295", "4294967296", "99999999999",
        "4294967296x", "x4294967296", "12a", "1 2", "\u{663}", "1\u{e9}", "42949672950x",
    ] {
        let ours = parse_u32(&chars(s));
        match s.parse::<u32>() {
            Ok(n) => assert_eq!(ours, Ok(n), "{s}"),
            Err(e) => assert_eq!(ours.unwrap_err().message(), format!("{e}"), "{s}"),
        }
    }
}

#[test]
fn number_errors_have_their_own_text() {
    assert_eq!(NumberError::Empty.message(), "cannot parse integer from empty string");
    assert_eq!(NumberError::InvalidDigit.message(), "invalid digit found in string");
    assert_eq!(NumberError::TooLarge.message(), "number too large to fit in target type");
}

#[test]
fn decimals_are_written_without_leading_zeros() {
    for n in [0u64, 9, 10, 101, u64::MAX] {
        let mut s = String::from("n=");
        push_decimal(&mut s, n);
        assert_eq!(s, format!("n={n}"));
    }
    for n in [0i64, -1, 42, i64::MIN, i64::MAX] {
        let mut s = String::new();
        push_signed(&mut s, n);
        assert_eq!(s, format!("{n}"));
    }
}

#[test]
fn joining_and_looking_up() {
    let strings = vec![String::from("a"), String::from(""), String::from("c")];
    assert_eq!(join(&strings, ";"), "a;;c");
    assert_eq!(join(&Vec::new(), ";"), "");
    assert!(contains(&strings, ""));
    assert!(!contains(&strings, "b"));
    assert!(same_text("x", "x"));
    assert!(!same_text("x", "X"));
    assert_eq!(chars_of("aé"), vec!['a', 'é']);
}
