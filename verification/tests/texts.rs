use zipped_tables::text::{
    first_line, pad_left, pad_right, parse_u64, parse_usize, same_text, statements, to_decimal,
    to_file_text, to_signed_decimal,
};

#[test]
fn numbers_are_written_in_decimal() {
    assert_eq!(to_decimal(0), "0");
    assert_eq!(to_decimal(1_234_567_890), "1234567890");
    assert_eq!(to_decimal(u128::MAX), format!("{}", u128::MAX));
    assert_eq!(to_signed_decimal(-42), "-42");
    assert_eq!(to_signed_decimal(i64::MIN), format!("{}", i64::MIN));
    assert_eq!(to_signed_decimal(7), "7");
}

#[test]
fn written_numbers_are_read_back() {
    for n in [0u64, 9, 10, 12_345, u64::MAX] {
        assert_eq!(parse_u64(&to_decimal(n as u128)), Some(n));
    }
}

#[test]
fn numbers_are_read_as_the_standard_library_does() {
    for text in ["", "+", "-", "+7", "-7", "007", " 7", "7 ", "1_0", "18446744073709551615",
        "18446744073709551616", "99999999999999999999999", "x"]
    {
        assert_eq!(parse_u64(text), text.parse::<u64>().ok(), "{text}");
        assert_eq!(parse_usize(text), text.parse::<usize>().ok(), "{text}");
    }
}

#[test]
fn statements_are_parted_by_semicolons() {
    assert_eq!(
        statements("select 1;\n select 2 ;\n\t ;;"),
        vec!["select 1", "\n select 2 "]
    );
    assert_eq!(statements(""), Vec::<String>::new());
    assert_eq!(statements(" \u{3000}\u{a0}; "), Vec::<String>::new());
    assert_eq!(statements("select 3"), vec!["select 3"]);
}

#[test]
fn white_space_is_what_the_standard_library_takes_it_for() {
    for code in 0..0x3100u32 {
        if let Some(c) = char::from_u32(code) {
            let text = c.to_string();
            let kept = c != ';' && !c.is_whitespace();
            assert_eq!(statements(&text).len() == 1, kept, "{code:x}");
        }
    }
}

#[test]
fn the_first_line_of_a_message() {
    for text in ["", "one", "one\ntwo", "one\r\ntwo", "one\r", "\ntwo", "one\r\r\ntwo"] {
        assert_eq!(first_line(text), text.lines().next().unwrap_or(""), "{text:?}");
    }
}

#[test]
fn rows_end_in_line_feeds() {
    let rows = vec!["a,b".to_string(), "1,2".to_string()];
    assert_eq!(to_file_text(&rows), "a,b\n1,2\n");
    assert_eq!(to_file_text(&vec![]), "\n");
}

#[test]
fn texts_are_padded_by_characters() {
    assert_eq!(pad_right("ab", 5), format!("{:<5}", "ab"));
    assert_eq!(pad_left("ab", 5), format!("{:>5}", "ab"));
    assert_eq!(pad_left("\u{e4}b", 4), format!("{:>4}", "\u{e4}b"));
    assert_eq!(pad_left("abcdef", 3), "abcdef");
    assert_eq!(pad_right("abcdef", 6), "abcdef");
}

#[test]
fn texts_are_compared() {
    assert!(same_text("poisson", "poisson"));
    assert!(!same_text("poisson", "poisso"));
    assert!(!same_text("a", "A"));
}
