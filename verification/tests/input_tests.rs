use lib::input::{parse_input, parse_numbers, InputError};

#[test]
fn numbers_split_on_ascii_whitespace() {
    assert_eq!(parse_numbers(b" 12\t3\n\n045\r\x0c7 "), Some(vec![12, 3, 45, 7]));
    assert_eq!(parse_numbers(b""), Some(vec![]));
    assert_eq!(parse_numbers(b"18446744073709551615"), Some(vec![u64::MAX]));
}

#[test]
fn numbers_refuse_bad_words() {
    assert_eq!(parse_numbers(b"1 2x 3"), None);
    assert_eq!(parse_numbers(b"-1"), None);
    assert_eq!(parse_numbers(b"18446744073709551616"), None);
}

#[test]
fn input_reads_values_and_queries() {
    let input = match parse_input(b"4 2\n5 3 8 1\n0 2\n1 3\n") {
        Ok(input) => input,
        Err(_) => panic!("expected an input"),
    };
    assert_eq!(input.data, vec![5, 3, 8, 1]);
    assert_eq!(input.queries, vec![(0, 2), (1, 3)]);
}

#[test]
fn input_ignores_trailing_numbers() {
    let input = match parse_input(b"1 0 7 99 100") {
        Ok(input) => input,
        Err(_) => panic!("expected an input"),
    };
    assert_eq!(input.data, vec![7]);
    assert!(input.queries.is_empty());
}

#[test]
fn input_errors() {
    assert!(matches!(parse_input(b"2 1 x"), Err(InputError::BadNumber)));
    assert!(matches!(parse_input(b"3"), Err(InputError::MissingNumbers)));
    assert!(matches!(parse_input(b"2 1 5 6 0"), Err(InputError::MissingNumbers)));
    assert!(matches!(parse_input(b""), Err(InputError::MissingNumbers)));
}
