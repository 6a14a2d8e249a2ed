use expr_compiler::scan::{
    char_is_digit, char_is_whitespace, scan_file, scan_line, scan_token, text_chars, CharCursor,
    Token, TokenError,
};

fn error_at(line: usize, column: usize, character: char) -> Result<Token, TokenError> {
    Err(TokenError {
        line,
        column,
        character,
    })
}

#[test]
fn whitespace_is_what_std_calls_whitespace() {
    for code in 0..=0x10FFFFu32 {
        if let Some(c) = char::from_u32(code) {
            assert_eq!(char_is_whitespace(c), c.is_whitespace(), "U+{:04X}", code);
        }
    }
}

#[test]
fn digits_are_the_ten_ascii_digits() {
    for code in 0..=0x10FFFFu32 {
        if let Some(c) = char::from_u32(code) {
            assert_eq!(char_is_digit(c), c.is_digit(10), "U+{:04X}", code);
        }
    }
}

#[test]
fn text_chars_gives_the_characters_in_order() {
    assert_eq!(text_chars(""), Vec::<char>::new());
    assert_eq!(text_chars("a+1"), vec!['a', '+', '1']);
    assert_eq!(text_chars("é 2"), vec!['é', ' ', '2']);
}

#[test]
fn many_operations_scan_to_the_exact_sequence() {
    let expected: Vec<Result<Token, TokenError>> = vec![
        Ok(Token::INT(1)),
        Ok(Token::PLUS),
        Ok(Token::INT(3)),
        Ok(Token::MINUS),
        Ok(Token::INT(5)),
        Ok(Token::ASTERISK),
        Ok(Token::INT(44)),
        Ok(Token::SLASH),
        Ok(Token::INT(6)),
        Ok(Token::PLUS),
        Ok(Token::INT(4)),
    ];
    assert_eq!(scan_line("1+3-5*44/6+4", 1), expected);
    assert_eq!(scan_line("1+3-5*44/6+4", 77), expected);
}

#[test]
fn a_bad_character_does_not_hide_what_follows() {
    assert_eq!(
        scan_line("1 @ 2", 1),
        vec![Ok(Token::INT(1)), error_at(1, 2, '@'), Ok(Token::INT(2))]
    );
    assert_eq!(
        scan_line("@@1", 4),
        vec![error_at(4, 0, '@'), error_at(4, 1, '@'), Ok(Token::INT(1))]
    );
}

#[test]
fn the_largest_literal_fits() {
    assert_eq!(scan_line("2147483647", 1), vec![Ok(Token::INT(i32::MAX))]);
    assert_eq!(scan_line("0", 1), vec![Ok(Token::INT(0))]);
}

#[test]
fn a_literal_that_overflows_is_one_error_at_its_start() {
    assert_eq!(scan_line("2147483648", 1), vec![error_at(1, 0, '2')]);
    assert_eq!(
        scan_line(" 99999999999 + 1", 3),
        vec![error_at(3, 1, '9'), Ok(Token::PLUS), Ok(Token::INT(1))]
    );
    assert_eq!(
        scan_line("1+340282366920938463463374607431768211456", 1),
        vec![Ok(Token::INT(1)), Ok(Token::PLUS), error_at(1, 2, '3')]
    );
}

#[test]
fn leading_zeros_do_not_count() {
    assert_eq!(
        scan_line("000000000000000000000012", 1),
        vec![Ok(Token::INT(12))]
    );
    assert_eq!(
        scan_line("00000000002147483647", 1),
        vec![Ok(Token::INT(i32::MAX))]
    );
    assert_eq!(scan_line("00000000002147483648", 1), vec![error_at(1, 0, '0')]);
}

#[test]
fn digits_are_taken_greedily_and_nothing_else() {
    let mut chars = CharCursor::new("23+4");
    assert_eq!(scan_token('1', &mut chars, 1, 0), Ok(Token::INT(123)));
    assert_eq!(chars.peek(), Some((2, '+')));
    assert_eq!(chars.next(), Some((2, '+')));
    assert_eq!(chars.next(), Some((3, '4')));
    assert_eq!(chars.next(), None);
    assert_eq!(chars.peek(), None);
}

#[test]
fn an_operator_or_a_bad_character_consumes_nothing() {
    let mut chars = CharCursor::new("12");
    assert_eq!(scan_token('+', &mut chars, 1, 0), Ok(Token::PLUS));
    assert_eq!(chars.peek(), Some((0, '1')));
    assert_eq!(scan_token('x', &mut chars, 2, 9), error_at(2, 9, 'x'));
    assert_eq!(chars.peek(), Some((0, '1')));
}

#[test]
fn columns_count_characters_not_bytes() {
    assert_eq!(
        scan_line("é 1 ü", 1),
        vec![error_at(1, 0, 'é'), Ok(Token::INT(1)), error_at(1, 4, 'ü')]
    );
}

#[test]
fn digits_of_other_scripts_are_no_digits() {
    assert_eq!(scan_line("٣", 1), vec![error_at(1, 0, '٣')]);
    assert_eq!(
        scan_line("1٣", 1),
        vec![Ok(Token::INT(1)), error_at(1, 1, '٣')]
    );
}

#[test]
fn every_kind_of_whitespace_is_skipped() {
    assert_eq!(
        scan_line("\t1\u{A0}+\u{3000}2\u{2028}", 1),
        vec![Ok(Token::INT(1)), Ok(Token::PLUS), Ok(Token::INT(2))]
    );
    assert_eq!(scan_line("1 2", 1), vec![Ok(Token::INT(1)), Ok(Token::INT(2))]);
}

#[test]
fn a_negative_number_is_a_minus_and_a_number() {
    assert_eq!(
        scan_line("-5", 1),
        vec![Ok(Token::MINUS), Ok(Token::INT(5))]
    );
}

#[test]
fn blank_input_has_no_tokens() {
    assert!(scan_line("", 1).is_empty());
    assert!(scan_line("   \t \u{A0} ", 1).is_empty());
    assert!(scan_file(&Vec::new()).is_empty());
    let blank = vec![String::from(""), String::from("   "), String::from("\t")];
    assert!(scan_file(&blank).is_empty());
}

#[test]
fn lines_are_numbered_from_one_and_columns_start_anew() {
    let lines = vec![
        String::from("1"),
        String::from(""),
        String::from("  # 2"),
        String::from("$"),
    ];
    assert_eq!(
        scan_file(&lines),
        vec![
            Ok(Token::INT(1)),
            error_at(3, 2, '#'),
            Ok(Token::INT(2)),
            error_at(4, 0, '$'),
        ]
    );
}

#[test]
fn the_scanner_gives_no_boundary_token() {
    for text in ["1+2", "a b c", "((1))", "\n", "EndOfLine", "1;2"] {
        for result in scan_line(text, 1) {
            assert!(!matches!(
                result,
                Ok(Token::EndOfLine) | Ok(Token::EndOfFile)
            ));
        }
    }
}
