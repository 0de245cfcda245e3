use lexer::Scanner;
use lexer::TokenType;

#[test]
fn tokenize() {
    let source_input = "1500+89 / 6 -9*45  ";
    let mut scanner = Scanner::new(source_input);
    let result_tokens = scanner.tokenize().unwrap();
    let expected_result = vec!["1500", "+", "89", "/", "6", "-", "9", "*", "45"];
    assert_eq!(result_tokens, expected_result);
}

#[test]
fn empty_input_gives_no_tokens() {
    let mut scanner = Scanner::new("");
    let result = scanner.tokenize().unwrap();
    assert!(result.is_empty());
    assert!(scanner.token_types.is_empty());
}

#[test]
fn spaces_only_give_no_tokens() {
    let mut scanner = Scanner::new("   ");
    let result = scanner.tokenize().unwrap();
    assert!(result.is_empty());
    assert!(scanner.token_types.is_empty());
}

#[test]
fn single_integer_token() {
    let mut scanner = Scanner::new("42");
    let result = scanner.tokenize().unwrap();
    assert_eq!(result, vec!["42"]);
    assert!(matches!(scanner.token_types[0], TokenType::INT(_)));
}

#[test]
fn single_plus_token() {
    let mut scanner = Scanner::new("+");
    let result = scanner.tokenize().unwrap();
    assert_eq!(result, vec!["+"]);
    assert_eq!(scanner.token_types, vec![TokenType::ADD]);
}

#[test]
fn integer_kind_payload_is_first_digit() {
    let mut scanner = Scanner::new("42");
    scanner.tokenize().unwrap();
    assert_eq!(scanner.token_types, vec![TokenType::INT(4)]);
}

#[test]
fn unrecognized_character_reported_at_its_offset() {
    let mut scanner = Scanner::new("3~4");
    let err = scanner.tokenize().unwrap_err();
    assert_eq!(err.character, '~');
    assert_eq!(err.offset, 1);
}

#[test]
fn error_reports_first_unrecognized_character() {
    let mut scanner = Scanner::new("~~");
    let err = scanner.tokenize().unwrap_err();
    assert_eq!(err.character, '~');
    assert_eq!(err.offset, 0);

    let mut scanner = Scanner::new(" ~");
    let err = scanner.tokenize().unwrap_err();
    assert_eq!(err.character, '~');
    assert_eq!(err.offset, 1);

    let mut scanner = Scanner::new("12a34");
    let err = scanner.tokenize().unwrap_err();
    assert_eq!(err.character, 'a');
    assert_eq!(err.offset, 2);
}

#[test]
fn non_ascii_character_is_unrecognized() {
    let mut scanner = Scanner::new("9€");
    let err = scanner.tokenize().unwrap_err();
    assert_eq!(err.character, '€');
    assert_eq!(err.offset, 1);
}

#[test]
fn tokens_before_an_error_stay_in_the_scanner() {
    let mut scanner = Scanner::new("3~4");
    assert!(scanner.tokenize().is_err());
    assert_eq!(scanner.token_types, vec![TokenType::INT(3)]);
}

#[test]
fn tokenize_is_deterministic() {
    let input = "7+8 * 90/4 -2";
    let mut first = Scanner::new(input);
    let mut second = Scanner::new(input);
    let first_tokens = first.tokenize().unwrap();
    let second_tokens = second.tokenize().unwrap();
    assert_eq!(first_tokens, second_tokens);
    assert_eq!(first.token_types, second.token_types);
}

#[test]
fn whitespace_insertion_preserves_tokens() {
    let expected = vec!["1", "+", "2"];
    for input in ["1+2", "1 +2", "1+ 2", " 1 + 2 ", "1  +   2"] {
        let mut scanner = Scanner::new(input);
        assert_eq!(scanner.tokenize().unwrap(), expected);
    }
}

#[test]
fn maximal_munch_keeps_digit_runs_whole() {
    let mut scanner = Scanner::new("1234");
    assert_eq!(scanner.tokenize().unwrap(), vec!["1234"]);

    let mut scanner = Scanner::new("12 34");
    assert_eq!(scanner.tokenize().unwrap(), vec!["12", "34"]);
}

#[test]
fn all_operators_tokenize_one_character_each() {
    let mut scanner = Scanner::new("+-*/");
    let result = scanner.tokenize().unwrap();
    assert_eq!(result, vec!["+", "-", "*", "/"]);
    assert_eq!(
        scanner.token_types,
        vec![TokenType::ADD, TokenType::MIN, TokenType::MULT, TokenType::DIV]
    );
}

#[test]
fn kinds_run_parallel_to_lexemes() {
    let mut scanner = Scanner::new("7*8 /9");
    let result = scanner.tokenize().unwrap();
    assert_eq!(result.len(), scanner.token_types.len());
    assert_eq!(
        scanner.token_types,
        vec![TokenType::INT(7), TokenType::MULT, TokenType::INT(8), TokenType::DIV, TokenType::INT(9)]
    );
}

#[test]
fn every_offset_is_a_token_character_or_a_space() {
    let input = "1500+89 / 6 -9*45  ";
    let mut scanner = Scanner::new(input);
    let result = scanner.tokenize().unwrap();
    let token_chars: usize = result.iter().map(|t| t.chars().count()).sum();
    let spaces = input.chars().filter(|c| *c == ' ').count();
    assert_eq!(token_chars + spaces, input.chars().count());
}

#[test]
fn surrounding_spaces_are_skipped() {
    let mut scanner = Scanner::new("  12  ");
    assert_eq!(scanner.tokenize().unwrap(), vec!["12"]);
}

#[test]
fn classification_is_idempotent() {
    assert_eq!(Scanner::recognize(Some('7')), Scanner::recognize(Some('7')));
    assert_eq!(Scanner::recognize(Some('~')), Scanner::recognize(Some('~')));
    assert_eq!(Scanner::recognize(None), Scanner::recognize(None));
}

#[test]
fn classification_labels_each_character() {
    assert_eq!(Scanner::recognize(Some('0')), TokenType::INT(0));
    assert_eq!(Scanner::recognize(Some('9')), TokenType::INT(9));
    assert_eq!(Scanner::recognize(Some('+')), TokenType::ADD);
    assert_eq!(Scanner::recognize(Some('-')), TokenType::MIN);
    assert_eq!(Scanner::recognize(Some('*')), TokenType::MULT);
    assert_eq!(Scanner::recognize(Some('/')), TokenType::DIV);
    assert_eq!(Scanner::recognize(Some(' ')), TokenType::WS);
    assert_eq!(Scanner::recognize(Some('x')), TokenType::UNKNOWN);
    assert_eq!(Scanner::recognize(None), TokenType::EOF);
}
