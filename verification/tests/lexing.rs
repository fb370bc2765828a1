use rex_cell::ExpressionToken;
use rex_cell::LexError;
use rex_cell::Lexer;

#[test]
fn lexes_numbers_and_operators() {
    let tokens = Lexer::new("1 + 2 * 3".to_string()).lex_all().unwrap();
    assert_eq!(
        tokens,
        vec![
            ExpressionToken::Number(1),
            ExpressionToken::Plus,
            ExpressionToken::Number(2),
            ExpressionToken::Multiply,
            ExpressionToken::Number(3),
        ]
    );
}

#[test]
fn lexes_identifiers_and_operators() {
    let tokens = Lexer::new("a + b * c".to_string()).lex_all().unwrap();
    assert_eq!(
        tokens,
        vec![
            ExpressionToken::Identifier("a".to_string()),
            ExpressionToken::Plus,
            ExpressionToken::Identifier("b".to_string()),
            ExpressionToken::Multiply,
            ExpressionToken::Identifier("c".to_string()),
        ]
    );
}

#[test]
fn unmatched_close_paren_fails() {
    let outcome = Lexer::new(")".to_string()).lex_all();
    assert_eq!(
        outcome,
        Err(LexError::UnbalancedParenthesis { offset: 0 })
    );
}

#[test]
fn close_paren_fails_at_its_offset_with_no_tokens_after() {
    let mut lexer = Lexer::new("1 )".to_string());
    assert_eq!(lexer.next_token(), Some(Ok(ExpressionToken::Number(1))));
    assert_eq!(
        lexer.next_token(),
        Some(Err(LexError::UnbalancedParenthesis { offset: 2 }))
    );
}

#[test]
fn balanced_parens_lex() {
    let tokens = Lexer::new("(a)/(2-1)".to_string()).lex_all().unwrap();
    assert_eq!(
        tokens,
        vec![
            ExpressionToken::LeftParenthesis,
            ExpressionToken::Identifier("a".to_string()),
            ExpressionToken::RightParenthesis,
            ExpressionToken::Divide,
            ExpressionToken::LeftParenthesis,
            ExpressionToken::Number(2),
            ExpressionToken::Minus,
            ExpressionToken::Number(1),
            ExpressionToken::RightParenthesis,
        ]
    );
}

#[test]
fn unclosed_paren_is_not_an_error() {
    let tokens = Lexer::new("(1".to_string()).lex_all().unwrap();
    assert_eq!(
        tokens,
        vec![ExpressionToken::LeftParenthesis, ExpressionToken::Number(1)]
    );
}

#[test]
fn unrecognized_character_ends_the_sequence_silently() {
    let tokens = Lexer::new("1 ? 2".to_string()).lex_all().unwrap();
    assert_eq!(tokens, vec![ExpressionToken::Number(1)]);
}

#[test]
fn identifiers_are_letter_runs_only() {
    let tokens = Lexer::new("a1".to_string()).lex_all().unwrap();
    assert_eq!(
        tokens,
        vec![
            ExpressionToken::Identifier("a".to_string()),
            ExpressionToken::Number(1),
        ]
    );
}

#[test]
fn largest_number_token_is_accepted() {
    let tokens = Lexer::new("9223372036854775807".to_string()).lex_all().unwrap();
    assert_eq!(tokens, vec![ExpressionToken::Number(i64::MAX)]);
    let outcome = Lexer::new("9223372036854775808".to_string()).lex_all();
    assert_eq!(outcome, Err(LexError::NumberTooLarge { offset: 0 }));
}

#[test]
fn whitespace_only_input_makes_no_tokens() {
    let tokens = Lexer::new("   ".to_string()).lex_all().unwrap();
    assert_eq!(tokens, Vec::new());
}
