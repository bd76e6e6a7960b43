use shell_lexer::expansions::{find_expansions, extract_variable_name, Expansion, ExpansionError};
use shell_lexer::parser::{parse, QuoteType, Token};

#[test]
fn backtick_region_is_collected() {
    let tokens = vec![
        Token::Quote(QuoteType::Backtick),
        Token::Word("ls".to_string()),
        Token::Quote(QuoteType::Backtick),
    ];
    assert_eq!(
        find_expansions(&tokens),
        Ok(vec![Expansion::Command(
            vec![Token::Word("ls".to_string())],
            true
        )])
    );
}

#[test]
fn unclosed_backtick_is_reported() {
    let tokens = vec![
        Token::Quote(QuoteType::Backtick),
        Token::Word("ls".to_string()),
    ];
    assert_eq!(
        find_expansions(&tokens),
        Ok(vec![Expansion::Command(
            vec![Token::Word("ls".to_string())],
            false
        )])
    );
}

#[test]
fn backtick_region_keeps_other_quotes() {
    // Inside a backtick region only a backtick ends the collection; other
    // quote tokens are collected and do not toggle single-quote context.
    let tokens = vec![
        Token::Quote(QuoteType::Backtick),
        Token::Quote(QuoteType::Single),
        Token::Quote(QuoteType::Backtick),
        Token::DollarSign,
        Token::Word("v".to_string()),
    ];
    assert_eq!(
        find_expansions(&tokens),
        Ok(vec![
            Expansion::Command(vec![Token::Quote(QuoteType::Single)], true),
            Expansion::Variable("v".to_string()),
        ])
    );
}

#[test]
fn variable_name_is_first_segment() {
    let tokens = vec![Token::DollarSign, Token::Word("HOME dir".to_string())];
    assert_eq!(
        find_expansions(&tokens),
        Ok(vec![Expansion::Variable("HOME".to_string())])
    );
}

#[test]
fn single_quotes_suppress_expansions() {
    let tokens = vec![
        Token::Quote(QuoteType::Single),
        Token::DollarSign,
        Token::Word("x".to_string()),
        Token::Quote(QuoteType::Backtick),
        Token::Quote(QuoteType::Single),
    ];
    assert_eq!(find_expansions(&tokens), Ok(vec![]));
}

#[test]
fn double_quotes_do_not_suppress() {
    let tokens = vec![
        Token::Quote(QuoteType::Double),
        Token::DollarSign,
        Token::Word("x".to_string()),
    ];
    assert_eq!(
        find_expansions(&tokens),
        Ok(vec![Expansion::Variable("x".to_string())])
    );
}

#[test]
fn parenthesis_after_dollar_is_unimplemented() {
    let tokens = vec![Token::DollarSign, Token::Parenthesis('(')];
    assert_eq!(
        find_expansions(&tokens),
        Err(ExpansionError::UnimplementedSubstitution)
    );
}

#[test]
fn unexpected_token_after_dollar_is_reported() {
    let tokens = vec![Token::DollarSign, Token::Pipe];
    assert_eq!(
        find_expansions(&tokens),
        Ok(vec![Expansion::UnexpectedAfterDollar(Token::Pipe)])
    );
}

#[test]
fn trailing_dollar_yields_nothing() {
    let tokens = vec![Token::Word("a".to_string()), Token::DollarSign];
    assert_eq!(find_expansions(&tokens), Ok(vec![]));
}

#[test]
fn token_after_variable_is_consumed_unexamined() {
    // After `$` and its word, one further token is consumed without being
    // examined — here a single quote, which therefore does not toggle
    // quote context.
    let tokens = vec![
        Token::DollarSign,
        Token::Word("a".to_string()),
        Token::Quote(QuoteType::Single),
        Token::DollarSign,
        Token::Word("b".to_string()),
    ];
    assert_eq!(
        find_expansions(&tokens),
        Ok(vec![
            Expansion::Variable("a".to_string()),
            Expansion::Variable("b".to_string()),
        ])
    );
}

#[test]
fn variable_name_splits_on_space_slash_dash() {
    assert_eq!(extract_variable_name("HOME dir"), "HOME");
    assert_eq!(extract_variable_name("a/b"), "a");
    assert_eq!(extract_variable_name("a-b"), "a");
    assert_eq!(extract_variable_name("plain"), "plain");
    assert_eq!(extract_variable_name(""), "");
    assert_eq!(extract_variable_name("-x"), "");
}

#[test]
fn scanned_source_to_expansions() {
    let tokens = parse("echo `ls dir` $PATH x".to_string()).unwrap();
    assert_eq!(
        find_expansions(&tokens),
        Ok(vec![
            Expansion::Command(
                vec![
                    Token::Word("ls".to_string()),
                    Token::Whitespace(1),
                    Token::Word("dir".to_string()),
                ],
                true
            ),
            Expansion::Variable("PATH".to_string()),
        ])
    );
}
