use shell_lexer::parser::{parse, ParseError, QuoteType, Token};

/// The literal text a token stands for, run-length tokens expanded.
fn token_text(t: &Token) -> String {
    match t {
        Token::Word(w) => w.clone(),
        Token::NewLine(n) => "\n".repeat(*n as usize),
        Token::Whitespace(n) => " ".repeat(*n as usize),
        Token::Tab(n) => "\t".repeat(*n as usize),
        Token::Parenthesis(c) => c.to_string(),
        Token::Quote(QuoteType::Single) => "'".to_string(),
        Token::Quote(QuoteType::Double) => "\"".to_string(),
        Token::Quote(QuoteType::Backtick) => "`".to_string(),
        Token::DollarSign => "$".to_string(),
        Token::Pipe => "|".to_string(),
        Token::Or => "||".to_string(),
        Token::And => "&&".to_string(),
        Token::SingleAmpersand => "&".to_string(),
        Token::Semicolon => ";".to_string(),
        Token::Greater => ">".to_string(),
        Token::Less => "<".to_string(),
    }
}

fn reconstruct(tokens: &[Token]) -> String {
    let mut s = String::new();
    for t in tokens {
        s.push_str(&token_text(t));
    }
    s
}

#[test]
fn empty_input_yields_no_tokens() {
    assert_eq!(parse(String::new()), Ok(vec![]));
}

#[test]
fn letters_only_yield_one_word() {
    assert_eq!(
        parse("abcXYZ".to_string()),
        Ok(vec![Token::Word("abcXYZ".to_string())])
    );
}

#[test]
fn newline_runs_collapse() {
    assert_eq!(
        parse("a\n\nb".to_string()),
        Ok(vec![
            Token::Word("a".to_string()),
            Token::NewLine(2),
            Token::Word("b".to_string()),
        ])
    );
}

#[test]
fn space_runs_collapse() {
    assert_eq!(
        parse("a  b".to_string()),
        Ok(vec![
            Token::Word("a".to_string()),
            Token::Whitespace(2),
            Token::Word("b".to_string()),
        ])
    );
}

#[test]
fn tab_runs_collapse() {
    assert_eq!(parse("\t\t\t".to_string()), Ok(vec![Token::Tab(3)]));
}

#[test]
fn long_layout_run_is_one_token() {
    assert_eq!(parse("\n".repeat(500)), Ok(vec![Token::NewLine(500)]));
    assert_eq!(parse(" ".repeat(500)), Ok(vec![Token::Whitespace(500)]));
}

#[test]
fn double_pipe_is_or() {
    assert_eq!(parse("||".to_string()), Ok(vec![Token::Or]));
}

#[test]
fn lone_pipe_is_pipe() {
    assert_eq!(parse("|".to_string()), Ok(vec![Token::Pipe]));
}

#[test]
fn pipe_keeps_following_character() {
    assert_eq!(
        parse("|x".to_string()),
        Ok(vec![Token::Pipe, Token::Word("x".to_string())])
    );
}

#[test]
fn double_ampersand_is_and() {
    assert_eq!(parse("&&".to_string()), Ok(vec![Token::And]));
}

#[test]
fn lone_ampersand_is_rejected() {
    assert_eq!(
        parse("&".to_string()),
        Err(ParseError::InvalidCharacter('&'))
    );
    assert_eq!(
        parse("&x".to_string()),
        Err(ParseError::InvalidCharacter('&'))
    );
}

#[test]
fn comment_produces_no_tokens() {
    assert_eq!(
        parse("# comment\nword".to_string()),
        Ok(vec![Token::Word("word".to_string())])
    );
}

#[test]
fn comment_without_newline_runs_to_end() {
    assert_eq!(parse("# only a comment".to_string()), Ok(vec![]));
}

#[test]
fn newline_runs_merge_across_a_comment() {
    // The comment swallows its terminating newline, so the newline after it
    // merges with the newline before it.
    assert_eq!(
        parse("a\n# c\n\nb".to_string()),
        Ok(vec![
            Token::Word("a".to_string()),
            Token::NewLine(2),
            Token::Word("b".to_string()),
        ])
    );
}

#[test]
fn escaped_space_stays_in_word() {
    assert_eq!(
        parse("a\\ b".to_string()),
        Ok(vec![Token::Word("a b".to_string())])
    );
}

#[test]
fn escaped_backslash_stays_in_word() {
    assert_eq!(
        parse("a\\\\b".to_string()),
        Ok(vec![Token::Word("a\\b".to_string())])
    );
}

#[test]
fn invalid_escape_is_rejected() {
    assert_eq!(
        parse("a\\qb".to_string()),
        Err(ParseError::InvalidEscapeSequence('q'))
    );
}

#[test]
fn trailing_backslash_is_rejected() {
    assert_eq!(
        parse("a\\".to_string()),
        Err(ParseError::EmptyEscapeSequence())
    );
    assert_eq!(
        parse("\\".to_string()),
        Err(ParseError::EmptyEscapeSequence())
    );
}

#[test]
fn quote_delimiters_are_standalone_tokens() {
    assert_eq!(
        parse("'\"`".to_string()),
        Ok(vec![
            Token::Quote(QuoteType::Single),
            Token::Quote(QuoteType::Double),
            Token::Quote(QuoteType::Backtick),
        ])
    );
}

#[test]
fn brackets_are_individual_tokens() {
    assert_eq!(
        parse("([{}])".to_string()),
        Ok(vec![
            Token::Parenthesis('('),
            Token::Parenthesis('['),
            Token::Parenthesis('{'),
            Token::Parenthesis('}'),
            Token::Parenthesis(']'),
            Token::Parenthesis(')'),
        ])
    );
}

#[test]
fn dollar_is_standalone() {
    assert_eq!(
        parse("$HOME".to_string()),
        Ok(vec![Token::DollarSign, Token::Word("HOME".to_string())])
    );
}

#[test]
fn redirections_and_semicolon() {
    assert_eq!(
        parse("a>b<c;d".to_string()),
        Ok(vec![
            Token::Word("a".to_string()),
            Token::Greater,
            Token::Word("b".to_string()),
            Token::Less,
            Token::Word("c".to_string()),
            Token::Semicolon,
            Token::Word("d".to_string()),
        ])
    );
}

#[test]
fn word_absorbs_non_separator_punctuation() {
    // `|`, `#`, `(` and tab are not word separators, so once a word has
    // begun they are taken literally.
    assert_eq!(
        parse("a|b".to_string()),
        Ok(vec![Token::Word("a|b".to_string())])
    );
    assert_eq!(
        parse("a#b".to_string()),
        Ok(vec![Token::Word("a#b".to_string())])
    );
    assert_eq!(
        parse("a\tb".to_string()),
        Ok(vec![Token::Word("a\tb".to_string())])
    );
}

#[test]
fn pipeline_scenario() {
    assert_eq!(
        parse("ls | wc && echo done\n".to_string()),
        Ok(vec![
            Token::Word("ls".to_string()),
            Token::Whitespace(1),
            Token::Pipe,
            Token::Whitespace(1),
            Token::Word("wc".to_string()),
            Token::Whitespace(1),
            Token::And,
            Token::Whitespace(1),
            Token::Word("echo".to_string()),
            Token::Whitespace(1),
            Token::Word("done".to_string()),
            Token::NewLine(1),
        ])
    );
}

#[test]
fn round_trip_reconstructs_input() {
    // Inputs free of comments and escapes reconstruct exactly from their
    // tokens' literal text.
    for input in [
        "",
        "echo hi",
        "a\n\nb",
        "ls | wc; cat <in >out\n",
        "'single' \"double\" `tick`",
        "( [ { } ] )",
        "x||y && $z",
        "a \t \n b",
    ] {
        let tokens = parse(input.to_string()).unwrap();
        assert_eq!(reconstruct(&tokens), input);
    }
}
