use znsh::parser::tokenize;
use znsh::parser::ParseError;

#[test]
fn splits_words_on_whitespace() {
    assert_eq!(
        tokenize("echo hello world"),
        Ok(vec![
            String::from("echo"),
            String::from("hello"),
            String::from("world"),
        ])
    );
}

#[test]
fn keeps_double_quoted_words_together() {
    assert_eq!(
        tokenize(r#"echo "hello world""#),
        Ok(vec![String::from("echo"), String::from("hello world")])
    )
}

#[test]
fn rejects_unclosed_double_quote() {
    assert_eq!(
        tokenize(r#"echo "hllo"#),
        Err(ParseError::UnclosedDoubleQuote)
    )
}

#[test]
fn keeps_single_quote_words_together() {
    assert_eq!(
        tokenize("echo 'hello world' na"),
        Ok(vec![
            "echo".to_string(),
            "hello world".to_string(),
            "na".to_string(),
        ])
    );
}

#[test]
fn rejects_unclosed_single_quote() {
    assert_eq!(
        tokenize("echo 'hello"),
        Err(ParseError::UnclosedSingleQuote),
    );
}

#[test]
fn empty_arguments() {
    assert_eq!(
        tokenize(r#"echo "" '' "#),
        Ok(vec!["echo".to_string(), "".to_string(), "".to_string(),])
    );
}

#[test]
fn double_quote_inside_single_quote() {
    assert_eq!(
        tokenize(r#"echo 'a "b" c'"#),
        Ok(vec!["echo".to_string(), r#"a "b" c"#.to_string(),])
    )
}

#[test]
fn single_quote_inside_double_quote() {
    assert_eq!(
        tokenize(r#"echo "a 'b' c""#),
        Ok(vec!["echo".to_string(), r#"a 'b' c"#.to_string(),])
    )
}

#[test]
fn word_concatenation() {
    assert_eq!(
        tokenize(r#"echo hello" worl"d"#),
        Ok(vec!["echo".to_string(), "hello world".to_string(),])
    )
}

#[test]
fn back_slash_for_special_char() {
    assert_eq!(
        tokenize(r#"echo hello\ world"#),
        Ok(vec!["echo".to_string(), "hello world".to_string(),])
    );
}

#[test]
fn escape_applies_to_only_one_character() {
    assert_eq!(
        tokenize(r#"echo hello\ world again"#),
        Ok(vec![
            "echo".to_string(),
            "hello world".to_string(),
            "again".to_string(),
        ])
    );
}

#[test]
fn can_escape_quote() {
    assert_eq!(
        tokenize(r#"echo \"hello\""#),
        Ok(vec!["echo".to_string(), r#""hello""#.to_string()])
    );
}

#[test]
fn bslash_is_literal_inside_single_quotes() {
    assert_eq!(
        tokenize(r#"echo 'a\b'"#),
        Ok(vec!["echo".to_string(), r#"a\b"#.to_string()])
    );
}

#[test]
fn bslash_at_end() {
    assert_eq!(tokenize("echo hello\\"), Err(ParseError::BackslashAtEnd));
}

#[test]
fn separates_pipe_from_words() {
    assert_eq!(
        tokenize("echo hello|wc"),
        Ok(vec![
            "echo".to_string(),
            "hello".to_string(),
            "|".to_string(),
            "wc".to_string(),
        ])
    );
}

#[test]
fn pipe_inside_double_quotes_is_literal() {
    assert_eq!(
        tokenize(r#"echo "hello|world""#),
        Ok(vec!["echo".to_string(), "hello|world".to_string(),])
    );
}

#[test]
fn separates_pipe_surrounded_by_spaces() {
    assert_eq!(
        tokenize("echo hello | wc"),
        Ok(vec![
            "echo".to_string(),
            "hello".to_string(),
            "|".to_string(),
            "wc".to_string(),
        ])
    );
}

#[test]
fn leading_pipe_does_not_create_empty_token() {
    assert_eq!(
        tokenize("| echo"),
        Ok(vec!["|".to_string(), "echo".to_string(),])
    );
}

#[test]
fn escaped_pipe_is_literal() {
    assert_eq!(
        tokenize(r#"echo hello\|world"#),
        Ok(vec!["echo".to_string(), "hello|world".to_string(),])
    );
}

#[test]
fn pipe_escape_applies_to_only_one_character() {
    assert_eq!(
        tokenize(r#"echo hello\| world"#),
        Ok(vec![
            "echo".to_string(),
            "hello|".to_string(),
            "world".to_string(),
        ])
    );
}

#[test]
fn escaped_backslash_is_literal() {
    assert_eq!(
        tokenize(r"echo a\\b"),
        Ok(vec!["echo".to_string(), r"a\b".to_string()])
    );
}

#[test]
fn can_escape_single_quote() {
    assert_eq!(
        tokenize(r"echo \'hello\'"),
        Ok(vec!["echo".to_string(), "'hello'".to_string()])
    );
}

#[test]
fn escaped_single_quote_can_be_a_token() {
    assert_eq!(
        tokenize(r"echo \'"),
        Ok(vec!["echo".to_string(), "'".to_string()])
    );
}

#[test]
fn escaped_backslash_can_be_a_token() {
    assert_eq!(
        tokenize(r"echo \\"),
        Ok(vec!["echo".to_string(), "\\".to_string()])
    );
}

#[test]
fn escaped_pipe_can_be_a_token() {
    assert_eq!(
        tokenize(r"echo \|"),
        Ok(vec!["echo".to_string(), "|".to_string()])
    );
}

#[test]
fn empty_line_has_no_words() {
    assert_eq!(tokenize(""), Ok(vec![]));
    assert_eq!(tokenize(" \t  "), Ok(vec![]));
}

#[test]
fn every_unicode_white_space_separates_words() {
    assert_eq!(
        tokenize("a\tb\nc\u{a0}d\u{3000}e\u{2009}f"),
        Ok(vec![
            "a".to_string(),
            "b".to_string(),
            "c".to_string(),
            "d".to_string(),
            "e".to_string(),
            "f".to_string(),
        ])
    );
}

#[test]
fn other_characters_do_not_separate_words() {
    assert_eq!(
        tokenize("a\u{200b}b x\u{180e}y"),
        Ok(vec!["a\u{200b}b".to_string(), "x\u{180e}y".to_string()])
    );
}

#[test]
fn backslash_in_double_quotes_escapes_any_character() {
    assert_eq!(tokenize(r#""a\nb""#), Ok(vec!["anb".to_string()]));
    assert_eq!(tokenize(r#""a\ b""#), Ok(vec!["a b".to_string()]));
    assert_eq!(tokenize(r#""a\"b""#), Ok(vec![r#"a"b"#.to_string()]));
}

#[test]
fn escaped_space_at_end_ends_the_word() {
    assert_eq!(tokenize("a\\ "), Ok(vec!["a ".to_string()]));
}

#[test]
fn backslash_at_end_inside_double_quotes_is_an_unclosed_quote() {
    assert_eq!(tokenize("\"a\\"), Err(ParseError::UnclosedDoubleQuote));
}

#[test]
fn pipe_inside_single_quotes_is_literal() {
    assert_eq!(tokenize("'a|b'"), Ok(vec!["a|b".to_string()]));
}

#[test]
fn pipe_after_empty_quotes_ends_an_empty_word() {
    assert_eq!(
        tokenize("''|x"),
        Ok(vec!["".to_string(), "|".to_string(), "x".to_string()])
    );
}

#[test]
fn trailing_pipe_is_a_word() {
    assert_eq!(tokenize("a|"), Ok(vec!["a".to_string(), "|".to_string()]));
    assert_eq!(
        tokenize("a||b"),
        Ok(vec!["a".to_string(), "|".to_string(), "|".to_string(), "b".to_string()])
    );
}

#[test]
fn quoted_parts_join_bare_parts() {
    assert_eq!(tokenize(r#"a'b c'"d e"f"#), Ok(vec!["ab cd ef".to_string()]));
}

#[test]
fn unclosed_quote_after_plain_text() {
    assert_eq!(tokenize("a b 'c d"), Err(ParseError::UnclosedSingleQuote));
    assert_eq!(tokenize("a b \"c 'd"), Err(ParseError::UnclosedDoubleQuote));
}

#[test]
fn white_space_or_pipe_after_a_good_line_splits_it() {
    assert_eq!(
        tokenize(r#"a'b c'd "x|y" | e\ f"#),
        Ok(vec![
            "ab cd".to_string(),
            "x|y".to_string(),
            "|".to_string(),
            "e f".to_string(),
        ])
    );
    assert_eq!(tokenize("'a b' | \\"), Err(ParseError::BackslashAtEnd));
}
