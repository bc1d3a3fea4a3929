use jq_edit::tokens::{tokenize, Token, TokenType};

#[test]
fn tokenize_punctuation() {
    let source = "{}[],:";
    let tokens = tokenize(source);

    assert_eq!(tokens.len(), 6);
    assert_eq!(&tokens[0], &Token { tty: TokenType::OpenBrace, lex: "{" });
    assert_eq!(&tokens[1], &Token { tty: TokenType::CloseBrace, lex: "}" });
    assert_eq!(&tokens[2], &Token { tty: TokenType::OpenBracket, lex: "[" });
    assert_eq!(&tokens[3], &Token { tty: TokenType::CloseBracket, lex: "]" });
    assert_eq!(&tokens[4], &Token { tty: TokenType::Comma, lex: "," });
    assert_eq!(&tokens[5], &Token { tty: TokenType::Colon, lex: ":" });
}

#[test]
fn tokenize_whitespace() {
    let source = " \t\n\r\n";
    let tokens = tokenize(source);

    assert_eq!(tokens.len(), 3, "number of tokens did not match, tokens = {:?}", tokens);
    assert_eq!(&tokens[0], &Token { tty: TokenType::Whitespace, lex: " \t" });
    assert_eq!(&tokens[1], &Token { tty: TokenType::Newline, lex: "\n" });
    assert_eq!(&tokens[2], &Token { tty: TokenType::Newline, lex: "\r\n" });
}

#[test]
fn tokenize_number_whole() {
    let tokens = tokenize("1234567890");
    assert_eq!(tokens.len(), 1, "number of tokens did not match, tokens = {:?}", tokens);
    assert_eq!(&tokens[0], &Token { tty: TokenType::Number, lex: "1234567890" });
}

#[test]
fn tokenize_number_negative() {
    let tokens = tokenize("-3");
    assert_eq!(tokens.len(), 1, "number of tokens did not match, tokens = {:?}", tokens);
    assert_eq!(&tokens[0], &Token { tty: TokenType::Number, lex: "-3" });
}

#[test]
fn tokenize_number_decimal() {
    let tokens = tokenize("3.14");
    assert_eq!(tokens.len(), 1, "number of tokens did not match, tokens = {:?}", tokens);
    assert_eq!(&tokens[0], &Token { tty: TokenType::Number, lex: "3.14" });
}

#[test]
fn tokenize_number_trailing_decimal() {
    let tokens = tokenize("2.");
    assert_eq!(tokens.len(), 1, "number of tokens did not match, tokens = {:?}", tokens);
    assert_eq!(&tokens[0], &Token { tty: TokenType::Number, lex: "2." });
}

#[test]
fn tokenize_number_leading_decimal() {
    let tokens = tokenize(".1");
    assert_eq!(tokens.len(), 1, "number of tokens did not match, tokens = {:?}", tokens);
    assert_eq!(&tokens[0], &Token { tty: TokenType::Number, lex: ".1" });
}

#[test]
fn tokenize_string() {
    let source = "\"hello world 123 - + []\"";
    let tokens = tokenize(source);
    assert_eq!(tokens.len(), 1, "number of tokens did not match, tokens = {:?}", tokens);
    assert_eq!(&tokens[0], &Token { tty: TokenType::String, lex: "\"hello world 123 - + []\"" });
}

#[test]
fn tokenize_string_escaped_quotes() {
    let source = "\"hello world \\\" 123 - + []\"";
    let tokens = tokenize(source);
    assert_eq!(tokens.len(), 1, "number of tokens did not match, tokens = {:?}", tokens);
    assert_eq!(
        &tokens[0],
        &Token { tty: TokenType::String, lex: "\"hello world \\\" 123 - + []\"" }
    );
}

#[test]
fn tokenize_invalid_char() {
    let tokens = tokenize("p");
    assert_eq!(tokens.len(), 1, "number of tokens did not match, tokens = {:?}", tokens);
    assert_eq!(&tokens[0], &Token { tty: TokenType::InvalidChar, lex: "p" });
}

#[test]
fn tokenize_empty_gives_no_tokens() {
    assert!(tokenize("").is_empty());
}

#[test]
fn tokenize_lexemes_cover_input() {
    let source = "{ \"k\": [1, -2.5, true, false, x\u{e9}], \"s\\n\": \"\u{263a}\" }\r\n";
    let tokens = tokenize(source);
    let joined: String = tokens.iter().map(|t| t.lex).collect();
    assert_eq!(joined, source);
    assert!(tokens.iter().all(|t| !t.lex.is_empty()));
}

#[test]
fn tokenize_multibyte_invalid_char_is_one_char() {
    let tokens = tokenize("\u{e9}\u{263a}");
    assert_eq!(
        tokens,
        vec![
            Token { tty: TokenType::InvalidChar, lex: "\u{e9}" },
            Token { tty: TokenType::InvalidChar, lex: "\u{263a}" },
        ]
    );
}

#[test]
fn tokenize_booleans_and_first_match() {
    let tokens = tokenize("false truex");
    assert_eq!(
        tokens,
        vec![
            Token { tty: TokenType::Boolean, lex: "false" },
            Token { tty: TokenType::Whitespace, lex: " " },
            Token { tty: TokenType::Boolean, lex: "true" },
            Token { tty: TokenType::InvalidChar, lex: "x" },
        ]
    );
}

#[test]
fn tokenize_number_rules_in_order() {
    let tokens = tokenize("-.5 1.2.3 -");
    assert_eq!(
        tokens,
        vec![
            Token { tty: TokenType::Number, lex: "-.5" },
            Token { tty: TokenType::Whitespace, lex: " " },
            Token { tty: TokenType::Number, lex: "1.2" },
            Token { tty: TokenType::Number, lex: ".3" },
            Token { tty: TokenType::Whitespace, lex: " " },
            Token { tty: TokenType::InvalidChar, lex: "-" },
        ]
    );
}

#[test]
fn tokenize_unterminated_string() {
    let tokens = tokenize("\"ab");
    assert_eq!(tokens[0], Token { tty: TokenType::InvalidChar, lex: "\"" });
    assert_eq!(tokens.len(), 3);
}

#[test]
fn whitespace_kinds() {
    assert!(TokenType::Whitespace.is_whitespace());
    assert!(TokenType::Newline.is_whitespace());
    assert!(!TokenType::Comma.is_whitespace());
}
