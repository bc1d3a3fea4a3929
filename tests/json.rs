use jq_edit::json::{loads, JsonData, JsonDataInner, JsonDataType, JsonKey, ParseError, ParsingContext};
use jq_edit::tokens::{Token, TokenType};

fn leaf_str(lex: &str) -> JsonData<'_> {
    JsonData(JsonDataInner { ty: JsonDataType::Str { lex } })
}

#[test]
fn test_peek() {
    let source = "blah";
    let tokens = vec![
        Token { tty: TokenType::Number, lex: "34" },
        Token { tty: TokenType::String, lex: "\"hello\"" },
    ];
    let ctx = ParsingContext::from(source, tokens);
    assert_eq!(ctx.peek(), Token { tty: TokenType::Number, lex: "34" });
}

#[test]
fn test_peek_empty() {
    let source = "blah";
    let tokens = vec![];
    let ctx = ParsingContext::from(source, tokens);
    assert_eq!(ctx.peek(), Token { tty: TokenType::Eof, lex: "" });
}

#[test]
fn test_eat_whitespace() {
    let source = "blah";
    let tokens = vec![
        Token { tty: TokenType::Whitespace, lex: " \t" },
        Token { tty: TokenType::Newline, lex: "\n" },
        Token { tty: TokenType::Whitespace, lex: " " },
        Token { tty: TokenType::Number, lex: "34" },
    ];
    let mut ctx = ParsingContext::from(source, tokens);
    assert_eq!(ctx.peek(), Token { tty: TokenType::Whitespace, lex: " \t" });
    ctx.eat_whitespace();
    assert_eq!(ctx.peek(), Token { tty: TokenType::Number, lex: "34" });
}

#[test]
fn test_consume_when_matches() {
    let source = "blah";
    let tokens = vec![Token { tty: TokenType::Number, lex: "34" }];
    let mut ctx = ParsingContext::from(source, tokens);
    assert_eq!(ctx.peek(), Token { tty: TokenType::Number, lex: "34" });
    let tok = ctx.consume(TokenType::Number).expect("should find Number token");
    assert_eq!(tok, Token { tty: TokenType::Number, lex: "34" });
    assert_eq!(ctx.peek(), Token { tty: TokenType::Eof, lex: "" });
}

#[test]
fn test_consume_when_does_not_match() {
    let source = "blah";
    let tokens = vec![Token { tty: TokenType::Number, lex: "34" }];
    let mut ctx = ParsingContext::from(source, tokens);
    assert_eq!(ctx.peek(), Token { tty: TokenType::Number, lex: "34" });
    let result = ctx.consume(TokenType::String);
    assert!(result.is_err());
    assert_eq!(ctx.peek(), Token { tty: TokenType::Number, lex: "34" });
}

#[test]
fn parse_int() {
    let source = "  \t\n 34";
    let expected = JsonData(JsonDataInner { ty: JsonDataType::Number { lex: "34" } });
    let actual = loads(source).expect("this should parse");
    assert_eq!(actual, expected);
}

#[test]
fn parse_boolean() {
    let source = "true";
    let expected = JsonData(JsonDataInner { ty: JsonDataType::Boolean { lex: "true" } });
    let actual = loads(source).expect("this should parse");
    assert_eq!(actual, expected);
}

#[test]
fn parse_string() {
    let source = " \"hello world\" ";
    let expected = leaf_str("\"hello world\"");
    let actual = loads(source).expect("this should parse");
    assert_eq!(actual, expected);
}

#[test]
fn parse_array() {
    let source = "[34, true, \"hello world\"]";
    let expected = JsonData(JsonDataInner {
        ty: JsonDataType::Array {
            elems: vec![
                JsonData(JsonDataInner { ty: JsonDataType::Number { lex: "34" } }),
                JsonData(JsonDataInner { ty: JsonDataType::Boolean { lex: "true" } }),
                leaf_str("\"hello world\""),
            ],
        },
    });
    let actual = loads(source).expect("this should parse");
    assert_eq!(actual, expected);
}

#[test]
fn parse_object_simple() {
    let source = "{ \"foo\": \"bar\" }";
    let expected = JsonData(JsonDataInner {
        ty: JsonDataType::Object {
            entries: vec![(JsonKey { lex: "\"foo\"" }, leaf_str("\"bar\""))],
        },
    });
    let actual = loads(source).expect("this should parse");
    assert_eq!(actual, expected);
}

#[test]
fn parse_object_nested() {
    let source = "{ \"foo\": [34, true, \"hello world\", { \"a\" : \"b\", \"c\": \"d\" } ] }";
    let expected = JsonData(JsonDataInner {
        ty: JsonDataType::Object {
            entries: vec![(
                JsonKey { lex: "\"foo\"" },
                JsonData(JsonDataInner {
                    ty: JsonDataType::Array {
                        elems: vec![
                            JsonData(JsonDataInner { ty: JsonDataType::Number { lex: "34" } }),
                            JsonData(JsonDataInner { ty: JsonDataType::Boolean { lex: "true" } }),
                            leaf_str("\"hello world\""),
                            JsonData(JsonDataInner {
                                ty: JsonDataType::Object {
                                    entries: vec![
                                        (JsonKey { lex: "\"a\"" }, leaf_str("\"b\"")),
                                        (JsonKey { lex: "\"c\"" }, leaf_str("\"d\"")),
                                    ],
                                },
                            }),
                        ],
                    },
                }),
            )],
        },
    });
    let actual = loads(source).expect("this should parse");
    assert_eq!(actual, expected);
}

#[test]
fn parse_empty_fails_at_end_of_input() {
    assert_eq!(loads(""), Err(ParseError::UnexpectedToken { found: TokenType::Eof }));
    assert_eq!(loads(" \n "), Err(ParseError::UnexpectedToken { found: TokenType::Eof }));
}

#[test]
fn parse_trailing_content_fails() {
    assert_eq!(
        loads("1 2"),
        Err(ParseError::Expected { expected: TokenType::Eof, found: TokenType::Number })
    );
}

#[test]
fn parse_object_errors_are_hard() {
    assert_eq!(
        loads("{}"),
        Err(ParseError::Expected { expected: TokenType::String, found: TokenType::CloseBrace })
    );
    assert_eq!(
        loads("{\"a\" 1}"),
        Err(ParseError::Expected { expected: TokenType::Colon, found: TokenType::Number })
    );
    assert_eq!(
        loads("{\"a\": 1,}"),
        Err(ParseError::Expected { expected: TokenType::String, found: TokenType::CloseBrace })
    );
    assert_eq!(
        loads("{\"a\": 1 \"b\"}"),
        Err(ParseError::UnexpectedInObject { found: TokenType::String })
    );
    assert_eq!(loads("{\"a\": :}"), Err(ParseError::UnexpectedToken { found: TokenType::Colon }));
}

#[test]
fn parse_array_recovers_from_bad_elements() {
    let expected = JsonData(JsonDataInner {
        ty: JsonDataType::Array {
            elems: vec![JsonData(JsonDataInner { ty: JsonDataType::Number { lex: "1" } })],
        },
    });
    assert_eq!(loads("[,1]"), Ok(expected));
    let empty = JsonData(JsonDataInner { ty: JsonDataType::Array { elems: vec![] } });
    assert_eq!(loads("[]"), Ok(empty));
    assert_eq!(loads("[1 2]"), Err(ParseError::UnexpectedInArray { found: TokenType::Number }));
}

#[test]
fn parse_array_records_soft_errors() {
    let source = "[,1]";
    let tokens = jq_edit::tokens::tokenize(source);
    let mut ctx = ParsingContext::from(source, tokens);
    assert!(ctx.parse_json().is_ok());
    assert_eq!(ctx.errs, vec![ParseError::UnexpectedToken { found: TokenType::Comma }]);
}

#[test]
fn parse_duplicate_keys_are_kept() {
    let parsed = loads("{\"a\":1,\"a\":2}").expect("this should parse");
    let JsonDataType::Object { entries } = parsed.0.ty else { panic!("not an object") };
    assert_eq!(entries.len(), 2);
    assert_eq!(entries[0].0, JsonKey { lex: "\"a\"" });
    assert_eq!(entries[1].0, JsonKey { lex: "\"a\"" });
}

#[test]
fn parse_leaf_helpers() {
    let source = " 7";
    let tokens = jq_edit::tokens::tokenize(source);
    let mut ctx = ParsingContext::from(source, tokens);
    assert_eq!(
        ctx.parse_string(),
        Err(ParseError::Expected { expected: TokenType::String, found: TokenType::Number })
    );
    assert_eq!(
        ctx.parse_boolean(),
        Err(ParseError::Expected { expected: TokenType::Boolean, found: TokenType::Number })
    );
    assert_eq!(
        ctx.parse_number(),
        Ok(JsonData(JsonDataInner { ty: JsonDataType::Number { lex: "7" } }))
    );
    assert_eq!(
        ctx.parse_object(),
        Err(ParseError::Expected { expected: TokenType::OpenBrace, found: TokenType::Eof })
    );
    assert_eq!(
        ctx.parse_array(),
        Err(ParseError::Expected { expected: TokenType::OpenBracket, found: TokenType::Eof })
    );
}

fn render(d: &JsonData) -> String {
    match &d.0.ty {
        JsonDataType::Object { entries } => {
            let parts: Vec<String> =
                entries.iter().map(|(k, v)| format!("{}:{}", k.lex, render(v))).collect();
            format!("{{{}}}", parts.join(","))
        }
        JsonDataType::Array { elems } => {
            let parts: Vec<String> = elems.iter().map(render).collect();
            format!("[{}]", parts.join(","))
        }
        JsonDataType::Str { lex } | JsonDataType::Boolean { lex } | JsonDataType::Number { lex } => {
            lex.to_string()
        }
    }
}

#[test]
fn parse_round_trip_without_whitespace() {
    let source = "{ \"foo\": [34, true, \"hello world\", { \"a\" : \"b\",\n \"c\": -1.5 } ] }\n";
    let parsed = loads(source).expect("this should parse");
    let visible: String = jq_edit::tokens::tokenize(source)
        .iter()
        .filter(|t| !t.tty.is_whitespace())
        .map(|t| t.lex)
        .collect();
    assert_eq!(render(&parsed), visible);
    assert_eq!(visible, "{\"foo\":[34,true,\"hello world\",{\"a\":\"b\",\"c\":-1.5}]}");
}

#[test]
fn consume_end_of_input_moves_past_the_end() {
    let mut ctx = ParsingContext::from("", vec![]);
    let tok = ctx.consume(TokenType::Eof).expect("end of input");
    assert_eq!(tok, Token { tty: TokenType::Eof, lex: "" });
    assert_eq!(ctx.idx, 1);
    assert_eq!(ctx.peek(), Token { tty: TokenType::Eof, lex: "" });
}
