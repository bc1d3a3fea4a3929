use jq_edit::app::App;
use jq_edit::cli::{parse_bool, parse_bool_word};
use jq_edit::line_editor::LineEditor;
use jq_edit::scroll_text::{token_style, ScrollText, SpanStyle};
use jq_edit::tokens::{tokenize, TokenType};

fn line_texts(st: &ScrollText) -> Vec<String> {
    st.lines.iter().map(|l| l.iter().map(|s| s.text.as_str()).collect::<String>()).collect()
}

#[test]
fn highlight_groups_lines_at_newlines() {
    let source = "{\"a\": 1,\n \"b\": x}\n";
    let tokens = tokenize(source);
    let st = ScrollText::from_tokens(&tokens);
    assert_eq!(line_texts(&st), vec!["{\"a\": 1,\n".to_string(), " \"b\": x}\n".to_string()]);
    assert_eq!(st.line_offset, 0);
    let styles: Vec<SpanStyle> = st.lines[0].iter().map(|s| s.style).collect();
    assert_eq!(
        styles,
        vec![
            SpanStyle::Plain,
            SpanStyle::StringLit,
            SpanStyle::Plain,
            SpanStyle::Plain,
            SpanStyle::NumberLit,
            SpanStyle::Plain,
            SpanStyle::Plain,
        ]
    );
    assert_eq!(st.lines[1][4].style, SpanStyle::Alert);
}

#[test]
fn highlight_retokenizes_to_same_tokens() {
    let source = "[1, \"two\",\r\n  3.5]\n";
    let tokens = tokenize(source);
    let st = ScrollText::from_tokens(&tokens);
    let text: String = line_texts(&st).concat();
    assert_eq!(tokenize(&text), tokens);
}

#[test]
fn highlight_drops_unterminated_last_line() {
    let tokens = tokenize("a\nb");
    let st = ScrollText::from_tokens(&tokens);
    assert_eq!(line_texts(&st), vec!["a\n".to_string()]);
}

#[test]
fn token_styles() {
    assert_eq!(token_style(TokenType::String), SpanStyle::StringLit);
    assert_eq!(token_style(TokenType::Number), SpanStyle::NumberLit);
    assert_eq!(token_style(TokenType::InvalidChar), SpanStyle::Alert);
    assert_eq!(token_style(TokenType::Boolean), SpanStyle::Plain);
    assert_eq!(token_style(TokenType::Colon), SpanStyle::Plain);
}

#[test]
fn plain_lines_from_content() {
    let st = ScrollText::from_content("a\r\nb\n\nc\r");
    assert_eq!(line_texts(&st), vec!["a", "b", "", "c\r"]);
    assert!(st.lines.iter().all(|l| l.len() == 1 && l[0].style == SpanStyle::Plain));
    assert!(ScrollText::from_content("").lines.is_empty());
    assert_eq!(line_texts(&ScrollText::from_content("x\n")), vec!["x"]);
}

#[test]
fn scrolling_saturates_at_top() {
    let mut st = ScrollText::from_content("1\n2\n3\n");
    st.scroll_up();
    assert_eq!(st.line_offset, 0);
    st.scroll_down();
    st.scroll_down();
    assert_eq!(st.line_offset, 2);
    assert_eq!(st.visible_range(10), (2, 1));
    st.scroll_up();
    assert_eq!(st.visible_range(1), (1, 1));
    assert_eq!(st.visible_range(5), (1, 2));
    st.scroll_down();
    st.scroll_down();
    st.scroll_down();
    assert_eq!(st.visible_range(5), (4, 0));
}

#[test]
fn app_scrolls_its_view() {
    let mut app = App::init("a\nb\n");
    assert_eq!(line_texts(&app.scroll_text), vec!["a", "b"]);
    app.scroll_down();
    assert_eq!(app.scroll_text.line_offset, 1);
    app.scroll_up();
    app.scroll_up();
    assert_eq!(app.scroll_text.line_offset, 0);
}

#[test]
fn bool_flag_values() {
    assert_eq!(parse_bool("TRUE"), Ok(true));
    assert_eq!(parse_bool("Yes"), Ok(true));
    assert_eq!(parse_bool("False"), Ok(false));
    assert_eq!(parse_bool("no"), Ok(false));
    assert_eq!(parse_bool("maybe"), Err("expected `true` or `false`"));
    assert_eq!(parse_bool_word("yes"), Ok(true));
    assert_eq!(parse_bool_word("YES"), Err("expected `true` or `false`"));
}

#[test]
fn line_editor_edits_by_characters() {
    let mut ed = LineEditor::from("h\u{e9}".to_string());
    assert_eq!(ed.cursor_pos, 2);
    assert_eq!(ed.cursor_byte_index(), 3);
    ed.move_cursor_left();
    assert_eq!(ed.cursor_byte_index(), 1);
    ed.insert_char('x');
    assert_eq!(ed.content(), "hx\u{e9}");
    assert_eq!(ed.cursor_pos, 2);
    ed.delete_char();
    assert_eq!(ed.content(), "h\u{e9}");
    assert_eq!(ed.cursor_pos, 1);
    ed.move_cursor_left();
    ed.move_cursor_left();
    assert_eq!(ed.cursor_pos, 0);
    ed.delete_char();
    assert_eq!(ed.content(), "h\u{e9}");
    ed.move_cursor_right();
    ed.move_cursor_right();
    ed.move_cursor_right();
    assert_eq!(ed.cursor_pos, 2);
    ed.insert_char('!');
    assert_eq!(ed.content(), "h\u{e9}!");
    assert_eq!(ed.cursor_pos, 3);
}

#[test]
fn scroll_text_from_owned_string() {
    let st = ScrollText::from("x\ny".to_string());
    assert_eq!(line_texts(&st), vec!["x", "y"]);
    assert_eq!(st.line_offset, 0);
}
