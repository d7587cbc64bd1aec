use loxyde::error_reporting::{format_err_message, tok_error_message};
use loxyde::token::{SourceLocation, TokError};

#[test]
fn caret_lands_under_the_flagged_character() {
    let source = "let x = 1;\nbad ^here";
    let offset = source.find('^').unwrap();
    let msg = format_err_message(
        source,
        SourceLocation { offset, len: 1 },
        None,
        "flagged",
        "look",
    );
    assert_eq!(
        msg,
        "flagged\n --> <source>:2:5 \n  |\n2 | bad ^here\n  |     ^ look"
    );
    // The underline row carries exactly as many leading spaces as there
    // are characters before `^` on its line.
    let underline = msg.lines().last().unwrap();
    let after_gutter = &underline[4..];
    let leading = after_gutter.chars().take_while(|c| *c == ' ').count();
    assert_eq!(leading, 4);
    assert_eq!(after_gutter.chars().filter(|c| *c == '^').count(), 1);
}

#[test]
fn lines_split_on_newline_not_carriage_return() {
    let source = "a\rb\nc";
    let msg = format_err_message(source, SourceLocation { offset: 4, len: 1 }, None, "d", "h");
    assert_eq!(msg, "d\n --> <source>:2:1 \n  |\n2 | c\n  | ^ h");
}

#[test]
fn columns_count_characters_not_bytes() {
    let source = "héllo\nwörld";
    // Flag the `r`: it is the third character of line 2, at byte 10.
    let msg = format_err_message(source, SourceLocation { offset: 10, len: 1 }, None, "m", "h");
    assert_eq!(msg, "m\n --> <source>:2:3 \n  |\n2 | wörld\n  |   ^ h");
}

#[test]
fn file_label_replaces_placeholder() {
    let source = "x";
    let msg = format_err_message(
        source,
        SourceLocation { offset: 0, len: 1 },
        Some("a.lox"),
        "d",
        "h",
    );
    assert_eq!(msg, "d\n --> a.lox:1:1 \n  |\n1 | x\n  | ^ h");
}

#[test]
fn multi_digit_line_numbers_render_in_decimal() {
    let source = "\n\n\n\n\n\n\n\n\nxyz";
    let msg = format_err_message(source, SourceLocation { offset: 9, len: 3 }, None, "d", "h");
    assert_eq!(msg, "d\n --> <source>:10:1 \n  |\n10 | xyz\n  | ^^^ h");
}

#[test]
fn span_wider_than_one_character_gets_one_caret_each() {
    let source = "ab cde f";
    let msg = format_err_message(source, SourceLocation { offset: 3, len: 3 }, None, "d", "h");
    assert_eq!(msg, "d\n --> <source>:1:4 \n  |\n1 | ab cde f\n  |    ^^^ h");
}

#[test]
fn unexpected_character_diagnostic() {
    let source = "let @";
    let msg = tok_error_message(
        source,
        &TokError::UnexpectedCharacter('@'),
        SourceLocation { offset: 4, len: 1 },
        None,
    );
    assert_eq!(
        msg,
        "error: unexpected character: `@`\n --> <source>:1:5 \n  |\n1 | let @\n  |     ^ help: remove this character"
    );
}

#[test]
fn unterminated_string_diagnostic_marks_only_the_opening_quote() {
    let source = "var \"oops";
    let msg = tok_error_message(
        source,
        &TokError::UnterminatedString,
        SourceLocation { offset: 4, len: 5 },
        None,
    );
    assert_eq!(
        msg,
        "error: unterminated string\n --> <source>:1:5 \n  |\n1 | var \"oops\n  |     ^ starting here but never closed"
    );
}

#[test]
fn number_parse_diagnostic_quotes_the_text() {
    let source = "12..3";
    let msg = tok_error_message(
        source,
        &TokError::NumberParse("12..3".to_string()),
        SourceLocation { offset: 0, len: 5 },
        None,
    );
    assert_eq!(
        msg,
        "error: couldn't parse string as number: `12..3`\n --> <source>:1:1 \n  |\n1 | 12..3\n  | ^^^^^ help: supported format is [0-9]*(.[0-9]*)?"
    );
}
