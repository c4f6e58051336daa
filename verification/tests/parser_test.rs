use throw_trace::parser::{parse_source, ParseError};

#[test]
fn parse_source_returns_program() {
    let source = "function foo() { return 1; }";
    let result = parse_source(source);
    assert!(result.is_ok());
}

#[test]
fn parse_source_handles_typescript() {
    let source = "function foo(x: number): string { return x.toString(); }";
    let result = parse_source(source);
    assert!(result.is_ok());
}

#[test]
fn parse_source_reports_syntax_error() {
    let source = "function foo( { }";
    let result = parse_source(source);
    assert!(result.is_err());
}

#[test]
fn syntax_error_message_is_not_empty() {
    match parse_source("let = ;") {
        Err(ParseError::SyntaxError(msg)) => assert!(!msg.is_empty()),
        Ok(()) => panic!("expected a syntax error"),
    }
}
