use throw_trace::tsserver::{
    byte_offset_to_line_col, response_line, response_step, throw_query_offset, type_check_code,
    type_from_quick_info, ResponseStep,
};
use throw_trace::types::Span;

#[test]
fn test_byte_offset_to_line_col() {
    let source = "line1\nline2\nline3";
    assert_eq!(byte_offset_to_line_col(source, 0), (1, 1));
    assert_eq!(byte_offset_to_line_col(source, 4), (1, 5));
    assert_eq!(byte_offset_to_line_col(source, 6), (2, 1));
    assert_eq!(byte_offset_to_line_col(source, 8), (2, 3));
    assert_eq!(byte_offset_to_line_col(source, 12), (3, 1));
}

#[test]
fn offsets_count_utf8_bytes_and_columns_count_characters() {
    // 'é' takes two bytes: byte 3 starts the 'x' in the third column.
    let source = "\u{e9}x\ny";
    assert_eq!(byte_offset_to_line_col(source, 2), (1, 2));
    assert_eq!(byte_offset_to_line_col(source, 4), (2, 1));
    // Past the end: the position after the last character.
    assert_eq!(byte_offset_to_line_col(source, 100), (2, 2));
}

#[test]
fn query_offset_points_before_call_parenthesis() {
    let source = "  throw Errors.make(1);";
    // The statement spans bytes 2..23; the expression starts at byte 8.
    assert_eq!(throw_query_offset(source, Span { start: 2, end: 23 }), Some(2 + 6 + 11 - 1));
}

#[test]
fn query_offset_points_at_last_byte_of_identifier() {
    let source = "throw err;";
    assert_eq!(throw_query_offset(source, Span { start: 0, end: 10 }), Some(8));
}

#[test]
fn query_offset_needs_a_throw_statement_inside_the_source() {
    let source = "return err;";
    assert_eq!(throw_query_offset(source, Span { start: 0, end: 11 }), None);
    assert_eq!(throw_query_offset("throw e;", Span { start: 0, end: 50 }), None);
    assert_eq!(throw_query_offset("throw e;", Span { start: 5, end: 2 }), None);
}

#[test]
fn quick_info_type_follows_last_colon() {
    assert_eq!(type_from_quick_info("const err: ValidationError"), Some("ValidationError".to_string()));
    assert_eq!(type_from_quick_info("(method) Errors.make(): A | B "), Some("A | B".to_string()));
    assert_eq!(type_from_quick_info("no type here"), None);
}

#[test]
fn response_lines_skip_blanks_and_headers() {
    assert_eq!(response_line("Content-Length: 76"), None);
    assert_eq!(response_line("   \r"), None);
    assert_eq!(response_line("  {\"seq\":0}\r\n"), Some("{\"seq\":0}".to_string()));
}

#[test]
fn only_the_awaited_response_ends_the_wait() {
    assert_eq!(response_step("event", None, None, None, 1), ResponseStep::Skip);
    assert_eq!(response_step("response", Some(2), Some(true), None, 1), ResponseStep::Skip);
    assert_eq!(response_step("response", Some(1), Some(true), None, 1), ResponseStep::Accept);
    assert_eq!(response_step("response", Some(1), None, None, 1), ResponseStep::Accept);
    assert_eq!(response_step("response", Some(1), Some(false), None, 1), ResponseStep::Fail("Unknown error".to_string()));
    assert_eq!(
        response_step("response", Some(1), Some(false), Some("No project".to_string()), 1),
        ResponseStep::Fail("No project".to_string())
    );
}

#[test]
fn type_check_line_assigns_thrown_to_declared() {
    assert_eq!(type_check_code("BaseError", "ChildError"), "const _typeCheck: BaseError = null! as ChildError;\n");
}
