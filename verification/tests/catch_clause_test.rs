use throw_trace::catch_clause::{
    extract_instanceof_types, statement_exit, CatchStatement, Exit, IfTest, SwitchClause,
};

fn instanceof(left: &str, right: &str) -> IfTest {
    IfTest::Instanceof(Some(left.to_string()), Some(right.to_string()))
}

fn block(ss: Vec<CatchStatement>) -> Box<CatchStatement> {
    Box::new(CatchStatement::Block(ss))
}

fn rethrow(p: &str) -> CatchStatement {
    CatchStatement::Throw(Some(p.to_string()))
}

fn names(v: &[&str]) -> Vec<String> {
    v.iter().map(|s| s.to_string()).collect()
}

#[test]
fn returning_instanceof_branch_is_caught() {
    // if (e instanceof SomeError) { return null; } throw e;
    let body = vec![
        CatchStatement::If(instanceof("e", "SomeError"), block(vec![CatchStatement::Return]), None),
        rethrow("e"),
    ];
    assert_eq!(extract_instanceof_types(&body, Some("e")), names(&["SomeError"]));
}

#[test]
fn else_if_chain_counts_each_leaving_branch() {
    let chain = CatchStatement::If(
        instanceof("e", "ErrorA"),
        block(vec![CatchStatement::Return]),
        Some(Box::new(CatchStatement::If(instanceof("e", "ErrorB"), block(vec![CatchStatement::Return]), None))),
    );
    assert_eq!(extract_instanceof_types(&vec![chain, rethrow("e")], Some("e")), names(&["ErrorA", "ErrorB"]));
}

#[test]
fn non_leaving_else_if_branch_is_not_caught() {
    let chain = CatchStatement::If(
        instanceof("e", "ErrorA"),
        block(vec![CatchStatement::Return]),
        Some(Box::new(CatchStatement::If(instanceof("e", "ErrorB"), block(vec![CatchStatement::Other]), None))),
    );
    assert_eq!(extract_instanceof_types(&vec![chain], Some("e")), names(&["ErrorA"]));
}

#[test]
fn chain_behind_an_unrelated_test_is_not_caught() {
    let chain = CatchStatement::If(
        IfTest::Other,
        block(vec![CatchStatement::Other]),
        Some(Box::new(CatchStatement::If(instanceof("e", "ErrorB"), block(vec![CatchStatement::Return]), None))),
    );
    assert!(extract_instanceof_types(&vec![chain], Some("e")).is_empty());
}

#[test]
fn partial_termination_is_not_caught() {
    // if (e instanceof SomeError) { if (cond) return; }
    let inner = CatchStatement::If(IfTest::Other, Box::new(CatchStatement::Return), None);
    let body = vec![CatchStatement::If(instanceof("e", "SomeError"), block(vec![inner]), None)];
    assert!(extract_instanceof_types(&body, Some("e")).is_empty());
}

#[test]
fn rethrow_after_if_else_that_both_return_is_unreachable() {
    let both = CatchStatement::If(IfTest::Other, Box::new(CatchStatement::Return), Some(Box::new(CatchStatement::Return)));
    let body = vec![CatchStatement::If(instanceof("e", "SomeError"), block(vec![both, rethrow("e")]), None)];
    assert_eq!(extract_instanceof_types(&body, Some("e")), names(&["SomeError"]));
}

#[test]
fn conditional_rethrow_before_return_is_not_caught() {
    let cond = CatchStatement::If(IfTest::Other, Box::new(rethrow("e")), None);
    let body = vec![CatchStatement::If(instanceof("e", "SomeError"), block(vec![cond, CatchStatement::Return]), None)];
    assert!(extract_instanceof_types(&body, Some("e")).is_empty());
}

#[test]
fn rethrowing_branch_and_unrelated_variable_are_not_caught() {
    let body = vec![CatchStatement::If(instanceof("e", "SomeError"), block(vec![rethrow("e")]), None)];
    assert!(extract_instanceof_types(&body, Some("e")).is_empty());
    let other = vec![CatchStatement::If(instanceof("otherVar", "NetworkError"), block(vec![CatchStatement::Return]), None)];
    assert!(extract_instanceof_types(&other, Some("e")).is_empty());
}

#[test]
fn switch_must_leave_in_every_clause_and_have_a_default() {
    let clause = |is_default: bool, s: CatchStatement| SwitchClause { is_default, body: vec![s] };
    let exhaustive = CatchStatement::Switch(vec![
        clause(false, CatchStatement::Return),
        clause(false, CatchStatement::Throw(None)),
        clause(true, CatchStatement::Return),
    ]);
    let body = vec![CatchStatement::If(instanceof("e", "SomeError"), block(vec![exhaustive]), None)];
    assert_eq!(extract_instanceof_types(&body, Some("e")), names(&["SomeError"]));

    let no_default = CatchStatement::Switch(vec![clause(false, CatchStatement::Return)]);
    assert_eq!(statement_exit(&no_default, "e"), Exit::Falls);
    let rethrowing = CatchStatement::Switch(vec![clause(false, CatchStatement::Return), clause(true, rethrow("e"))]);
    assert_eq!(statement_exit(&rethrowing, "e"), Exit::Rethrows);
}

#[test]
fn paramless_catch_and_throw_new_cases() {
    let body = vec![CatchStatement::If(instanceof("globalErr", "NetworkError"), block(vec![CatchStatement::Return]), None)];
    assert!(extract_instanceof_types(&body, None).is_empty());
    // throw new WrappedError(e) replaces the error.
    let wrapped = vec![CatchStatement::If(instanceof("e", "SomeError"), block(vec![CatchStatement::Throw(None)]), None)];
    assert_eq!(extract_instanceof_types(&wrapped, Some("e")), names(&["SomeError"]));
    assert_eq!(statement_exit(&CatchStatement::Throw(Some("x".into())), "e"), Exit::Leaves);
}
