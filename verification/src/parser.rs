//! Whether a TypeScript source parses.
use crate::text::{join, join_exec, push_all_str, string_chars, string_of};
use vstd::prelude::*;

verus! {

broadcast use {vstd::string::group_string_axioms, crate::char_vec::lemma_char_vec_deep_view};

/// Why a source was not accepted.
#[derive(Debug, PartialEq, Eq)]
pub enum ParseError {
    /// The parser's error messages, separated by `; `.
    SyntaxError(String),
}

/// The messages of the errors (not warnings) that `oxc_parser` reports
/// for `source` parsed as TypeScript, in its order.
pub uninterp spec fn oxc_syntax_errors(source: Seq<char>) -> Seq<Seq<char>>;

/// `oxc_parser::Parser::parse` of `source` as TypeScript, keeping the
/// messages of the error-severity diagnostics (`Diagnostics::errors`) in
/// order; the result depends on the source alone.
#[verifier::external_body]
fn syntax_errors(source: &str) -> (r: Vec<String>)
    ensures
        r.deep_view() == oxc_syntax_errors(source@),
{
    let allocator = oxc_allocator::Allocator::default();
    let ret = oxc_parser::Parser::new(&allocator, source, oxc_span::SourceType::ts()).parse();
    ret.diagnostics.errors().map(|e| e.to_string()).collect()
}

/// `Ok` when the parser reports no error; otherwise its messages joined
/// with `; `.
pub fn parse_source(source: &str) -> (r: Result<(), ParseError>)
    ensures
        match r {
            Ok(()) => oxc_syntax_errors(source@).len() == 0,
            Err(ParseError::SyntaxError(msg)) => oxc_syntax_errors(source@).len() > 0 && msg@ == join(
                oxc_syntax_errors(source@),
                "; "@,
            ),
        },
{
    let errors = syntax_errors(source);
    if errors.len() == 0 {
        return Ok(());
    }
    let mut parts: Vec<Vec<char>> = Vec::new();
    let mut i: usize = 0;
    while i < errors.len()
        invariant
            i <= errors.len(),
            parts.deep_view() == errors.deep_view().take(i as int),
        decreases errors.len() - i,
    {
        let p = string_chars(&errors[i]);
        let ghost before = parts.deep_view();
        parts.push(p);
        assert(parts.deep_view() =~= before.push(p@));
        assert(errors.deep_view().take(i + 1) =~= errors.deep_view().take(i as int).push(errors[i as int]@));
        i += 1;
    }
    assert(errors.deep_view().take(errors.len() as int) =~= errors.deep_view());
    let mut sep: Vec<char> = Vec::new();
    push_all_str(&mut sep, "; ");
    let msg = join_exec(&parts, &sep);
    Err(ParseError::SyntaxError(string_of(&msg)))
}

} // verus!
