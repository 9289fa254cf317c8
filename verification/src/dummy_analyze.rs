//! A placeholder analyzer kept for wiring a front end before the real one is
//! plugged in: it accepts exactly one fixed line and answers with fixed,
//! role-annotated values.
use vstd::prelude::*;
use crate::token::Token;

verus! {

/// A successful stub analysis: identifiers and constants, each paired with
/// a role annotation.
pub struct Success {
    pub identifiers: Vec<(String, String)>,
    pub constants: Vec<(i32, String)>,
}

/// The errors the stub analyzer can name.
#[derive(Debug)]
pub enum ParserError {
    UnexpectedToken(Token, usize),
    ExpectedToken(String, usize),
    SemanticError(String, usize),
}

/// Accepts exactly the line `Rust1488`, answering with one fixed identifier
/// and one fixed constant; any other line is a semantic error at offset 1488.
pub fn dummy_analyze(input: &str) -> (r: Result<Success, ParserError>)
    ensures
        input@ == "Rust1488"@ ==> (r matches Ok(s) && s.identifiers@.len() == 1
            && s.identifiers@[0].0@ == "foo"@ && s.identifiers@[0].1@ == "bar"@
            && s.constants@.len() == 1 && s.constants@[0].0 == 228 && s.constants@[0].1@
            == "baz"@),
        input@ != "Rust1488"@ ==> (r matches Err(e) && (e matches ParserError::SemanticError(m, p)
            && m@ == "Rust1488 expected"@ && p == 1488)),
{
    let given = String::from_str(input);
    let wanted = String::from_str("Rust1488");
    if given.eq(&wanted) {
        let mut identifiers: Vec<(String, String)> = Vec::new();
        identifiers.push((String::from_str("foo"), String::from_str("bar")));
        let mut constants: Vec<(i32, String)> = Vec::new();
        constants.push((228, String::from_str("baz")));
        Ok(Success { identifiers, constants })
    } else {
        Err(ParserError::SemanticError(String::from_str("Rust1488 expected"), 1488))
    }
}

} // verus!
