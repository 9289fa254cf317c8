//! Analyzer for the assignment-statement fragment of a Modula-2-like
//! language: `<target> := <expression>;`. The lexer turns one line of text
//! into positioned tokens, the recursive-descent parser checks the grammar
//! while classifying every identifier and constant by its syntactic role, and
//! the result is rendered either as two role reports or as an error message
//! with a caret marking the failing column.
pub mod analyzer;
pub mod chars;
pub mod dummy_analyze;
pub mod laws;
pub mod lexer;
pub mod parser;
pub mod token;

pub use analyzer::analyze_line;
pub use dummy_analyze::dummy_analyze;
pub use dummy_analyze::ParserError;
pub use dummy_analyze::Success;
pub use token::Token;
