use assign_analyzer::dummy_analyze;
use assign_analyzer::ParserError;

#[test]
fn dummy_accepts_its_fixed_line() {
    match dummy_analyze("Rust1488") {
        Ok(s) => {
            assert_eq!(s.identifiers.len(), 1);
            assert_eq!(s.identifiers[0].0, "foo");
            assert_eq!(s.identifiers[0].1, "bar");
            assert_eq!(s.constants.len(), 1);
            assert_eq!(s.constants[0].0, 228);
            assert_eq!(s.constants[0].1, "baz");
        },
        Err(_) => panic!("the fixed line must be accepted"),
    }
}

#[test]
fn dummy_rejects_everything_else() {
    match dummy_analyze("anything else") {
        Ok(_) => panic!("only the fixed line is accepted"),
        Err(ParserError::SemanticError(m, p)) => {
            assert_eq!(m, "Rust1488 expected");
            assert_eq!(p, 1488);
        },
        Err(_) => panic!("the error must be the semantic variant"),
    }
}
