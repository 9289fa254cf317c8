use assign_analyzer::analyze_line;

fn expect_ok(input: &str) -> (String, String) {
    match analyze_line(input) {
        Ok((Some(ids), Some(consts))) => (ids, consts),
        Ok(_) => panic!("analysis of {:?} returned empty reports", input),
        Err(e) => panic!("analysis of {:?} failed:\n{}", input, e),
    }
}

fn expect_err(input: &str) -> String {
    match analyze_line(input) {
        Err(e) => e,
        Ok(_) => panic!("analysis of {:?} unexpectedly succeeded", input),
    }
}

fn cursor_text(input: &str, col: usize, msg: &str) -> String {
    let mut s = String::new();
    s.push_str(input);
    s.push('\n');
    for _ in 0..col {
        s.push(' ');
    }
    s.push('^');
    s.push('\n');
    s.push_str(msg);
    s
}

#[test]
fn full_statement_with_indexed_target() {
    let (ids, consts) = expect_ok("ABC[1,I,LF,25] := ABC1 + 135 - LF * DKL1 / ZP + KP;");
    assert_eq!(
        ids,
        "ABC - array\nI - index\nLF - index\nABC1 - expression\nLF - expression\n\
         DKL1 - expression\nZP - expression\nKP - expression\n"
    );
    assert_eq!(consts, "1 - index\n25 - index\n135 - expression\n");
}

#[test]
fn bare_identifier_assignment() {
    let (ids, consts) = expect_ok("X := Y;");
    assert_eq!(ids, "X - expression\nY - expression\n");
    assert_eq!(consts, "");
}

#[test]
fn array_on_right_hand_side_is_semantic_error() {
    let e = expect_err("ABC[1] := ABC + 1;");
    assert_eq!(
        e,
        cursor_text(
            "ABC[1] := ABC + 1;",
            10,
            "semantic error: array cannot appear on the right-hand side"
        )
    );
}

#[test]
fn identifier_longer_than_eight_characters() {
    let e = expect_err("TOOLONGNAME := 1;");
    assert_eq!(
        e,
        cursor_text("TOOLONGNAME := 1;", 0, "semantic error: identifier too long")
    );
}

#[test]
fn eight_character_identifier_is_accepted() {
    let (ids, _) = expect_ok("ABCDEFGH := 1;");
    assert_eq!(ids, "ABCDEFGH - expression\n");
}

#[test]
fn constant_above_range() {
    let e = expect_err("X := 99999;");
    assert_eq!(
        e,
        cursor_text("X := 99999;", 5, "semantic error: constant out of range [1..32767]: 99999")
    );
}

#[test]
fn constant_zero_is_below_range() {
    let e = expect_err("X := 0;");
    assert_eq!(
        e,
        cursor_text("X := 0;", 5, "semantic error: constant out of range [1..32767]: 0")
    );
}

#[test]
fn largest_constant_is_accepted() {
    let (_, consts) = expect_ok("X := 32767;");
    assert_eq!(consts, "32767 - expression\n");
}

#[test]
fn smallest_constant_above_range() {
    let e = expect_err("X := 32768;");
    assert_eq!(
        e,
        cursor_text("X := 32768;", 5, "semantic error: constant out of range [1..32767]: 32768")
    );
}

#[test]
fn plain_equals_instead_of_assign() {
    let e = expect_err("X = 1;");
    assert_eq!(e, cursor_text("X = 1;", 2, "syntax error: expected ':='"));
}

#[test]
fn digit_run_too_large_to_parse() {
    let e = expect_err("X := 99999999999;");
    assert_eq!(
        e,
        cursor_text("X := 99999999999;", 5, "lexical error: cannot parse number: 99999999999")
    );
}

#[test]
fn invalid_character() {
    let e = expect_err("X := $;");
    assert_eq!(e, cursor_text("X := $;", 5, "syntax error: invalid character: '$'"));
}

#[test]
fn colon_without_equals() {
    let e = expect_err("X : Y;");
    assert_eq!(e, cursor_text("X : Y;", 2, "syntax error: expected '=' after ':'"));
}

#[test]
fn identifier_starting_with_digit() {
    let e = expect_err("X := 12X;");
    assert_eq!(
        e,
        cursor_text("X := 12X;", 5, "syntax error: identifier cannot start with a digit")
    );
}

#[test]
fn trailing_content_after_terminator() {
    let e = expect_err("X := Y; Z");
    assert_eq!(e, cursor_text("X := Y; Z", 8, "syntax error: trailing content after ';'"));
}

#[test]
fn missing_terminator_at_end_of_input() {
    let e = expect_err("X := Y");
    assert_eq!(
        e,
        cursor_text("X := Y", 5, "syntax error: expected ';' but reached end of input")
    );
}

#[test]
fn missing_right_hand_side() {
    let e = expect_err("X :=");
    assert_eq!(
        e,
        cursor_text(
            "X :=",
            2,
            "syntax error: expected an identifier or constant in the right-hand side"
        )
    );
}

#[test]
fn empty_input() {
    let e = expect_err("");
    assert_eq!(e, cursor_text("", 0, "syntax error: expected an identifier"));
}

#[test]
fn missing_closing_bracket() {
    let e = expect_err("A[1 := 2;");
    assert_eq!(e, cursor_text("A[1 := 2;", 4, "syntax error: expected ']'"));
}

#[test]
fn empty_index_list() {
    let e = expect_err("A[] := 1;");
    assert_eq!(
        e,
        cursor_text("A[] := 1;", 2, "syntax error: expected an identifier or constant in the index")
    );
}

#[test]
fn whitespace_is_insignificant() {
    let (ids, consts) = expect_ok("  X:=Y ;  ");
    assert_eq!(ids, "X - expression\nY - expression\n");
    assert_eq!(consts, "");
}

#[test]
fn identifiers_fold_to_upper_case() {
    let (ids, _) = expect_ok("abc[i] := kp;");
    assert_eq!(ids, "ABC - array\nI - index\nKP - expression\n");
}

#[test]
fn case_variants_collapse_to_one_identifier() {
    let (ids, _) = expect_ok("x := X + x;");
    assert_eq!(ids, "X - expression\n");
}

#[test]
fn case_variants_of_input_agree() {
    let lower = analyze_line("abc[1,i] := lf + 25;");
    let upper = analyze_line("ABC[1,I] := LF + 25;");
    assert_eq!(lower, upper);
}

#[test]
fn self_assignment_check_is_case_insensitive() {
    let e = expect_err("abc[1] := ABC;");
    assert_eq!(
        e,
        cursor_text("abc[1] := ABC;", 10, "semantic error: array cannot appear on the right-hand side")
    );
}

#[test]
fn analysis_is_idempotent() {
    let first = analyze_line("ABC[1,I] := LF + 25;");
    let second = analyze_line("ABC[1,I] := LF + 25;");
    assert_eq!(first, second);
    let first_err = analyze_line("X := 99999;");
    let second_err = analyze_line("X := 99999;");
    assert_eq!(first_err, second_err);
}

#[test]
fn duplicate_roles_collapse_but_positions_do_not() {
    let (ids, consts) = expect_ok("A[LF,LF,7,7] := LF + 7;");
    assert_eq!(ids, "A - array\nLF - index\nLF - expression\n");
    assert_eq!(consts, "7 - index\n7 - expression\n");
}

#[test]
fn all_binary_operators_are_accepted() {
    let (ids, _) = expect_ok("X := A + B - C * D / E > F < G = H # I;");
    assert!(ids.contains("X - expression\n"));
    assert!(ids.contains("I - expression\n"));
}

#[test]
fn caret_is_clamped_to_line_length() {
    let out = assign_analyzer::analyzer::format_error_with_cursor("ab", 10, "late");
    assert_eq!(out, "ab\n  ^\nlate");
}

#[test]
fn array_name_may_appear_as_its_own_index() {
    let (ids, consts) = expect_ok("A[A] := 1;");
    assert_eq!(ids, "A - array\nA - index\n");
    assert_eq!(consts, "1 - expression\n");
}

#[test]
fn leading_zeros_are_read_as_their_value() {
    let (_, consts) = expect_ok("X := 007;");
    assert_eq!(consts, "7 - expression\n");
}

#[test]
fn zero_with_leading_zeros_is_still_below_range() {
    let e = expect_err("X := 00;");
    assert_eq!(
        e,
        cursor_text("X := 00;", 5, "semantic error: constant out of range [1..32767]: 0")
    );
}

#[test]
fn operator_in_place_of_terminator_is_rejected() {
    let e = expect_err("X := Y +");
    assert_eq!(
        e,
        cursor_text(
            "X := Y +",
            7,
            "syntax error: expected an identifier or constant in the right-hand side"
        )
    );
}
