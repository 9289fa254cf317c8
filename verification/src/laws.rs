//! The general laws of the analyzer, each proved from what the other
//! modules state: determinism, the shape and completeness of a successful
//! report, when the lexer must reject, the self-assignment rule, and
//! case-insensitivity.
use vstd::prelude::*;
use crate::analyzer::{fmt_error, spec_analyze};
use crate::lexer::{
    digits_val, lex_step, max_parse_val, msg_const_range, msg_ident_too_long, scan_alnum,
    scan_digits, skip_ws_idx, spec_tokens, lemma_skip_ws_idx, lemma_scan_alnum, lemma_scan_digits,
};
use crate::chars::{is_alnum, is_alpha, is_digit, is_ws, to_upper, upcase_seq};
use crate::parser::{
    const_line, const_lines, consts_report, id_line, id_lines, ids_report,
    lemma_sp_parse_consts_iff, msg_array_rhs, roles_all_empty, sp_parse, sp_right, sp_term,
    spec_finish, lemma_sp_parse_complete, lemma_sp_parse_left_array_not_expr,
    lemma_sp_parse_nonempty, lemma_sp_parse_sound, roles_contain_tok, roles_from_toks,
    target_array, SpecSt,
};
use crate::token::{SpecErr, SpecTok};

verus! {

pub open spec fn opt_report_alike(o1: Option<String>, o2: Option<String>) -> bool {
    match (o1, o2) {
        (Some(a), Some(b)) => a@ == b@,
        (None, None) => true,
        _ => false,
    }
}

/// Two analysis results that carry the same text.
pub open spec fn analyze_results_alike(
    r1: Result<(Option<String>, Option<String>), String>,
    r2: Result<(Option<String>, Option<String>), String>,
) -> bool {
    match (r1, r2) {
        (Ok(p1), Ok(p2)) => opt_report_alike(p1.0, p2.0) && opt_report_alike(p1.1, p2.1),
        (Err(m1), Err(m2)) => m1@ == m2@,
        _ => false,
    }
}

/// Law: the analysis is a pure function of the line. Any two results that
/// `analyze_line` may return for the same input carry the same text, so
/// calling it twice yields identical output; there is no hidden state.
pub proof fn lemma_analyze_deterministic(
    s: Seq<char>,
    r1: Result<(Option<String>, Option<String>), String>,
    r2: Result<(Option<String>, Option<String>), String>,
)
    requires
        crate::analyzer::analyze_matches(r1, spec_analyze(s)),
        crate::analyzer::analyze_matches(r2, spec_analyze(s)),
    ensures
        analyze_results_alike(r1, r2),
{
}

proof fn lemma_id_lines_nonempty(names: Seq<Seq<char>>, tag: Seq<char>)
    ensures
        names.len() > 0 ==> id_lines(names, tag).len() > 0,
{
    if names.len() > 0 {
        reveal_strlit("\n");
        assert(id_line(names.last(), tag).len() > 0);
    }
}

/// Law: every accepted line yields both reports, and the identifiers report
/// is non-empty — the grammar guarantees that the assignment target is
/// classified as an array name or an expression operand.
pub proof fn lemma_analyze_ok_reports(s: Seq<char>)
    requires
        spec_analyze(s) is Ok,
    ensures
        spec_analyze(s)->Ok_0.0 is Some,
        spec_analyze(s)->Ok_0.1 is Some,
        spec_analyze(s)->Ok_0.0.unwrap().len() > 0,
{
    let toks = spec_tokens(s, 0)->Ok_0;
    lemma_sp_parse_nonempty(toks);
    let roles = sp_parse(toks)->Ok_0;
    assert(!roles_all_empty(roles));
    lemma_id_lines_nonempty(roles.arr, "array"@);
    lemma_id_lines_nonempty(roles.expr, "expression"@);
    assert(ids_report(roles).len() > 0);
}

proof fn lemma_const_lines_nonempty(vals: Seq<int>, tag: Seq<char>)
    ensures
        vals.len() > 0 ==> const_lines(vals, tag).len() > 0,
{
    if vals.len() > 0 {
        reveal_strlit("\n");
        assert(const_line(vals.last(), tag).len() > 0);
    }
}

/// Law: the constants report of an accepted line is non-empty exactly when
/// a constant occurs in the line.
pub proof fn lemma_analyze_ok_consts_report(s: Seq<char>)
    requires
        spec_analyze(s) is Ok,
    ensures
        ({
            let toks = spec_tokens(s, 0)->Ok_0;
            spec_analyze(s)->Ok_0.1.unwrap().len() > 0 <==> exists|k: int|
                0 <= k < toks.len() && (#[trigger] toks[k]).1 is Num
        }),
{
    let toks = spec_tokens(s, 0)->Ok_0;
    let roles = sp_parse(toks)->Ok_0;
    lemma_sp_parse_nonempty(toks);
    lemma_sp_parse_consts_iff(toks);
    lemma_const_lines_nonempty(roles.cidx, "index"@);
    lemma_const_lines_nonempty(roles.cexpr, "expression"@);
    if roles.cidx.len() == 0 && roles.cexpr.len() == 0 {
        assert(consts_report(roles) =~= Seq::<char>::empty());
    }
}

/// Law: completeness of classification. In an accepted line every
/// identifier and constant that occurs is present in a role set of the
/// parse: an identifier under array, index or expression, a constant under
/// index or expression — each attributed at the syntactic position where it
/// was read.
pub proof fn lemma_analyze_ok_complete(s: Seq<char>)
    requires
        spec_analyze(s) is Ok,
    ensures
        ({
            let toks = spec_tokens(s, 0)->Ok_0;
            let roles = sp_parse(toks)->Ok_0;
            forall|k: int|
                0 <= k < toks.len() ==> roles_contain_tok(roles, (#[trigger] toks[k]).1)
        }),
{
    lemma_sp_parse_complete(spec_tokens(s, 0)->Ok_0);
}

/// Law: soundness of classification. In an accepted line the role sets hold
/// nothing that does not occur: every recorded identifier is the text of one
/// of the line's identifier tokens and every recorded constant the value of
/// one of its constant tokens. Together with completeness, membership in a
/// role set is exactly witnessed by the line's tokens, each occurrence
/// classified at the position where it was read.
pub proof fn lemma_analyze_ok_sound(s: Seq<char>)
    requires
        spec_analyze(s) is Ok,
    ensures
        ({
            let toks = spec_tokens(s, 0)->Ok_0;
            roles_from_toks(sp_parse(toks)->Ok_0, toks)
        }),
{
    lemma_sp_parse_sound(spec_tokens(s, 0)->Ok_0);
}

/// Law: where the scan reaches an identifier of more than eight characters,
/// lexing fails with a semantic error positioned at the identifier's start.
pub proof fn lemma_long_identifier_fails(s: Seq<char>, i: int)
    requires
        0 <= i <= s.len(),
        ({
            let j = skip_ws_idx(s, i);
            j < s.len() && is_alpha(s[j]) && scan_alnum(s, j) - j > 8
        }),
    ensures
        spec_tokens(s, i) == Err::<Seq<(int, SpecTok)>, SpecErr>(
            SpecErr::Sem(skip_ws_idx(s, i), msg_ident_too_long()),
        ),
{
    lemma_skip_ws_idx(s, i);
}

/// Law: where the scan reaches a numeric literal whose value lies outside
/// [1, 32767] (not immediately followed by a letter, which is the
/// digit-led-identifier error instead), lexing fails with a semantic error
/// positioned at the literal's start.
pub proof fn lemma_constant_out_of_range_fails(s: Seq<char>, i: int)
    requires
        0 <= i <= s.len(),
        ({
            let j = skip_ws_idx(s, i);
            let k = scan_digits(s, j);
            let v = digits_val(s, j, k);
            &&& j < s.len()
            &&& is_digit(s[j])
            &&& !(k < s.len() && is_alpha(s[k]))
            &&& v <= max_parse_val()
            &&& (v < 1 || v > 32767)
        }),
    ensures
        spec_tokens(s, i) == Err::<Seq<(int, SpecTok)>, SpecErr>(
            SpecErr::Sem(
                skip_ws_idx(s, i),
                msg_const_range(digits_val(s, skip_ws_idx(s, i), scan_digits(s, skip_ws_idx(s, i)))),
            ),
        ),
{
    lemma_skip_ws_idx(s, i);
    lemma_scan_digits(s, skip_ws_idx(s, i));
}

/// Law: an accepted line contains no identifier longer than eight
/// characters and no constant outside [1, 32767]: every token of its
/// stream is well-formed.
pub proof fn lemma_analyze_ok_tokens_wf(s: Seq<char>)
    requires
        spec_analyze(s) is Ok,
    ensures
        forall|k: int|
            0 <= k < spec_tokens(s, 0)->Ok_0.len() ==> crate::lexer::tok_wf(
                #[trigger] spec_tokens(s, 0)->Ok_0[k],
            ),
{
    crate::lexer::lemma_tokens_wf(s, 0);
}

/// Law: the first lexing error is the analysis result, rendered with its
/// caret against the input line.
pub proof fn lemma_analyze_fails_on_lex_error(s: Seq<char>)
    requires
        spec_tokens(s, 0) is Err,
    ensures
        spec_analyze(s) == Err::<(Option<Seq<char>>, Option<Seq<char>>), Seq<char>>(
            fmt_error(s, spec_tokens(s, 0)->Err_0),
        ),
{
}

/// Law: in an accepted line whose target is an indexed array, the array's
/// name is never among the expression operands — the self-assignment check
/// keeps it off the right-hand side (it may still serve as an index).
pub proof fn lemma_analyze_ok_left_array_not_expr(s: Seq<char>)
    requires
        spec_analyze(s) is Ok,
    ensures
        ({
            let toks = spec_tokens(s, 0)->Ok_0;
            let roles = sp_parse(toks)->Ok_0;
            target_array(toks) is Some ==> !roles.expr.contains(target_array(toks).unwrap())
        }),
{
    lemma_sp_parse_left_array_not_expr(spec_tokens(s, 0)->Ok_0);
}

/// Law: a right-hand-side term that names the array assigned to on the left
/// is rejected with a semantic error positioned at exactly that occurrence.
pub proof fn lemma_array_term_rejected(toks: Seq<(int, SpecTok)>, i: int, st: SpecSt)
    requires
        0 <= i < toks.len(),
        st.left is Some,
        toks[i].1 == SpecTok::Ident(st.left.unwrap()),
    ensures
        sp_term(toks, i, st) == Err::<SpecSt, SpecErr>(SpecErr::Sem(toks[i].0, msg_array_rhs())),
{
}

/// Two characters equal up to ASCII letter case.
pub open spec fn same_char_ci(c1: char, c2: char) -> bool {
    to_upper(c1) == to_upper(c2)
}

/// Two lines equal up to ASCII letter case.
pub open spec fn same_up_to_case(s1: Seq<char>, s2: Seq<char>) -> bool {
    s1.len() == s2.len() && forall|k: int| 0 <= k < s1.len() ==> same_char_ci(#[trigger] s1[k], s2[k])
}

proof fn lemma_char_ci(c1: char, c2: char)
    requires
        same_char_ci(c1, c2),
    ensures
        is_ws(c1) == is_ws(c2),
        is_digit(c1) == is_digit(c2),
        is_alpha(c1) == is_alpha(c2),
        is_alnum(c1) == is_alnum(c2),
        !is_alpha(c1) ==> c1 == c2,
{
    let u1 = c1 as u32;
    let u2 = c2 as u32;
    if 97 <= u1 && u1 <= 122 {
        assert(to_upper(c1) as u32 == u1 - 32);
    } else {
        assert(to_upper(c1) == c1);
    }
    if 97 <= u2 && u2 <= 122 {
        assert(to_upper(c2) as u32 == u2 - 32);
    } else {
        assert(to_upper(c2) == c2);
    }
}

proof fn lemma_skip_ws_ci(s1: Seq<char>, s2: Seq<char>, i: int)
    requires
        same_up_to_case(s1, s2),
        0 <= i <= s1.len(),
    ensures
        skip_ws_idx(s1, i) == skip_ws_idx(s2, i),
    decreases s1.len() - i,
{
    if i < s1.len() {
        lemma_char_ci(s1[i], s2[i]);
        if is_ws(s1[i]) {
            lemma_skip_ws_ci(s1, s2, i + 1);
        }
    }
}

proof fn lemma_scan_alnum_ci(s1: Seq<char>, s2: Seq<char>, i: int)
    requires
        same_up_to_case(s1, s2),
        0 <= i <= s1.len(),
    ensures
        scan_alnum(s1, i) == scan_alnum(s2, i),
    decreases s1.len() - i,
{
    if i < s1.len() {
        lemma_char_ci(s1[i], s2[i]);
        if is_alnum(s1[i]) {
            lemma_scan_alnum_ci(s1, s2, i + 1);
        }
    }
}

proof fn lemma_scan_digits_ci(s1: Seq<char>, s2: Seq<char>, i: int)
    requires
        same_up_to_case(s1, s2),
        0 <= i <= s1.len(),
    ensures
        scan_digits(s1, i) == scan_digits(s2, i),
    decreases s1.len() - i,
{
    if i < s1.len() {
        lemma_char_ci(s1[i], s2[i]);
        if is_digit(s1[i]) {
            lemma_scan_digits_ci(s1, s2, i + 1);
        }
    }
}

proof fn lemma_digit_run_ci(s1: Seq<char>, s2: Seq<char>, i: int, j: int)
    requires
        same_up_to_case(s1, s2),
        0 <= i <= j <= s1.len(),
        forall|m: int| i <= m < j ==> is_digit(#[trigger] s1[m]),
    ensures
        digits_val(s1, i, j) == digits_val(s2, i, j),
        s1.subrange(i, j) == s2.subrange(i, j),
    decreases j - i,
{
    if j > i {
        lemma_char_ci(s1[j - 1], s2[j - 1]);
        lemma_digit_run_ci(s1, s2, i, j - 1);
    }
    assert forall|m: int| i <= m < j implies s1[m] == s2[m] by {
        lemma_char_ci(s1[m], s2[m]);
    }
    assert(s1.subrange(i, j) =~= s2.subrange(i, j));
}

proof fn lemma_upcase_sub_ci(s1: Seq<char>, s2: Seq<char>, j: int, k: int)
    requires
        same_up_to_case(s1, s2),
        0 <= j <= k <= s1.len(),
    ensures
        upcase_seq(s1.subrange(j, k)) == upcase_seq(s2.subrange(j, k)),
{
    assert(upcase_seq(s1.subrange(j, k)) =~= upcase_seq(s2.subrange(j, k)));
}

proof fn lemma_lex_step_ci(s1: Seq<char>, s2: Seq<char>, i: int)
    requires
        same_up_to_case(s1, s2),
        0 <= i <= s1.len(),
    ensures
        lex_step(s1, i) == lex_step(s2, i),
{
    lemma_skip_ws_ci(s1, s2, i);
    lemma_skip_ws_idx(s1, i);
    let j = skip_ws_idx(s1, i);
    if j < s1.len() {
        lemma_char_ci(s1[j], s2[j]);
        if is_alpha(s1[j]) {
            lemma_scan_alnum_ci(s1, s2, j);
            lemma_scan_alnum(s1, j);
            lemma_upcase_sub_ci(s1, s2, j, scan_alnum(s1, j));
        } else if is_digit(s1[j]) {
            lemma_scan_digits_ci(s1, s2, j);
            lemma_scan_digits(s1, j);
            let k = scan_digits(s1, j);
            lemma_digit_run_ci(s1, s2, j, k);
            if k < s1.len() {
                lemma_char_ci(s1[k], s2[k]);
            }
        } else {
            if j + 1 < s1.len() {
                lemma_char_ci(s1[j + 1], s2[j + 1]);
            }
        }
    }
}

proof fn lemma_tokens_ci(s1: Seq<char>, s2: Seq<char>, i: int)
    requires
        same_up_to_case(s1, s2),
        0 <= i <= s1.len(),
    ensures
        spec_tokens(s1, i) == spec_tokens(s2, i),
    decreases s1.len() - i,
{
    lemma_lex_step_ci(s1, s2, i);
    crate::lexer::lemma_lex_step_bounds(s1, i);
    match lex_step(s1, i) {
        crate::lexer::LexStep::Tok(_p, _t, k) => {
            lemma_tokens_ci(s1, s2, k);
        },
        _ => {
        },
    }
}

/// Law: case-insensitivity. Two lines that differ only in ASCII letter case
/// produce the same token stream, so an accepted line stays accepted under
/// any recasing and yields exactly the same reports: `abc` and `ABC` are the
/// same identifier for role-collapsing purposes.
pub proof fn lemma_case_insensitive(s1: Seq<char>, s2: Seq<char>)
    requires
        same_up_to_case(s1, s2),
    ensures
        spec_tokens(s1, 0) == spec_tokens(s2, 0),
        spec_analyze(s1) is Ok ==> spec_analyze(s2) == spec_analyze(s1),
{
    lemma_tokens_ci(s1, s2, 0);
}

/// Law: an accepted right-hand side never names the left array: in a
/// successful parse from `i` to `p.0`, the terms are the tokens at every
/// second position, and none of them is the left array's name.
pub proof fn lemma_right_avoids_array(toks: Seq<(int, SpecTok)>, i: int, st: SpecSt)
    requires
        0 <= i,
        st.left is Some,
    ensures
        sp_right(toks, i, st) matches Ok(p) ==> forall|k: int|
            i <= k < p.0 && (k - i) % 2 == 0 ==> toks[k].1 != SpecTok::Ident(st.left.unwrap()),
    decreases toks.len() - i,
{
    match sp_term(toks, i, st) {
        Ok(st2) => {
            assert(st2.left == st.left);
            if i + 1 < toks.len() && toks[i + 1].1 is Op {
                lemma_right_avoids_array(toks, i + 2, st2);
                match sp_right(toks, i + 2, st2) {
                    Ok(p) => {
                        assert forall|k: int|
                            i <= k < p.0 && (k - i) % 2 == 0 implies toks[k].1
                            != SpecTok::Ident(st.left.unwrap()) by {
                            if k > i {
                                assert(k != i + 1);
                                assert(k - (i + 2) == (k - i) - 2);
                                assert((k - (i + 2)) % 2 == 0);
                            }
                        }
                    },
                    Err(_e) => {
                    },
                }
            }
        },
        Err(_e) => {
        },
    }
}

} // verus!
