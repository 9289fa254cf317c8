//! The analysis entry point: one line of text in, either the two role
//! reports or a formatted error with a caret marking the failing column.
use vstd::prelude::*;
use crate::chars::push_char;
use crate::lexer::{lemma_tokens_wf, spec_tokens, tok_wf, Lexer};
use crate::parser::{
    cvals_ok, ints_view, lemma_sp_parse_cvals, opt_str_matches, sp_parse, spec_finish,
    toks_nums_in_range, Parser,
};
use crate::token::{toks_abs, AnalysisError, SpecErr};

verus! {

/// A run of `n` spaces.
pub open spec fn spaces(n: int) -> Seq<char>
    decreases n,
{
    if n <= 0 {
        Seq::empty()
    } else {
        spaces(n - 1).push(' ')
    }
}

/// The failure report: the input line echoed, a caret beneath the failing
/// column (offsets beyond the line are clamped to its length), and the
/// error's text.
pub open spec fn fmt_cursor(input: Seq<char>, pos: int, msg: Seq<char>) -> Seq<char> {
    let clamped = if pos > input.len() {
        input.len() as int
    } else {
        pos
    };
    input + "\n"@ + spaces(clamped) + "^"@ + "\n"@ + msg
}

/// An error's text: its category followed by its message.
pub open spec fn err_text(e: SpecErr) -> Seq<char> {
    match e {
        SpecErr::Lex(_p, m) => "lexical error: "@ + m,
        SpecErr::Syn(_p, m) => "syntax error: "@ + m,
        SpecErr::Sem(_p, m) => "semantic error: "@ + m,
    }
}

pub open spec fn err_pos(e: SpecErr) -> int {
    match e {
        SpecErr::Lex(p, _m) => p,
        SpecErr::Syn(p, _m) => p,
        SpecErr::Sem(p, _m) => p,
    }
}

/// The full formatted failure text of an error against its input line.
pub open spec fn fmt_error(input: Seq<char>, e: SpecErr) -> Seq<char> {
    fmt_cursor(input, err_pos(e), err_text(e))
}

/// What one whole analysis of the input returns: the reports of a
/// successful parse, or the formatted text of the first error.
pub open spec fn spec_analyze(s: Seq<char>) -> Result<
    (Option<Seq<char>>, Option<Seq<char>>),
    Seq<char>,
> {
    match spec_tokens(s, 0) {
        Err(e) => Err(fmt_error(s, e)),
        Ok(toks) => match sp_parse(toks) {
            Err(e) => Err(fmt_error(s, e)),
            Ok(roles) => Ok(spec_finish(roles)),
        },
    }
}

/// An analysis result against its mathematical counterpart.
pub open spec fn analyze_matches(
    r: Result<(Option<String>, Option<String>), String>,
    s: Result<(Option<Seq<char>>, Option<Seq<char>>), Seq<char>>,
) -> bool {
    match (r, s) {
        (Ok(p), Ok(q)) => opt_str_matches(p.0, q.0) && opt_str_matches(p.1, q.1),
        (Err(m), Err(sm)) => m@ == sm,
        _ => false,
    }
}

/// Renders the input line, a caret at `pos` (clamped to the line's length),
/// and the message beneath it.
#[verifier::loop_isolation(false)]
pub fn format_error_with_cursor(input: &str, pos: usize, msg: &str) -> (r: String)
    ensures
        r@ == fmt_cursor(input@, pos as int, msg@),
{
    let n = input.unicode_len();
    let mut cursor_pos = pos;
    if cursor_pos > n {
        cursor_pos = n;
    }
    let mut result = String::from_str(input);
    result.append("\n");
    let mut k: usize = 0;
    proof {
        assert(result@ + spaces(0) =~= result@);
    }
    while k < cursor_pos
        invariant
            k <= cursor_pos,
            result@ == input@ + "\n"@ + spaces(k as int),
        decreases cursor_pos - k,
    {
        push_char(&mut result, ' ');
        k += 1;
    }
    result.append("^");
    result.append("\n");
    result.append(msg);
    result
}

/// Renders an analysis error as its category, message and caret line.
pub fn format_error(err: AnalysisError, input: &str) -> (r: String)
    ensures
        r@ == fmt_error(input@, err@),
{
    match err {
        AnalysisError::Lexical(pos, msg) => {
            let mut m = String::from_str("lexical error: ");
            m.append(msg.as_str());
            format_error_with_cursor(input, pos, m.as_str())
        },
        AnalysisError::Syntax(pos, msg) => {
            let mut m = String::from_str("syntax error: ");
            m.append(msg.as_str());
            format_error_with_cursor(input, pos, m.as_str())
        },
        AnalysisError::Semantic(pos, msg) => {
            let mut m = String::from_str("semantic error: ");
            m.append(msg.as_str());
            format_error_with_cursor(input, pos, m.as_str())
        },
    }
}

/// Analyzes one line of input.
///
/// On success it returns the identifiers report and the constants report
/// (both present whenever anything was classified, which the grammar
/// guarantees of every accepted statement). On failure it returns one
/// formatted string: the input line, a caret marking the exact failing
/// column, and the error's category and message. The whole behaviour is
/// pinned to `spec_analyze`: the same line always yields the same result.
pub fn analyze_line(input: &str) -> (r: Result<(Option<String>, Option<String>), String>)
    ensures
        analyze_matches(r, spec_analyze(input@)),
{
    let lexer = Lexer::new(input);
    let tokens = match lexer.tokenize() {
        Ok(t) => t,
        Err(e) => {
            return Err(format_error(e, input));
        },
    };
    proof {
        lemma_tokens_wf(input@, 0);
    }
    let mut parser = Parser::new(tokens);
    let ghost toks = toks_abs(parser.tokens@);
    proof {
        assert(toks_nums_in_range(toks)) by {
            assert(forall|k: int|
                0 <= k < toks.len() ==> tok_wf(#[trigger] toks[k]));
        }
        lemma_sp_parse_cvals(toks);
    }
    match parser.parse() {
        Ok(_u) => {
            proof {
                assert(cvals_ok(parser.st().roles));
                assert forall|m: int|
                    0 <= m < parser.const_index@.len() implies 0 <= #[trigger] parser.const_index@[m] by {
                    assert(ints_view(parser.const_index@)[m] == parser.const_index@[m] as int);
                }
                assert forall|m: int|
                    0 <= m < parser.const_expr@.len() implies 0 <= #[trigger] parser.const_expr@[m] by {
                    assert(ints_view(parser.const_expr@)[m] == parser.const_expr@[m] as int);
                }
            }
            let (ids, consts) = parser.finish();
            Ok((ids, consts))
        },
        Err(e) => Err(format_error(e, input)),
    }
}

} // verus!
