//! The lexer: one line of text in, a sequence of positioned tokens out, or
//! the first lexical, syntax or semantic error met along the way.
//!
//! The mathematical side (`lex_step`, `spec_tokens`) defines what the token
//! stream of an input is; the executable `Lexer` is proved to return exactly
//! that.
use vstd::prelude::*;
use crate::chars::{
    dec_digits, digit_val, exec_is_alnum, exec_is_alpha, exec_is_digit, exec_is_ws, exec_to_upper,
    format_u32, is_alnum, is_alpha, is_digit, is_ws, push_char, upcase_seq,
};
use crate::token::{toks_abs, AnalysisError, SpecErr, SpecTok, Token};

verus! {

/// Index of the first character at or after `i` that is not whitespace
/// (`s.len()` when only whitespace remains).
pub open spec fn skip_ws_idx(s: Seq<char>, i: int) -> int
    decreases s.len() - i
        when 0 <= i <= s.len()
{
    if i < s.len() && is_ws(s[i]) {
        skip_ws_idx(s, i + 1)
    } else {
        i
    }
}

pub proof fn lemma_skip_ws_idx(s: Seq<char>, i: int)
    requires
        0 <= i <= s.len(),
    ensures
        i <= skip_ws_idx(s, i) <= s.len(),
        skip_ws_idx(s, i) < s.len() ==> !is_ws(s[skip_ws_idx(s, i)]),
    decreases s.len() - i,
{
    if i < s.len() && is_ws(s[i]) {
        lemma_skip_ws_idx(s, i + 1);
    }
}

/// End of the run of letters and digits starting at `i`.
pub open spec fn scan_alnum(s: Seq<char>, i: int) -> int
    decreases s.len() - i
        when 0 <= i <= s.len()
{
    if i < s.len() && is_alnum(s[i]) {
        scan_alnum(s, i + 1)
    } else {
        i
    }
}

pub proof fn lemma_scan_alnum(s: Seq<char>, i: int)
    requires
        0 <= i <= s.len(),
    ensures
        i <= scan_alnum(s, i) <= s.len(),
        i < s.len() && is_alnum(s[i]) ==> scan_alnum(s, i) > i,
    decreases s.len() - i,
{
    if i < s.len() && is_alnum(s[i]) {
        lemma_scan_alnum(s, i + 1);
    }
}

/// End of the run of decimal digits starting at `i`.
pub open spec fn scan_digits(s: Seq<char>, i: int) -> int
    decreases s.len() - i
        when 0 <= i <= s.len()
{
    if i < s.len() && is_digit(s[i]) {
        scan_digits(s, i + 1)
    } else {
        i
    }
}

pub proof fn lemma_scan_digits(s: Seq<char>, i: int)
    requires
        0 <= i <= s.len(),
    ensures
        i <= scan_digits(s, i) <= s.len(),
        i < s.len() && is_digit(s[i]) ==> scan_digits(s, i) > i,
        forall|m: int| i <= m < scan_digits(s, i) ==> is_digit(#[trigger] s[m]),
    decreases s.len() - i,
{
    if i < s.len() && is_digit(s[i]) {
        lemma_scan_digits(s, i + 1);
    }
}

/// Value of the digit run `s[i..j]` read as a decimal number.
pub open spec fn digits_val(s: Seq<char>, i: int, j: int) -> int
    decreases j - i
        when i <= j
{
    if j <= i {
        0
    } else {
        digits_val(s, i, j - 1) * 10 + digit_val(s[j - 1])
    }
}

/// The largest value the analyzer's integer type can carry; a digit run
/// above it cannot be read as a number at all and is a lexical error.
pub open spec fn max_parse_val() -> int {
    0x7fff_ffff
}

pub open spec fn msg_ident_too_long() -> Seq<char> {
    "identifier too long"@
}

pub open spec fn msg_digit_ident() -> Seq<char> {
    "identifier cannot start with a digit"@
}

pub open spec fn msg_num_unparsable(digits: Seq<char>) -> Seq<char> {
    "cannot parse number: "@ + digits
}

pub open spec fn msg_const_range(v: int) -> Seq<char> {
    "constant out of range [1..32767]: "@ + dec_digits(v as nat)
}

pub open spec fn msg_expected_eq() -> Seq<char> {
    "expected '=' after ':'"@
}

pub open spec fn msg_invalid_char(c: char) -> Seq<char> {
    "invalid character: '"@ + seq![c] + "'"@
}

pub open spec fn is_op_char(c: char) -> bool {
    c == '+' || c == '-' || c == '*' || c == '/' || c == '>' || c == '<' || c == '='
        || c == '#'
}

/// One step of lexing: from position `i`, skip whitespace, then either the
/// end of the input, the next token with its start and end positions, or the
/// error that aborts the analysis.
pub enum LexStep {
    Tok(int, SpecTok, int),
    Done,
    Fail(SpecErr),
}

pub open spec fn lex_step(s: Seq<char>, i: int) -> LexStep
    recommends
        0 <= i <= s.len(),
{
    let j = skip_ws_idx(s, i);
    if j >= s.len() {
        LexStep::Done
    } else {
        let c = s[j];
        if is_alpha(c) {
            let k = scan_alnum(s, j);
            if k - j > 8 {
                LexStep::Fail(SpecErr::Sem(j, msg_ident_too_long()))
            } else {
                LexStep::Tok(j, SpecTok::Ident(upcase_seq(s.subrange(j, k))), k)
            }
        } else if is_digit(c) {
            let k = scan_digits(s, j);
            if k < s.len() && is_alpha(s[k]) {
                LexStep::Fail(SpecErr::Syn(j, msg_digit_ident()))
            } else {
                let v = digits_val(s, j, k);
                if v > max_parse_val() {
                    LexStep::Fail(SpecErr::Lex(j, msg_num_unparsable(s.subrange(j, k))))
                } else if v < 1 || v > 32767 {
                    LexStep::Fail(SpecErr::Sem(j, msg_const_range(v)))
                } else {
                    LexStep::Tok(j, SpecTok::Num(v), k)
                }
            }
        } else if c == '[' {
            LexStep::Tok(j, SpecTok::LBracket, j + 1)
        } else if c == ']' {
            LexStep::Tok(j, SpecTok::RBracket, j + 1)
        } else if c == ',' {
            LexStep::Tok(j, SpecTok::Comma, j + 1)
        } else if c == ';' {
            LexStep::Tok(j, SpecTok::Semi, j + 1)
        } else if c == ':' {
            if j + 1 < s.len() && s[j + 1] == '=' {
                LexStep::Tok(j, SpecTok::Assign, j + 2)
            } else {
                LexStep::Fail(SpecErr::Syn(j, msg_expected_eq()))
            }
        } else if is_op_char(c) {
            LexStep::Tok(j, SpecTok::Op(c), j + 1)
        } else {
            LexStep::Fail(SpecErr::Syn(j, msg_invalid_char(c)))
        }
    }
}

/// A produced token starts at or after `i` and ends strictly after its start.
pub proof fn lemma_lex_step_bounds(s: Seq<char>, i: int)
    requires
        0 <= i <= s.len(),
    ensures
        match lex_step(s, i) {
            LexStep::Tok(p, t, k) => i <= p < k <= s.len(),
            _ => true,
        },
{
    lemma_skip_ws_idx(s, i);
    let j = skip_ws_idx(s, i);
    if j < s.len() {
        if is_alpha(s[j]) {
            lemma_scan_alnum(s, j);
        } else if is_digit(s[j]) {
            lemma_scan_digits(s, j);
        }
    }
}

/// The full token stream of the input from position `i` on, or the first
/// error. Lexing is all-or-nothing: an error yields no partial list.
pub open spec fn spec_tokens(s: Seq<char>, i: int) -> Result<Seq<(int, SpecTok)>, SpecErr>
    decreases s.len() - i
        when 0 <= i <= s.len()
        via spec_tokens_decreases
{
    match lex_step(s, i) {
        LexStep::Done => Ok(Seq::empty()),
        LexStep::Fail(e) => Err(e),
        LexStep::Tok(p, t, k) => match spec_tokens(s, k) {
            Ok(rest) => Ok(seq![(p, t)] + rest),
            Err(e) => Err(e),
        },
    }
}

#[via_fn]
proof fn spec_tokens_decreases(s: Seq<char>, i: int) {
    lemma_lex_step_bounds(s, i);
}

/// What holds of every token a successful lex produces: non-negative start
/// offset, identifiers of one to eight characters, constants within
/// [1, 32767].
pub open spec fn tok_wf(pt: (int, SpecTok)) -> bool {
    &&& pt.0 >= 0
    &&& match pt.1 {
        SpecTok::Ident(name) => 1 <= name.len() <= 8,
        SpecTok::Num(v) => 1 <= v <= 32767,
        _ => true,
    }
}

/// Successful lexing yields only well-formed tokens: in particular no
/// identifier longer than eight characters and no constant outside
/// [1, 32767] ever reaches the parser.
pub proof fn lemma_tokens_wf(s: Seq<char>, i: int)
    requires
        0 <= i <= s.len(),
        spec_tokens(s, i) is Ok,
    ensures
        forall|k: int|
            0 <= k < spec_tokens(s, i)->Ok_0.len() ==> tok_wf(#[trigger] spec_tokens(s, i)->Ok_0[k]),
    decreases s.len() - i,
{
    lemma_lex_step_bounds(s, i);
    match lex_step(s, i) {
        LexStep::Done => {
        },
        LexStep::Fail(_e) => {
        },
        LexStep::Tok(p, t, k) => {
            let j = skip_ws_idx(s, i);
            lemma_skip_ws_idx(s, i);
            if j < s.len() {
                if is_alpha(s[j]) {
                    lemma_scan_alnum(s, j);
                } else if is_digit(s[j]) {
                    lemma_scan_digits(s, j);
                }
            }
            assert(tok_wf((p, t)));
            lemma_tokens_wf(s, k);
            let ts = spec_tokens(s, i)->Ok_0;
            let rest = spec_tokens(s, k)->Ok_0;
            assert(forall|m: int| 0 <= m < ts.len() ==> #[trigger] ts[m] == if m == 0 {
                (p, t)
            } else {
                rest[m - 1]
            });
        },
    }
}

/// Executable lexer state: the input as a sequence of characters, and the
/// cursor position of the next character to read.
pub struct Lexer {
    pub chars: Vec<char>,
    pub pos: usize,
}

impl Lexer {
    pub open spec fn wf(&self) -> bool {
        self.pos <= self.chars@.len()
    }

    /// What one call of `next_token` returns and where it leaves the cursor,
    /// stated against `lex_step`.
    pub open spec fn step_matches(
        s: Seq<char>,
        i: int,
        r: Result<(usize, Token), AnalysisError>,
        newpos: int,
    ) -> bool {
        match lex_step(s, i) {
            LexStep::Done => r matches Ok(pt) && pt.0 == s.len() && pt.1@ == SpecTok::End
                && newpos == s.len(),
            LexStep::Tok(p, t, k) => r matches Ok(pt) && pt.0 == p && pt.1@ == t && newpos == k,
            LexStep::Fail(e) => r matches Err(ae) && ae@ == e,
        }
    }

    #[verifier::loop_isolation(false)]
    pub fn new(input: &str) -> (l: Lexer)
        ensures
            l.chars@ == input@,
            l.pos == 0,
    {
        let n = input.unicode_len();
        let mut chars: Vec<char> = Vec::new();
        let mut i: usize = 0;
        while i < n
            invariant
                n == input@.len(),
                i <= n,
                chars@ == input@.subrange(0, i as int),
            decreases n - i,
        {
            let c = input.get_char(i);
            chars.push(c);
            proof {
                assert(chars@ =~= input@.subrange(0, i as int + 1));
            }
            i += 1;
        }
        proof {
            assert(chars@ =~= input@);
        }
        Lexer { chars, pos: 0 }
    }

    pub fn peek_char(&self) -> (r: Option<char>)
        ensures
            r == (if self.pos < self.chars@.len() {
                Some(self.chars@[self.pos as int])
            } else {
                None::<char>
            }),
    {
        if self.pos < self.chars.len() {
            Some(self.chars[self.pos])
        } else {
            None
        }
    }

    pub fn next_char(&mut self) -> (r: Option<char>)
        ensures
            final(self).chars == old(self).chars,
            r == (if old(self).pos < old(self).chars@.len() {
                Some(old(self).chars@[old(self).pos as int])
            } else {
                None::<char>
            }),
            final(self).pos == (if old(self).pos < old(self).chars@.len() {
                old(self).pos + 1
            } else {
                old(self).pos as int
            }),
    {
        if self.pos < self.chars.len() {
            let c = self.chars[self.pos];
            self.pos = self.pos + 1;
            Some(c)
        } else {
            None
        }
    }

    #[verifier::loop_isolation(false)]
    pub fn skip_spaces(&mut self)
        requires
            old(self).wf(),
        ensures
            final(self).chars == old(self).chars,
            final(self).pos == skip_ws_idx(old(self).chars@, old(self).pos as int),
            final(self).wf(),
    {
        loop
            invariant
                self.chars == old(self).chars,
                self.wf(),
                skip_ws_idx(self.chars@, self.pos as int) == skip_ws_idx(
                    old(self).chars@,
                    old(self).pos as int,
                ),
            decreases self.chars@.len() - self.pos,
        {
            if self.pos >= self.chars.len() {
                break ;
            }
            let c = self.chars[self.pos];
            if !exec_is_ws(c) {
                break ;
            }
            self.pos = self.pos + 1;
        }
    }

    /// Lexes the identifier whose first character, already consumed, is
    /// `first_char`: the run of letters and digits is folded to upper case,
    /// and a run longer than eight characters is a semantic error at the
    /// identifier's start.
    #[verifier::loop_isolation(false)]
    pub fn lex_identifier(&mut self, first_char: char) -> (r: Result<
        (usize, Token),
        AnalysisError,
    >)
        requires
            old(self).wf(),
            old(self).pos >= 1,
            old(self).chars@[old(self).pos - 1] == first_char,
            is_alpha(first_char),
        ensures
            final(self).chars == old(self).chars,
            final(self).wf(),
            ({
                let s = old(self).chars@;
                let start = old(self).pos - 1;
                let k = scan_alnum(s, start);
                &&& final(self).pos == k
                &&& if k - start > 8 {
                    r matches Err(e) && e@ == SpecErr::Sem(start, msg_ident_too_long())
                } else {
                    r matches Ok(pt) && pt.0 == start && pt.1@ == SpecTok::Ident(
                        upcase_seq(s.subrange(start, k)),
                    )
                }
            }),
    {
        let start = self.pos - 1;
        let ghost s = self.chars@;
        let mut ident = String::new();
        push_char(&mut ident, exec_to_upper(first_char));
        proof {
            assert(ident@ =~= upcase_seq(s.subrange(start as int, self.pos as int)));
        }
        loop
            invariant
                self.chars == old(self).chars,
                self.wf(),
                start < self.pos <= s.len(),
                scan_alnum(s, start as int) == scan_alnum(s, self.pos as int),
                ident@ == upcase_seq(s.subrange(start as int, self.pos as int)),
            decreases s.len() - self.pos,
        {
            if self.pos >= self.chars.len() {
                break ;
            }
            let c = self.chars[self.pos];
            if !exec_is_alnum(c) {
                break ;
            }
            push_char(&mut ident, exec_to_upper(c));
            proof {
                assert(s.subrange(start as int, self.pos as int + 1) =~= s.subrange(
                    start as int,
                    self.pos as int,
                ).push(s[self.pos as int]));
                assert(ident@ =~= upcase_seq(s.subrange(start as int, self.pos as int + 1)));
            }
            self.pos = self.pos + 1;
        }
        if self.pos - start > 8 {
            return Err(
                AnalysisError::Semantic(start, String::from_str("identifier too long")),
            );
        }
        Ok((start, Token::Identifier(ident)))
    }

    /// Lexes the digit run starting at the cursor. A run whose value does not
    /// fit the analyzer's integer type is a lexical error; a value outside
    /// `[1, 32767]` is a semantic error; both are positioned at the run's
    /// start.
    #[verifier::loop_isolation(false)]
    pub fn lex_number(&mut self) -> (r: Result<(usize, Token), AnalysisError>)
        requires
            old(self).wf(),
            old(self).pos < old(self).chars@.len(),
            is_digit(old(self).chars@[old(self).pos as int]),
        ensures
            final(self).chars == old(self).chars,
            final(self).wf(),
            ({
                let s = old(self).chars@;
                let start = old(self).pos as int;
                let k = scan_digits(s, start);
                let v = digits_val(s, start, k);
                &&& final(self).pos == k
                &&& if v > max_parse_val() {
                    r matches Err(e) && e@ == SpecErr::Lex(start, msg_num_unparsable(s.subrange(start, k)))
                } else if v < 1 || v > 32767 {
                    r matches Err(e) && e@ == SpecErr::Sem(start, msg_const_range(v))
                } else {
                    r matches Ok(pt) && pt.0 == start && pt.1@ == SpecTok::Num(v)
                }
            }),
    {
        let start = self.pos;
        let ghost s = self.chars@;
        let mut val: u64 = 0;
        let mut over: bool = false;
        let mut num_str = String::new();
        proof {
            assert(num_str@ =~= s.subrange(start as int, self.pos as int));
        }
        loop
            invariant
                self.chars == old(self).chars,
                self.wf(),
                start <= self.pos <= s.len(),
                scan_digits(s, start as int) == scan_digits(s, self.pos as int),
                num_str@ == s.subrange(start as int, self.pos as int),
                !over ==> val == digits_val(s, start as int, self.pos as int) && val
                    <= 0x7fff_ffff,
                over ==> digits_val(s, start as int, self.pos as int) > 0x7fff_ffff,
            decreases s.len() - self.pos,
        {
            if self.pos >= self.chars.len() {
                break ;
            }
            let c = self.chars[self.pos];
            if !exec_is_digit(c) {
                break ;
            }
            push_char(&mut num_str, c);
            let d: u64 = ((c as u32) - 48) as u64;
            if !over {
                let nv: u64 = val * 10 + d;
                if nv > 0x7fff_ffff {
                    over = true;
                } else {
                    val = nv;
                }
            }
            proof {
                assert(s.subrange(start as int, self.pos as int + 1) =~= s.subrange(
                    start as int,
                    self.pos as int,
                ).push(s[self.pos as int]));
            }
            self.pos = self.pos + 1;
        }
        if over {
            let mut m = String::from_str("cannot parse number: ");
            m.append(num_str.as_str());
            return Err(AnalysisError::Lexical(start, m));
        }
        if val < 1 || val > 32767 {
            let mut m = String::from_str("constant out of range [1..32767]: ");
            let digits = format_u32(val as u32);
            m.append(digits.as_str());
            return Err(AnalysisError::Semantic(start, m));
        }
        Ok((start, Token::Constant(val as i32)))
    }

    /// Skips whitespace, then reads one token; at the end of the input it
    /// returns `EndOfInput`. The first offending character aborts with a
    /// positioned error.
    pub fn next_token(&mut self) -> (r: Result<(usize, Token), AnalysisError>)
        requires
            old(self).wf(),
        ensures
            final(self).chars == old(self).chars,
            final(self).wf(),
            Self::step_matches(old(self).chars@, old(self).pos as int, r, final(self).pos as int),
    {
        self.skip_spaces();
        let start = self.pos;
        if self.pos >= self.chars.len() {
            return Ok((start, Token::EndOfInput));
        }
        let c = self.chars[self.pos];
        if exec_is_alpha(c) {
            self.pos = self.pos + 1;
            return self.lex_identifier(c);
        }
        if exec_is_digit(c) {
            let number = self.lex_number();
            if self.pos < self.chars.len() {
                let after = self.chars[self.pos];
                if exec_is_alpha(after) {
                    return Err(
                        AnalysisError::Syntax(
                            start,
                            String::from_str("identifier cannot start with a digit"),
                        ),
                    );
                }
            }
            return number;
        }
        self.pos = self.pos + 1;
        if c == '[' {
            return Ok((start, Token::LeftBracket));
        }
        if c == ']' {
            return Ok((start, Token::RightBracket));
        }
        if c == ',' {
            return Ok((start, Token::Comma));
        }
        if c == ';' {
            return Ok((start, Token::Semicolon));
        }
        if c == ':' {
            if self.pos < self.chars.len() {
                let eq = self.chars[self.pos];
                if eq == '=' {
                    self.pos = self.pos + 1;
                    return Ok((start, Token::Assign));
                }
            }
            return Err(
                AnalysisError::Syntax(start, String::from_str("expected '=' after ':'")),
            );
        }
        if c == '+' || c == '-' || c == '*' || c == '/' || c == '>' || c == '<' || c == '='
            || c == '#' {
            return Ok((start, Token::Operation(c)));
        }
        let mut m = String::from_str("invalid character: '");
        push_char(&mut m, c);
        m.append("'");
        proof {
            assert(m@ =~= msg_invalid_char(c));
        }
        Err(AnalysisError::Syntax(start, m))
    }

    /// Runs the lexer to the end of the input. All-or-nothing: the result is
    /// the full token list of `spec_tokens`, or its first error and no list.
    #[verifier::loop_isolation(false)]
    pub fn tokenize(self) -> (r: Result<Vec<(usize, Token)>, AnalysisError>)
        requires
            self.wf(),
        ensures
            match spec_tokens(self.chars@, self.pos as int) {
                Ok(ts) => r matches Ok(v) && toks_abs(v@) == ts,
                Err(e) => r matches Err(ae) && ae@ == e,
            },
    {
        let ghost s = self.chars@;
        let ghost i0 = self.pos as int;
        let mut lx = self;
        let mut tokens: Vec<(usize, Token)> = Vec::new();
        proof {
            assert(toks_abs(tokens@) =~= Seq::<(int, SpecTok)>::empty());
        }
        loop
            invariant
                s == lx.chars@,
                lx.wf(),
                match spec_tokens(s, lx.pos as int) {
                    Ok(rest) => spec_tokens(s, i0) == Ok::<_, SpecErr>(
                        toks_abs(tokens@) + rest,
                    ),
                    Err(e) => spec_tokens(s, i0) == Err::<Seq<(int, SpecTok)>, _>(e),
                },
            decreases s.len() - lx.pos,
        {
            let ghost pos_before = lx.pos as int;
            let r = lx.next_token();
            proof {
                lemma_lex_step_bounds(s, pos_before);
            }
            match r {
                Err(e) => {
                    return Err(e);
                },
                Ok(pt) => {
                    let (p, tok) = pt;
                    match tok {
                        Token::EndOfInput => {
                            proof {
                                assert(toks_abs(tokens@) + Seq::<(int, SpecTok)>::empty()
                                    =~= toks_abs(tokens@));
                            }
                            return Ok(tokens);
                        },
                        _ => {
                            let ghost toks_prev = tokens@;
                            tokens.push((p, tok));
                            proof {
                                assert(toks_abs(tokens@) =~= toks_abs(toks_prev)
                                    + seq![(p as int, tok@)]);
                                match spec_tokens(s, lx.pos as int) {
                                    Ok(rest2) => {
                                        assert(spec_tokens(s, pos_before) == Ok::<_, SpecErr>(
                                            seq![(p as int, tok@)] + rest2,
                                        ));
                                        assert(toks_abs(toks_prev) + (seq![(p as int, tok@)]
                                            + rest2) =~= toks_abs(tokens@) + rest2);
                                    },
                                    Err(e2) => {
                                        assert(spec_tokens(s, pos_before)
                                            == Err::<Seq<(int, SpecTok)>, _>(e2));
                                    },
                                }
                            }
                        },
                    }
                },
            }
        }
    }
}

} // verus!
