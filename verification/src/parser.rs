//! The parser and semantic classifier: a one-token-lookahead recursive
//! descent over the token list, which classifies every identifier and
//! constant by the syntactic position it occurs in, enforces the one
//! context-sensitive rule (the array assigned to on the left may not appear
//! as a term on the right), and fails fast at the first violation.
//!
//! The mathematical side (`sp_parse` and its helpers) defines the accepted
//! language and the role sets of an accepted statement; the executable
//! `Parser` is proved to compute exactly that.
use vstd::prelude::*;
use crate::chars::{dec_digits, format_u32};
use crate::token::{toks_abs, token_eq, AnalysisError, SpecErr, SpecTok, Token};

verus! {

/// Appending to a set kept as an insertion-ordered sequence without
/// duplicates: a value already present leaves the sequence unchanged.
pub open spec fn seq_insert<A>(s: Seq<A>, a: A) -> Seq<A> {
    if s.contains(a) {
        s
    } else {
        s.push(a)
    }
}

/// The five role sets built during one parse, each in first-insertion order:
/// identifiers used as array name, index or expression operand, and constants
/// used as index or expression operand.
pub struct SpecRoles {
    pub arr: Seq<Seq<char>>,
    pub idx: Seq<Seq<char>>,
    pub expr: Seq<Seq<char>>,
    pub cidx: Seq<int>,
    pub cexpr: Seq<int>,
}

/// The parser state threaded through the grammar walk: the role sets, and
/// the name of the array assigned to on the left (`None` when the target is
/// a bare identifier).
pub struct SpecSt {
    pub roles: SpecRoles,
    pub left: Option<Seq<char>>,
}

pub open spec fn roles_empty() -> SpecRoles {
    SpecRoles {
        arr: Seq::empty(),
        idx: Seq::empty(),
        expr: Seq::empty(),
        cidx: Seq::empty(),
        cexpr: Seq::empty(),
    }
}

pub open spec fn init_st() -> SpecSt {
    SpecSt { roles: roles_empty(), left: None }
}

/// The offset of the last consumed token: where an error is placed when the
/// token list is exhausted (0 when nothing was consumed yet).
pub open spec fn last_pos(toks: Seq<(int, SpecTok)>, i: int) -> int {
    if 1 <= i <= toks.len() {
        toks[i - 1].0
    } else {
        0
    }
}

pub open spec fn msg_expected_ident() -> Seq<char> {
    "expected an identifier"@
}

pub open spec fn msg_expected_assign() -> Seq<char> {
    "expected ':='"@
}

pub open spec fn msg_expected_assign_end() -> Seq<char> {
    "expected ':=' but reached end of input"@
}

pub open spec fn msg_expected_rbracket() -> Seq<char> {
    "expected ']'"@
}

pub open spec fn msg_expected_rbracket_end() -> Seq<char> {
    "expected ']' but reached end of input"@
}

pub open spec fn msg_expected_index_item() -> Seq<char> {
    "expected an identifier or constant in the index"@
}

pub open spec fn msg_expected_index_end() -> Seq<char> {
    "expected an index but reached end of input"@
}

pub open spec fn msg_expected_term() -> Seq<char> {
    "expected an identifier or constant in the right-hand side"@
}

pub open spec fn msg_expected_semi() -> Seq<char> {
    "expected ';'"@
}

pub open spec fn msg_expected_semi_end() -> Seq<char> {
    "expected ';' but reached end of input"@
}

pub open spec fn msg_trailing() -> Seq<char> {
    "trailing content after ';'"@
}

pub open spec fn msg_array_rhs() -> Seq<char> {
    "array cannot appear on the right-hand side"@
}

/// One index inside the target's brackets: an identifier or a constant,
/// classified accordingly. Consumes exactly one token when it succeeds.
pub open spec fn sp_index(toks: Seq<(int, SpecTok)>, i: int, st: SpecSt) -> Result<
    SpecSt,
    SpecErr,
>
    recommends
        0 <= i,
{
    if i >= toks.len() {
        Err(SpecErr::Syn(last_pos(toks, i), msg_expected_index_end()))
    } else {
        match toks[i].1 {
            SpecTok::Ident(name) => Ok(
                SpecSt {
                    roles: SpecRoles { idx: seq_insert(st.roles.idx, name), ..st.roles },
                    ..st
                },
            ),
            SpecTok::Num(v) => Ok(
                SpecSt {
                    roles: SpecRoles { cidx: seq_insert(st.roles.cidx, v), ..st.roles },
                    ..st
                },
            ),
            _ => Err(SpecErr::Syn(toks[i].0, msg_expected_index_item())),
        }
    }
}

/// A comma-separated, non-empty index list. On success it returns the index
/// of the first token after the list.
pub open spec fn sp_index_list(toks: Seq<(int, SpecTok)>, i: int, st: SpecSt) -> Result<
    (int, SpecSt),
    SpecErr,
>
    decreases toks.len() - i
        when 0 <= i
{
    match sp_index(toks, i, st) {
        Err(e) => Err(e),
        Ok(st2) => if i + 1 < toks.len() && toks[i + 1].1 is Comma {
            sp_index_list(toks, i + 2, st2)
        } else {
            Ok((i + 1, st2))
        },
    }
}

/// One term of the right-hand side: an identifier or a constant. An
/// identifier equal to the left array name is the semantic error of the
/// grammar; otherwise the term is classified as an expression operand.
/// Consumes exactly one token when it succeeds.
pub open spec fn sp_term(toks: Seq<(int, SpecTok)>, i: int, st: SpecSt) -> Result<
    SpecSt,
    SpecErr,
>
    recommends
        0 <= i,
{
    if i >= toks.len() {
        Err(SpecErr::Syn(last_pos(toks, i), msg_expected_term()))
    } else {
        match toks[i].1 {
            SpecTok::Ident(name) => if st.left matches Some(a) && a == name {
                Err(SpecErr::Sem(toks[i].0, msg_array_rhs()))
            } else {
                Ok(
                    SpecSt {
                        roles: SpecRoles { expr: seq_insert(st.roles.expr, name), ..st.roles },
                        ..st
                    },
                )
            },
            SpecTok::Num(v) => Ok(
                SpecSt {
                    roles: SpecRoles { cexpr: seq_insert(st.roles.cexpr, v), ..st.roles },
                    ..st
                },
            ),
            _ => Err(SpecErr::Syn(toks[i].0, msg_expected_term())),
        }
    }
}

/// The right-hand side: terms chained by binary operators, at one flat level
/// and with no evaluation. On success it returns the index of the first
/// token after the expression.
pub open spec fn sp_right(toks: Seq<(int, SpecTok)>, i: int, st: SpecSt) -> Result<
    (int, SpecSt),
    SpecErr,
>
    decreases toks.len() - i
        when 0 <= i
{
    match sp_term(toks, i, st) {
        Err(e) => Err(e),
        Ok(st2) => if i + 1 < toks.len() && toks[i + 1].1 is Op {
            sp_right(toks, i + 2, st2)
        } else {
            Ok((i + 1, st2))
        },
    }
}

/// The target of the assignment: a bare identifier (classified as an
/// expression operand, no left array name), or an identifier followed by a
/// bracketed index list (classified as an array name and remembered for the
/// self-assignment check).
pub open spec fn sp_left(toks: Seq<(int, SpecTok)>, i: int, st: SpecSt) -> Result<
    (int, SpecSt),
    SpecErr,
>
    recommends
        0 <= i,
{
    if i >= toks.len() {
        Err(SpecErr::Syn(last_pos(toks, i), msg_expected_ident()))
    } else {
        match toks[i].1 {
            SpecTok::Ident(name) => if i + 1 < toks.len() && toks[i + 1].1 is LBracket {
                let st2 = SpecSt {
                    roles: SpecRoles { arr: seq_insert(st.roles.arr, name), ..st.roles },
                    left: Some(name),
                };
                match sp_index_list(toks, i + 2, st2) {
                    Err(e) => Err(e),
                    Ok((j, st3)) => if j < toks.len() && toks[j].1 is RBracket {
                        Ok((j + 1, st3))
                    } else if j < toks.len() {
                        Err(SpecErr::Syn(toks[j].0, msg_expected_rbracket()))
                    } else {
                        Err(SpecErr::Syn(last_pos(toks, j), msg_expected_rbracket_end()))
                    },
                }
            } else {
                Ok(
                    (
                        i + 1,
                        SpecSt {
                            roles: SpecRoles {
                                expr: seq_insert(st.roles.expr, name),
                                ..st.roles
                            },
                            left: None,
                        },
                    ),
                )
            },
            _ => Err(SpecErr::Syn(toks[i].0, msg_expected_ident())),
        }
    }
}

/// The whole statement: target, `:=`, expression, `;`, and nothing after.
/// On success the role sets of the statement are the result.
pub open spec fn sp_parse(toks: Seq<(int, SpecTok)>) -> Result<SpecRoles, SpecErr> {
    match sp_left(toks, 0, init_st()) {
        Err(e) => Err(e),
        Ok((i, st)) => if i < toks.len() && toks[i].1 is Assign {
            match sp_right(toks, i + 1, st) {
                Err(e) => Err(e),
                Ok((j, st2)) => if j < toks.len() && toks[j].1 is Semi {
                    if j + 1 < toks.len() {
                        Err(SpecErr::Syn(toks[j + 1].0, msg_trailing()))
                    } else {
                        Ok(st2.roles)
                    }
                } else if j < toks.len() {
                    Err(SpecErr::Syn(toks[j].0, msg_expected_semi()))
                } else {
                    Err(SpecErr::Syn(last_pos(toks, j), msg_expected_semi_end()))
                },
            }
        } else if i < toks.len() {
            Err(SpecErr::Syn(toks[i].0, msg_expected_assign()))
        } else {
            Err(SpecErr::Syn(last_pos(toks, i), msg_expected_assign_end()))
        },
    }
}

/// One line of the identifiers report.
pub open spec fn id_line(name: Seq<char>, tag: Seq<char>) -> Seq<char> {
    name + " - "@ + tag + "\n"@
}

/// One line per listed identifier, in the order of the sequence.
pub open spec fn id_lines(names: Seq<Seq<char>>, tag: Seq<char>) -> Seq<char>
    decreases names.len(),
{
    if names.len() == 0 {
        Seq::empty()
    } else {
        id_lines(names.drop_last(), tag) + id_line(names.last(), tag)
    }
}

/// One line of the constants report.
pub open spec fn const_line(v: int, tag: Seq<char>) -> Seq<char> {
    dec_digits(v as nat) + " - "@ + tag + "\n"@
}

/// One line per listed constant, in the order of the sequence.
pub open spec fn const_lines(vals: Seq<int>, tag: Seq<char>) -> Seq<char>
    decreases vals.len(),
{
    if vals.len() == 0 {
        Seq::empty()
    } else {
        const_lines(vals.drop_last(), tag) + const_line(vals.last(), tag)
    }
}

/// The identifiers report: array names first, then indexes, then expression
/// operands, one line each.
pub open spec fn ids_report(r: SpecRoles) -> Seq<char> {
    id_lines(r.arr, "array"@) + id_lines(r.idx, "index"@) + id_lines(r.expr, "expression"@)
}

/// The constants report: index constants first, then expression constants.
pub open spec fn consts_report(r: SpecRoles) -> Seq<char> {
    const_lines(r.cidx, "index"@) + const_lines(r.cexpr, "expression"@)
}

pub open spec fn roles_all_empty(r: SpecRoles) -> bool {
    r.arr.len() == 0 && r.idx.len() == 0 && r.expr.len() == 0 && r.cidx.len() == 0
        && r.cexpr.len() == 0
}

/// The two reports of a successful analysis; both absent in the (with this
/// grammar unreachable) case that nothing at all was classified.
pub open spec fn spec_finish(r: SpecRoles) -> (Option<Seq<char>>, Option<Seq<char>>) {
    if roles_all_empty(r) {
        (None, None)
    } else {
        (Some(ids_report(r)), Some(consts_report(r)))
    }
}

/// All constants in the role sets lie within [1, 32767].
pub open spec fn cvals_ok(r: SpecRoles) -> bool {
    &&& forall|k: int| 0 <= k < r.cidx.len() ==> 1 <= #[trigger] r.cidx[k] <= 32767
    &&& forall|k: int| 0 <= k < r.cexpr.len() ==> 1 <= #[trigger] r.cexpr[k] <= 32767
}

/// Every constant token of the list lies within [1, 32767]; the lexer
/// guarantees this of every list it hands over.
pub open spec fn toks_nums_in_range(toks: Seq<(int, SpecTok)>) -> bool {
    forall|k: int|
        0 <= k < toks.len() && (#[trigger] toks[k]).1 is Num ==> 1 <= toks[k].1->Num_0 <= 32767
}

proof fn lemma_seq_insert_range(s: Seq<int>, v: int)
    requires
        forall|k: int| 0 <= k < s.len() ==> 1 <= #[trigger] s[k] <= 32767,
        1 <= v <= 32767,
    ensures
        forall|k: int|
            0 <= k < seq_insert(s, v).len() ==> 1 <= #[trigger] seq_insert(s, v)[k] <= 32767,
{
}

/// A successful index list ends strictly after where it began and within
/// the token list.
pub proof fn lemma_sp_index_list_bounds(toks: Seq<(int, SpecTok)>, i: int, st: SpecSt)
    requires
        0 <= i,
    ensures
        sp_index_list(toks, i, st) matches Ok(p) ==> i + 1 <= p.0 <= toks.len(),
    decreases toks.len() - i,
{
    match sp_index(toks, i, st) {
        Ok(st2) => {
            if i + 1 < toks.len() && toks[i + 1].1 is Comma {
                lemma_sp_index_list_bounds(toks, i + 2, st2);
            }
        },
        Err(_e) => {
        },
    }
}

/// A successful right-hand side ends strictly after where it began and
/// within the token list.
pub proof fn lemma_sp_right_bounds(toks: Seq<(int, SpecTok)>, i: int, st: SpecSt)
    requires
        0 <= i,
    ensures
        sp_right(toks, i, st) matches Ok(p) ==> i + 1 <= p.0 <= toks.len(),
    decreases toks.len() - i,
{
    match sp_term(toks, i, st) {
        Ok(st2) => {
            if i + 1 < toks.len() && toks[i + 1].1 is Op {
                lemma_sp_right_bounds(toks, i + 2, st2);
            }
        },
        Err(_e) => {
        },
    }
}

/// A successful target ends strictly after where it began and at most one
/// past the token list's closing bracket.
pub proof fn lemma_sp_left_bounds(toks: Seq<(int, SpecTok)>, i: int, st: SpecSt)
    requires
        0 <= i,
    ensures
        sp_left(toks, i, st) matches Ok(p) ==> i + 1 <= p.0 <= toks.len(),
{
    if i < toks.len() {
        match toks[i].1 {
            SpecTok::Ident(name) => {
                if i + 1 < toks.len() && toks[i + 1].1 is LBracket {
                    let st2 = SpecSt {
                        roles: SpecRoles { arr: seq_insert(st.roles.arr, name), ..st.roles },
                        left: Some(name),
                    };
                    lemma_sp_index_list_bounds(toks, i + 2, st2);
                }
            },
            _ => {
            },
        }
    }
}

proof fn lemma_sp_index_cvals(toks: Seq<(int, SpecTok)>, i: int, st: SpecSt)
    requires
        0 <= i,
        toks_nums_in_range(toks),
        cvals_ok(st.roles),
    ensures
        sp_index(toks, i, st) matches Ok(st2) ==> cvals_ok(st2.roles),
{
    if i < toks.len() {
        match toks[i].1 {
            SpecTok::Num(v) => {
                lemma_seq_insert_range(st.roles.cidx, v);
            },
            _ => {
            },
        }
    }
}

proof fn lemma_sp_index_list_cvals(toks: Seq<(int, SpecTok)>, i: int, st: SpecSt)
    requires
        0 <= i,
        toks_nums_in_range(toks),
        cvals_ok(st.roles),
    ensures
        sp_index_list(toks, i, st) matches Ok(p) ==> cvals_ok(p.1.roles),
    decreases toks.len() - i,
{
    lemma_sp_index_cvals(toks, i, st);
    match sp_index(toks, i, st) {
        Ok(st2) => {
            if i + 1 < toks.len() && toks[i + 1].1 is Comma {
                lemma_sp_index_list_cvals(toks, i + 2, st2);
            }
        },
        Err(_e) => {
        },
    }
}

proof fn lemma_sp_term_cvals(toks: Seq<(int, SpecTok)>, i: int, st: SpecSt)
    requires
        0 <= i,
        toks_nums_in_range(toks),
        cvals_ok(st.roles),
    ensures
        sp_term(toks, i, st) matches Ok(st2) ==> cvals_ok(st2.roles),
{
    if i < toks.len() {
        match toks[i].1 {
            SpecTok::Num(v) => {
                lemma_seq_insert_range(st.roles.cexpr, v);
            },
            _ => {
            },
        }
    }
}

proof fn lemma_sp_right_cvals(toks: Seq<(int, SpecTok)>, i: int, st: SpecSt)
    requires
        0 <= i,
        toks_nums_in_range(toks),
        cvals_ok(st.roles),
    ensures
        sp_right(toks, i, st) matches Ok(p) ==> cvals_ok(p.1.roles),
    decreases toks.len() - i,
{
    lemma_sp_term_cvals(toks, i, st);
    match sp_term(toks, i, st) {
        Ok(st2) => {
            if i + 1 < toks.len() && toks[i + 1].1 is Op {
                lemma_sp_right_cvals(toks, i + 2, st2);
            }
        },
        Err(_e) => {
        },
    }
}

proof fn lemma_sp_left_cvals(toks: Seq<(int, SpecTok)>, i: int, st: SpecSt)
    requires
        0 <= i,
        toks_nums_in_range(toks),
        cvals_ok(st.roles),
    ensures
        sp_left(toks, i, st) matches Ok(p) ==> cvals_ok(p.1.roles),
{
    if i < toks.len() {
        match toks[i].1 {
            SpecTok::Ident(name) => {
                if i + 1 < toks.len() && toks[i + 1].1 is LBracket {
                    let st2 = SpecSt {
                        roles: SpecRoles { arr: seq_insert(st.roles.arr, name), ..st.roles },
                        left: Some(name),
                    };
                    lemma_sp_index_list_cvals(toks, i + 2, st2);
                }
            },
            _ => {
            },
        }
    }
}

/// Every constant that a successful parse has classified lies within
/// [1, 32767], given that every constant token does.
pub proof fn lemma_sp_parse_cvals(toks: Seq<(int, SpecTok)>)
    requires
        toks_nums_in_range(toks),
    ensures
        sp_parse(toks) matches Ok(roles) ==> cvals_ok(roles),
{
    lemma_sp_left_cvals(toks, 0, init_st());
    lemma_sp_left_bounds(toks, 0, init_st());
    match sp_left(toks, 0, init_st()) {
        Ok(p) => {
            if p.0 < toks.len() && toks[p.0].1 is Assign {
                lemma_sp_right_cvals(toks, p.0 + 1, p.1);
            }
        },
        Err(_e) => {
        },
    }
}

/// The index list touches only the index role sets: array and expression
/// identifiers and the left array name pass through unchanged.
pub proof fn lemma_sp_index_list_frame(toks: Seq<(int, SpecTok)>, i: int, st: SpecSt)
    requires
        0 <= i,
    ensures
        sp_index_list(toks, i, st) matches Ok(p) ==> p.1.roles.arr == st.roles.arr
            && p.1.roles.expr == st.roles.expr && p.1.left == st.left,
    decreases toks.len() - i,
{
    match sp_index(toks, i, st) {
        Ok(st2) => {
            if i + 1 < toks.len() && toks[i + 1].1 is Comma {
                lemma_sp_index_list_frame(toks, i + 2, st2);
            }
        },
        Err(_e) => {
        },
    }
}

/// The right-hand side never removes anything from a role set: in
/// particular the array names are untouched and the expression set only
/// grows.
pub proof fn lemma_sp_right_frame(toks: Seq<(int, SpecTok)>, i: int, st: SpecSt)
    requires
        0 <= i,
    ensures
        sp_right(toks, i, st) matches Ok(p) ==> p.1.roles.arr == st.roles.arr
            && p.1.roles.expr.len() >= st.roles.expr.len(),
    decreases toks.len() - i,
{
    match sp_term(toks, i, st) {
        Ok(st2) => {
            if i + 1 < toks.len() && toks[i + 1].1 is Op {
                lemma_sp_right_frame(toks, i + 2, st2);
            }
        },
        Err(_e) => {
        },
    }
}

/// A successful parse always classified the assignment target, so the role
/// sets are never all empty: the array set or the expression set holds at
/// least the target identifier.
pub proof fn lemma_sp_parse_nonempty(toks: Seq<(int, SpecTok)>)
    ensures
        sp_parse(toks) matches Ok(roles) ==> roles.arr.len() > 0 || roles.expr.len() > 0,
{
    lemma_sp_left_bounds(toks, 0, init_st());
    match sp_left(toks, 0, init_st()) {
        Ok(p) => {
            if 0 < toks.len() && toks[0].1 is Ident {
                let name = toks[0].1->Ident_0;
                if 1 < toks.len() && toks[1].1 is LBracket {
                    let st2 = SpecSt {
                        roles: SpecRoles {
                            arr: seq_insert(init_st().roles.arr, name),
                            ..init_st().roles
                        },
                        left: Some(name),
                    };
                    lemma_sp_index_list_frame(toks, 2, st2);
                }
            }
            if p.0 < toks.len() && toks[p.0].1 is Assign {
                lemma_sp_right_frame(toks, p.0 + 1, p.1);
            }
        },
        Err(_e) => {
        },
    }
}

/// A token's value is recorded in the role sets: an identifier under one of
/// the three identifier roles, a constant under one of the two constant
/// roles; tokens that carry no value are recorded trivially.
pub open spec fn roles_contain_tok(r: SpecRoles, t: SpecTok) -> bool {
    match t {
        SpecTok::Ident(name) => r.arr.contains(name) || r.idx.contains(name) || r.expr.contains(
            name,
        ),
        SpecTok::Num(v) => r.cidx.contains(v) || r.cexpr.contains(v),
        _ => true,
    }
}

/// Whatever the first role sets record, the second record too.
pub open spec fn roles_leq(r1: SpecRoles, r2: SpecRoles) -> bool {
    &&& forall|x: Seq<char>| r1.arr.contains(x) ==> r2.arr.contains(x)
    &&& forall|x: Seq<char>| r1.idx.contains(x) ==> r2.idx.contains(x)
    &&& forall|x: Seq<char>| r1.expr.contains(x) ==> r2.expr.contains(x)
    &&& forall|v: int| r1.cidx.contains(v) ==> r2.cidx.contains(v)
    &&& forall|v: int| r1.cexpr.contains(v) ==> r2.cexpr.contains(v)
}

proof fn lemma_seq_insert_contains<A>(s: Seq<A>, a: A)
    ensures
        seq_insert(s, a).contains(a),
        forall|x: A| s.contains(x) ==> seq_insert(s, a).contains(x),
{
    if !s.contains(a) {
        assert(s.push(a)[s.len() as int] == a);
        assert forall|x: A| s.contains(x) implies seq_insert(s, a).contains(x) by {
            let k = choose|k: int| 0 <= k < s.len() && s[k] == x;
            assert(s.push(a)[k] == x);
        }
    }
}

proof fn lemma_sp_index_cover(toks: Seq<(int, SpecTok)>, i: int, st: SpecSt)
    requires
        0 <= i,
    ensures
        sp_index(toks, i, st) matches Ok(st2) ==> roles_leq(st.roles, st2.roles)
            && roles_contain_tok(st2.roles, toks[i].1),
{
    if i < toks.len() {
        match toks[i].1 {
            SpecTok::Ident(name) => {
                lemma_seq_insert_contains(st.roles.idx, name);
            },
            SpecTok::Num(v) => {
                lemma_seq_insert_contains(st.roles.cidx, v);
            },
            _ => {
            },
        }
    }
}

proof fn lemma_sp_index_list_cover(toks: Seq<(int, SpecTok)>, i: int, st: SpecSt)
    requires
        0 <= i,
    ensures
        sp_index_list(toks, i, st) matches Ok(p) ==> roles_leq(st.roles, p.1.roles) && forall|
            k: int,
        |
            i <= k < p.0 ==> roles_contain_tok(p.1.roles, (#[trigger] toks[k]).1),
    decreases toks.len() - i,
{
    lemma_sp_index_cover(toks, i, st);
    match sp_index(toks, i, st) {
        Ok(st2) => {
            if i + 1 < toks.len() && toks[i + 1].1 is Comma {
                lemma_sp_index_list_cover(toks, i + 2, st2);
            }
        },
        Err(_e) => {
        },
    }
}

proof fn lemma_sp_term_cover(toks: Seq<(int, SpecTok)>, i: int, st: SpecSt)
    requires
        0 <= i,
    ensures
        sp_term(toks, i, st) matches Ok(st2) ==> roles_leq(st.roles, st2.roles)
            && roles_contain_tok(st2.roles, toks[i].1) && st2.left == st.left,
{
    if i < toks.len() {
        match toks[i].1 {
            SpecTok::Ident(name) => {
                lemma_seq_insert_contains(st.roles.expr, name);
            },
            SpecTok::Num(v) => {
                lemma_seq_insert_contains(st.roles.cexpr, v);
            },
            _ => {
            },
        }
    }
}

proof fn lemma_sp_right_cover(toks: Seq<(int, SpecTok)>, i: int, st: SpecSt)
    requires
        0 <= i,
    ensures
        sp_right(toks, i, st) matches Ok(p) ==> roles_leq(st.roles, p.1.roles) && forall|k: int|
            i <= k < p.0 ==> roles_contain_tok(p.1.roles, (#[trigger] toks[k]).1),
    decreases toks.len() - i,
{
    lemma_sp_term_cover(toks, i, st);
    match sp_term(toks, i, st) {
        Ok(st2) => {
            if i + 1 < toks.len() && toks[i + 1].1 is Op {
                lemma_sp_right_cover(toks, i + 2, st2);
            }
        },
        Err(_e) => {
        },
    }
}

proof fn lemma_sp_left_cover(toks: Seq<(int, SpecTok)>, i: int, st: SpecSt)
    requires
        0 <= i,
    ensures
        sp_left(toks, i, st) matches Ok(p) ==> roles_leq(st.roles, p.1.roles) && forall|k: int|
            i <= k < p.0 ==> roles_contain_tok(p.1.roles, (#[trigger] toks[k]).1),
{
    if i < toks.len() {
        match toks[i].1 {
            SpecTok::Ident(name) => {
                if i + 1 < toks.len() && toks[i + 1].1 is LBracket {
                    let st2 = SpecSt {
                        roles: SpecRoles { arr: seq_insert(st.roles.arr, name), ..st.roles },
                        left: Some(name),
                    };
                    lemma_seq_insert_contains(st.roles.arr, name);
                    lemma_sp_index_list_cover(toks, i + 2, st2);
                    lemma_sp_index_list_bounds(toks, i + 2, st2);
                } else {
                    lemma_seq_insert_contains(st.roles.expr, name);
                }
            },
            _ => {
            },
        }
    }
}

/// Every identifier and constant of an accepted statement is recorded in
/// the role sets: an identifier under array, index or expression, a
/// constant under index or expression.
pub proof fn lemma_sp_parse_complete(toks: Seq<(int, SpecTok)>)
    ensures
        sp_parse(toks) matches Ok(roles) ==> forall|k: int|
            0 <= k < toks.len() ==> roles_contain_tok(roles, (#[trigger] toks[k]).1),
{
    lemma_sp_left_cover(toks, 0, init_st());
    lemma_sp_left_bounds(toks, 0, init_st());
    match sp_left(toks, 0, init_st()) {
        Ok(p) => {
            if p.0 < toks.len() && toks[p.0].1 is Assign {
                lemma_sp_right_cover(toks, p.0 + 1, p.1);
                lemma_sp_right_bounds(toks, p.0 + 1, p.1);
            }
        },
        Err(_e) => {
        },
    }
}

/// Every listed identifier is the text of some identifier token.
pub open spec fn idents_from_toks(names: Seq<Seq<char>>, toks: Seq<(int, SpecTok)>) -> bool {
    forall|m: int|
        0 <= m < names.len() ==> exists|k: int|
            0 <= k < toks.len() && (#[trigger] toks[k]).1 == SpecTok::Ident(#[trigger] names[m])
}

/// Every listed constant is the value of some constant token.
pub open spec fn nums_from_toks(vals: Seq<int>, toks: Seq<(int, SpecTok)>) -> bool {
    forall|m: int|
        0 <= m < vals.len() ==> exists|k: int|
            0 <= k < toks.len() && (#[trigger] toks[k]).1 == SpecTok::Num(#[trigger] vals[m])
}

/// Every entry of every role set has a witness token: the sets hold nothing
/// the statement does not contain.
pub open spec fn roles_from_toks(r: SpecRoles, toks: Seq<(int, SpecTok)>) -> bool {
    &&& idents_from_toks(r.arr, toks)
    &&& idents_from_toks(r.idx, toks)
    &&& idents_from_toks(r.expr, toks)
    &&& nums_from_toks(r.cidx, toks)
    &&& nums_from_toks(r.cexpr, toks)
}

proof fn lemma_insert_ident_witnessed(
    names: Seq<Seq<char>>,
    toks: Seq<(int, SpecTok)>,
    name: Seq<char>,
    k: int,
)
    requires
        idents_from_toks(names, toks),
        0 <= k < toks.len(),
        toks[k].1 == SpecTok::Ident(name),
    ensures
        idents_from_toks(seq_insert(names, name), toks),
{
    if !names.contains(name) {
        let ext = names.push(name);
        assert forall|m: int| #![trigger ext[m]] 0 <= m < ext.len() implies exists|kk: int|
            0 <= kk < toks.len() && (#[trigger] toks[kk]).1 == SpecTok::Ident(ext[m]) by {
            if m < names.len() {
                assert(ext[m] == names[m]);
            } else {
                assert(ext[m] == name);
                assert(0 <= k < toks.len() && toks[k].1 == SpecTok::Ident(ext[m]));
            }
        }
    }
}

proof fn lemma_insert_num_witnessed(
    vals: Seq<int>,
    toks: Seq<(int, SpecTok)>,
    v: int,
    k: int,
)
    requires
        nums_from_toks(vals, toks),
        0 <= k < toks.len(),
        toks[k].1 == SpecTok::Num(v),
    ensures
        nums_from_toks(seq_insert(vals, v), toks),
{
    if !vals.contains(v) {
        let ext = vals.push(v);
        assert forall|m: int| #![trigger ext[m]] 0 <= m < ext.len() implies exists|kk: int|
            0 <= kk < toks.len() && (#[trigger] toks[kk]).1 == SpecTok::Num(ext[m]) by {
            if m < vals.len() {
                assert(ext[m] == vals[m]);
            } else {
                assert(ext[m] == v);
                assert(0 <= k < toks.len() && toks[k].1 == SpecTok::Num(ext[m]));
            }
        }
    }
}

proof fn lemma_sp_index_sound(toks: Seq<(int, SpecTok)>, i: int, st: SpecSt)
    requires
        0 <= i,
        roles_from_toks(st.roles, toks),
    ensures
        sp_index(toks, i, st) matches Ok(st2) ==> roles_from_toks(st2.roles, toks),
{
    if i < toks.len() {
        match toks[i].1 {
            SpecTok::Ident(name) => {
                lemma_insert_ident_witnessed(st.roles.idx, toks, name, i);
            },
            SpecTok::Num(v) => {
                lemma_insert_num_witnessed(st.roles.cidx, toks, v, i);
            },
            _ => {
            },
        }
    }
}

proof fn lemma_sp_index_list_sound(toks: Seq<(int, SpecTok)>, i: int, st: SpecSt)
    requires
        0 <= i,
        roles_from_toks(st.roles, toks),
    ensures
        sp_index_list(toks, i, st) matches Ok(p) ==> roles_from_toks(p.1.roles, toks),
    decreases toks.len() - i,
{
    lemma_sp_index_sound(toks, i, st);
    match sp_index(toks, i, st) {
        Ok(st2) => {
            if i + 1 < toks.len() && toks[i + 1].1 is Comma {
                lemma_sp_index_list_sound(toks, i + 2, st2);
            }
        },
        Err(_e) => {
        },
    }
}

proof fn lemma_sp_term_sound(toks: Seq<(int, SpecTok)>, i: int, st: SpecSt)
    requires
        0 <= i,
        roles_from_toks(st.roles, toks),
    ensures
        sp_term(toks, i, st) matches Ok(st2) ==> roles_from_toks(st2.roles, toks),
{
    if i < toks.len() {
        match toks[i].1 {
            SpecTok::Ident(name) => {
                lemma_insert_ident_witnessed(st.roles.expr, toks, name, i);
            },
            SpecTok::Num(v) => {
                lemma_insert_num_witnessed(st.roles.cexpr, toks, v, i);
            },
            _ => {
            },
        }
    }
}

proof fn lemma_sp_right_sound(toks: Seq<(int, SpecTok)>, i: int, st: SpecSt)
    requires
        0 <= i,
        roles_from_toks(st.roles, toks),
    ensures
        sp_right(toks, i, st) matches Ok(p) ==> roles_from_toks(p.1.roles, toks),
    decreases toks.len() - i,
{
    lemma_sp_term_sound(toks, i, st);
    match sp_term(toks, i, st) {
        Ok(st2) => {
            if i + 1 < toks.len() && toks[i + 1].1 is Op {
                lemma_sp_right_sound(toks, i + 2, st2);
            }
        },
        Err(_e) => {
        },
    }
}

/// Soundness of classification: every identifier and constant an accepted
/// statement records is the text or value of one of its tokens — together
/// with completeness, a value stands in a role set exactly when the
/// statement contains it.
pub proof fn lemma_sp_parse_sound(toks: Seq<(int, SpecTok)>)
    ensures
        sp_parse(toks) matches Ok(roles) ==> roles_from_toks(roles, toks),
{
    assert(roles_from_toks(init_st().roles, toks));
    if 0 < toks.len() && toks[0].1 is Ident {
        let name = toks[0].1->Ident_0;
        if 1 < toks.len() && toks[1].1 is LBracket {
            lemma_insert_ident_witnessed(init_st().roles.arr, toks, name, 0);
            let st2 = SpecSt {
                roles: SpecRoles { arr: seq_insert(init_st().roles.arr, name), ..init_st().roles },
                left: Some(name),
            };
            lemma_sp_index_list_sound(toks, 2, st2);
        } else {
            lemma_insert_ident_witnessed(init_st().roles.expr, toks, name, 0);
        }
    }
    lemma_sp_left_bounds(toks, 0, init_st());
    match sp_left(toks, 0, init_st()) {
        Ok(p) => {
            if p.0 < toks.len() && toks[p.0].1 is Assign {
                lemma_sp_right_sound(toks, p.0 + 1, p.1);
            }
        },
        Err(_e) => {
        },
    }
}

/// No token of the list is a constant.
pub open spec fn no_num_toks(toks: Seq<(int, SpecTok)>) -> bool {
    forall|k: int| 0 <= k < toks.len() ==> !((#[trigger] toks[k]).1 is Num)
}

proof fn lemma_sp_index_no_nums(toks: Seq<(int, SpecTok)>, i: int, st: SpecSt)
    requires
        0 <= i,
        no_num_toks(toks),
    ensures
        sp_index(toks, i, st) matches Ok(st2) ==> st2.roles.cidx == st.roles.cidx
            && st2.roles.cexpr == st.roles.cexpr,
{
}

proof fn lemma_sp_index_list_no_nums(toks: Seq<(int, SpecTok)>, i: int, st: SpecSt)
    requires
        0 <= i,
        no_num_toks(toks),
    ensures
        sp_index_list(toks, i, st) matches Ok(p) ==> p.1.roles.cidx == st.roles.cidx
            && p.1.roles.cexpr == st.roles.cexpr,
    decreases toks.len() - i,
{
    lemma_sp_index_no_nums(toks, i, st);
    match sp_index(toks, i, st) {
        Ok(st2) => {
            if i + 1 < toks.len() && toks[i + 1].1 is Comma {
                lemma_sp_index_list_no_nums(toks, i + 2, st2);
            }
        },
        Err(_e) => {
        },
    }
}

proof fn lemma_sp_term_no_nums(toks: Seq<(int, SpecTok)>, i: int, st: SpecSt)
    requires
        0 <= i,
        no_num_toks(toks),
    ensures
        sp_term(toks, i, st) matches Ok(st2) ==> st2.roles.cidx == st.roles.cidx
            && st2.roles.cexpr == st.roles.cexpr,
{
}

proof fn lemma_sp_right_no_nums(toks: Seq<(int, SpecTok)>, i: int, st: SpecSt)
    requires
        0 <= i,
        no_num_toks(toks),
    ensures
        sp_right(toks, i, st) matches Ok(p) ==> p.1.roles.cidx == st.roles.cidx
            && p.1.roles.cexpr == st.roles.cexpr,
    decreases toks.len() - i,
{
    lemma_sp_term_no_nums(toks, i, st);
    match sp_term(toks, i, st) {
        Ok(st2) => {
            if i + 1 < toks.len() && toks[i + 1].1 is Op {
                lemma_sp_right_no_nums(toks, i + 2, st2);
            }
        },
        Err(_e) => {
        },
    }
}

/// Whether the role sets hold any constant at all is decided by the token
/// list: an accepted statement records a constant if and only if one of its
/// tokens is a constant.
pub proof fn lemma_sp_parse_consts_iff(toks: Seq<(int, SpecTok)>)
    ensures
        sp_parse(toks) matches Ok(roles) ==> ((roles.cidx.len() > 0 || roles.cexpr.len() > 0)
            <==> exists|k: int| 0 <= k < toks.len() && (#[trigger] toks[k]).1 is Num),
{
    if sp_parse(toks) is Ok {
        let roles = sp_parse(toks)->Ok_0;
        if exists|k: int| 0 <= k < toks.len() && (#[trigger] toks[k]).1 is Num {
            let k = choose|k: int| 0 <= k < toks.len() && (#[trigger] toks[k]).1 is Num;
            lemma_sp_parse_complete(toks);
            assert(roles_contain_tok(roles, toks[k].1));
        } else {
            assert(no_num_toks(toks));
            lemma_sp_left_bounds(toks, 0, init_st());
            match sp_left(toks, 0, init_st()) {
                Ok(p) => {
                    if 0 < toks.len() && toks[0].1 is Ident {
                        let name = toks[0].1->Ident_0;
                        if 1 < toks.len() && toks[1].1 is LBracket {
                            let st2 = SpecSt {
                                roles: SpecRoles {
                                    arr: seq_insert(init_st().roles.arr, name),
                                    ..init_st().roles
                                },
                                left: Some(name),
                            };
                            lemma_sp_index_list_no_nums(toks, 2, st2);
                        }
                    }
                    if p.0 < toks.len() && toks[p.0].1 is Assign {
                        lemma_sp_right_no_nums(toks, p.0 + 1, p.1);
                    }
                },
                Err(_e) => {
                },
            }
        }
    }
}

proof fn lemma_seq_insert_keeps_out<A>(s: Seq<A>, x: A, a: A)
    requires
        !s.contains(a),
        x != a,
    ensures
        !seq_insert(s, x).contains(a),
{
    if !s.contains(x) {
        assert forall|k: int| 0 <= k < s.push(x).len() implies s.push(x)[k] != a by {
            if k < s.len() {
                assert(s.push(x)[k] == s[k]);
            }
        }
    }
}

proof fn lemma_sp_right_keeps_left_out(toks: Seq<(int, SpecTok)>, i: int, st: SpecSt)
    requires
        0 <= i,
        st.left is Some,
        !st.roles.expr.contains(st.left.unwrap()),
    ensures
        sp_right(toks, i, st) matches Ok(p) ==> !p.1.roles.expr.contains(st.left.unwrap()),
    decreases toks.len() - i,
{
    let a = st.left.unwrap();
    match sp_term(toks, i, st) {
        Ok(st2) => {
            if i < toks.len() {
                match toks[i].1 {
                    SpecTok::Ident(name) => {
                        lemma_seq_insert_keeps_out(st.roles.expr, name, a);
                    },
                    _ => {
                    },
                }
            }
            if i + 1 < toks.len() && toks[i + 1].1 is Op {
                lemma_sp_right_keeps_left_out(toks, i + 2, st2);
            }
        },
        Err(_e) => {
        },
    }
}

/// The name of the array assigned to, read off the token list itself: the
/// first token where the second opens a bracket.
pub open spec fn target_array(toks: Seq<(int, SpecTok)>) -> Option<Seq<char>> {
    if toks.len() >= 2 && toks[0].1 is Ident && toks[1].1 is LBracket {
        Some(toks[0].1->Ident_0)
    } else {
        None
    }
}

/// In an accepted statement whose target is an indexed array, the array's
/// name is classified as an array name and never as an expression operand:
/// the self-assignment check keeps it off the right-hand side.
pub proof fn lemma_sp_parse_left_array_not_expr(toks: Seq<(int, SpecTok)>)
    ensures
        (sp_parse(toks) matches Ok(roles) && target_array(toks) is Some) ==> !(sp_parse(
            toks,
        )->Ok_0).expr.contains(target_array(toks).unwrap()),
{
    if target_array(toks) is Some {
        let a = target_array(toks).unwrap();
        let st2 = SpecSt {
            roles: SpecRoles { arr: seq_insert(init_st().roles.arr, a), ..init_st().roles },
            left: Some(a),
        };
        lemma_sp_index_list_frame(toks, 2, st2);
        lemma_sp_index_list_bounds(toks, 2, st2);
        match sp_left(toks, 0, init_st()) {
            Ok(p) => {
                if p.0 < toks.len() && toks[p.0].1 is Assign {
                    lemma_sp_right_keeps_left_out(toks, p.0 + 1, p.1);
                }
            },
            Err(_e) => {
            },
        }
    }
}

/// A vector of strings, abstracted to the sequence of their views.
pub open spec fn strs_view(v: Seq<String>) -> Seq<Seq<char>> {
    v.map_values(|s: String| s@)
}

/// A vector of machine integers, abstracted to mathematical integers.
pub open spec fn ints_view(v: Seq<i32>) -> Seq<int> {
    v.map_values(|x: i32| x as int)
}

/// An optional report against its mathematical counterpart.
pub open spec fn opt_str_matches(o: Option<String>, s: Option<Seq<char>>) -> bool {
    match (o, s) {
        (Some(x), Some(y)) => x@ == y,
        (None, None) => true,
        _ => false,
    }
}

/// Set-style insertion into an insertion-ordered vector of strings.
#[verifier::loop_isolation(false)]
fn insert_str(v: &mut Vec<String>, s: String)
    ensures
        strs_view(final(v)@) == seq_insert(strs_view(old(v)@), s@),
{
    let ghost sv = strs_view(old(v)@);
    let n = v.len();
    let mut k: usize = 0;
    while k < n
        invariant
            v == old(v),
            k <= n,
            n == v@.len(),
            forall|m: int| 0 <= m < k ==> strs_view(v@)[m] != s@,
        decreases n - k,
    {
        if s.eq(&v[k]) {
            proof {
                assert(sv[k as int] == s@);
                assert(sv.contains(s@));
            }
            return ;
        }
        k += 1;
    }
    proof {
        assert(!sv.contains(s@));
    }
    v.push(s);
    proof {
        assert(strs_view(v@) =~= sv.push(s@));
    }
}

/// Set-style insertion into an insertion-ordered vector of integers.
#[verifier::loop_isolation(false)]
fn insert_i32(v: &mut Vec<i32>, x: i32)
    ensures
        ints_view(final(v)@) == seq_insert(ints_view(old(v)@), x as int),
{
    let ghost iv = ints_view(old(v)@);
    let n = v.len();
    let mut k: usize = 0;
    while k < n
        invariant
            v == old(v),
            k <= n,
            n == v@.len(),
            forall|m: int| 0 <= m < k ==> ints_view(v@)[m] != x as int,
        decreases n - k,
    {
        if v[k] == x {
            proof {
                assert(iv[k as int] == x as int);
                assert(iv.contains(x as int));
            }
            return ;
        }
        k += 1;
    }
    proof {
        assert(!iv.contains(x as int));
    }
    v.push(x);
    proof {
        assert(ints_view(v@) =~= iv.push(x as int));
    }
}

/// Appends one report line per listed identifier.
#[verifier::loop_isolation(false)]
fn append_id_lines(out: &mut String, v: &Vec<String>, tag: &str)
    ensures
        final(out)@ == old(out)@ + id_lines(strs_view(v@), tag@),
{
    let ghost base = old(out)@;
    let ghost sv = strs_view(v@);
    let n = v.len();
    let mut k: usize = 0;
    proof {
        assert(base + id_lines(sv.take(0), tag@) =~= base);
    }
    while k < n
        invariant
            k <= n,
            n == v@.len(),
            out@ == base + id_lines(sv.take(k as int), tag@),
        decreases n - k,
    {
        out.append(v[k].as_str());
        out.append(" - ");
        out.append(tag);
        out.append("\n");
        proof {
            assert(sv.take(k as int + 1).drop_last() =~= sv.take(k as int));
            assert(sv.take(k as int + 1).last() == sv[k as int]);
            assert(id_lines(sv.take(k as int + 1), tag@) == id_lines(sv.take(k as int), tag@)
                + id_line(sv[k as int], tag@));
            assert(out@ =~= base + id_lines(sv.take(k as int + 1), tag@));
        }
        k += 1;
    }
    proof {
        assert(sv.take(n as int) =~= sv);
    }
}

/// Appends one report line per listed constant.
#[verifier::loop_isolation(false)]
fn append_const_lines(out: &mut String, v: &Vec<i32>, tag: &str)
    requires
        forall|m: int| 0 <= m < v@.len() ==> 0 <= #[trigger] v@[m],
    ensures
        final(out)@ == old(out)@ + const_lines(ints_view(v@), tag@),
{
    let ghost base = old(out)@;
    let ghost iv = ints_view(v@);
    let n = v.len();
    let mut k: usize = 0;
    proof {
        assert(base + const_lines(iv.take(0), tag@) =~= base);
    }
    while k < n
        invariant
            k <= n,
            n == v@.len(),
            out@ == base + const_lines(iv.take(k as int), tag@),
        decreases n - k,
    {
        let x = v[k];
        let digits = format_u32(x as u32);
        out.append(digits.as_str());
        out.append(" - ");
        out.append(tag);
        out.append("\n");
        proof {
            assert(iv.take(k as int + 1).drop_last() =~= iv.take(k as int));
            assert(iv.take(k as int + 1).last() == iv[k as int]);
            assert(const_lines(iv.take(k as int + 1), tag@) == const_lines(iv.take(k as int), tag@)
                + const_line(iv[k as int], tag@));
            assert(out@ =~= base + const_lines(iv.take(k as int + 1), tag@));
        }
        k += 1;
    }
    proof {
        assert(iv.take(n as int) =~= iv);
    }
}

/// Executable parser state: the token list with a cursor, the five role
/// vectors (insertion-ordered, duplicate-free), and the left array name.
pub struct Parser {
    pub tokens: Vec<(usize, Token)>,
    pub i: usize,
    pub ids_array: Vec<String>,
    pub ids_index: Vec<String>,
    pub ids_expr: Vec<String>,
    pub const_index: Vec<i32>,
    pub const_expr: Vec<i32>,
    pub left_array_name: Option<String>,
}

impl Parser {
    pub open spec fn toks(&self) -> Seq<(int, SpecTok)> {
        toks_abs(self.tokens@)
    }

    /// The mathematical state threaded through the grammar walk.
    pub open spec fn st(&self) -> SpecSt {
        SpecSt {
            roles: SpecRoles {
                arr: strs_view(self.ids_array@),
                idx: strs_view(self.ids_index@),
                expr: strs_view(self.ids_expr@),
                cidx: ints_view(self.const_index@),
                cexpr: ints_view(self.const_expr@),
            },
            left: match self.left_array_name {
                Some(s) => Some(s@),
                None => None,
            },
        }
    }

    pub open spec fn wf(&self) -> bool {
        self.i <= self.tokens@.len()
    }

    pub fn new(tokens: Vec<(usize, Token)>) -> (p: Parser)
        ensures
            p.tokens == tokens,
            p.i == 0,
            p.st() == init_st(),
            p.wf(),
    {
        let p = Parser {
            tokens,
            i: 0,
            ids_array: Vec::new(),
            ids_index: Vec::new(),
            ids_expr: Vec::new(),
            const_index: Vec::new(),
            const_expr: Vec::new(),
            left_array_name: None,
        };
        proof {
            assert(strs_view(Seq::<String>::empty()) =~= Seq::<Seq<char>>::empty());
            assert(ints_view(Seq::<i32>::empty()) =~= Seq::<int>::empty());
        }
        p
    }

    /// The offset of the last consumed token, 0 when none was consumed yet:
    /// where an error is placed when the token list is exhausted.
    pub fn get_current_position(&self) -> (r: usize)
        requires
            self.wf(),
        ensures
            r as int == last_pos(self.toks(), self.i as int),
    {
        if 1 <= self.i && self.i <= self.tokens.len() {
            self.tokens[self.i - 1].0
        } else {
            0
        }
    }

    /// Consumes one token and requires it to equal `expected`; reports
    /// `msg_some` at the offending token, or `msg_none` at the last consumed
    /// offset when the list is exhausted.
    pub fn expect(&mut self, expected: &Token, msg_some: &str, msg_none: &str) -> (r: Result<
        (),
        AnalysisError,
    >)
        requires
            old(self).wf(),
        ensures
            final(self).tokens == old(self).tokens,
            final(self).st() == old(self).st(),
            final(self).wf(),
            ({
                let toks = toks_abs(old(self).tokens@);
                let i = old(self).i as int;
                if i < toks.len() {
                    &&& final(self).i == i + 1
                    &&& if toks[i].1 == expected@ {
                        r is Ok
                    } else {
                        r matches Err(e) && e@ == SpecErr::Syn(toks[i].0, msg_some@)
                    }
                } else {
                    &&& final(self).i == i
                    &&& r matches Err(e) && e@ == SpecErr::Syn(last_pos(toks, i), msg_none@)
                }
            }),
    {
        if self.i >= self.tokens.len() {
            let pos = self.get_current_position();
            return Err(AnalysisError::Syntax(pos, String::from_str(msg_none)));
        }
        let ok = token_eq(&self.tokens[self.i].1, expected);
        let pos = self.tokens[self.i].0;
        self.i = self.i + 1;
        if ok {
            Ok(())
        } else {
            Err(AnalysisError::Syntax(pos, String::from_str(msg_some)))
        }
    }

    /// Consumes one token and requires it to be an identifier, whose
    /// (upper-case) text it returns.
    pub fn parse_identifier(&mut self) -> (r: Result<String, AnalysisError>)
        requires
            old(self).wf(),
        ensures
            final(self).tokens == old(self).tokens,
            final(self).st() == old(self).st(),
            final(self).wf(),
            ({
                let toks = toks_abs(old(self).tokens@);
                let i = old(self).i as int;
                if i < toks.len() && toks[i].1 is Ident {
                    &&& r matches Ok(name) && name@ == toks[i].1->Ident_0
                    &&& final(self).i == i + 1
                } else if i < toks.len() {
                    r matches Err(e) && e@ == SpecErr::Syn(toks[i].0, msg_expected_ident())
                } else {
                    r matches Err(e) && e@ == SpecErr::Syn(last_pos(toks, i), msg_expected_ident())
                }
            }),
    {
        if self.i >= self.tokens.len() {
            let pos = self.get_current_position();
            return Err(AnalysisError::Syntax(pos, String::from_str("expected an identifier")));
        }
        let name_opt = match &self.tokens[self.i].1 {
            Token::Identifier(s) => Some(s.clone()),
            _ => None,
        };
        let pos = self.tokens[self.i].0;
        self.i = self.i + 1;
        match name_opt {
            Some(name) => Ok(name),
            None => Err(AnalysisError::Syntax(pos, String::from_str("expected an identifier"))),
        }
    }

    /// Consumes one token and requires it to be a constant, whose value it
    /// returns.
    pub fn parse_constant(&mut self) -> (r: Result<i32, AnalysisError>)
        requires
            old(self).wf(),
        ensures
            final(self).tokens == old(self).tokens,
            final(self).st() == old(self).st(),
            final(self).wf(),
            ({
                let toks = toks_abs(old(self).tokens@);
                let i = old(self).i as int;
                if i < toks.len() && toks[i].1 is Num {
                    &&& r matches Ok(c) && c as int == toks[i].1->Num_0
                    &&& final(self).i == i + 1
                } else {
                    r is Err
                }
            }),
    {
        if self.i >= self.tokens.len() {
            let pos = self.get_current_position();
            return Err(AnalysisError::Syntax(pos, String::from_str("expected a constant")));
        }
        let val_opt = match &self.tokens[self.i].1 {
            Token::Constant(c) => Some(*c),
            _ => None,
        };
        let pos = self.tokens[self.i].0;
        self.i = self.i + 1;
        match val_opt {
            Some(c) => Ok(c),
            None => Err(AnalysisError::Syntax(pos, String::from_str("expected a constant"))),
        }
    }

    /// One index of the target's bracket list, classified as an index
    /// identifier or an index constant.
    pub fn parse_index(&mut self) -> (r: Result<(), AnalysisError>)
        requires
            old(self).wf(),
        ensures
            final(self).tokens == old(self).tokens,
            final(self).wf(),
            match sp_index(toks_abs(old(self).tokens@), old(self).i as int, old(self).st()) {
                Ok(st2) => r is Ok && final(self).i == old(self).i + 1 && final(self).st() == st2,
                Err(e) => r matches Err(ae) && ae@ == e && final(self).st() == old(self).st(),
            },
    {
        if self.i >= self.tokens.len() {
            let pos = self.get_current_position();
            return Err(
                AnalysisError::Syntax(
                    pos,
                    String::from_str("expected an index but reached end of input"),
                ),
            );
        }
        let is_ident = match &self.tokens[self.i].1 {
            Token::Identifier(_) => true,
            _ => false,
        };
        if is_ident {
            let name = match self.parse_identifier() {
                Ok(n) => n,
                Err(e) => {
                    return Err(e);
                },
            };
            insert_str(&mut self.ids_index, name);
            return Ok(());
        }
        let is_const = match &self.tokens[self.i].1 {
            Token::Constant(_) => true,
            _ => false,
        };
        if is_const {
            let c = match self.parse_constant() {
                Ok(c) => c,
                Err(e) => {
                    return Err(e);
                },
            };
            insert_i32(&mut self.const_index, c);
            return Ok(());
        }
        let pos = self.tokens[self.i].0;
        self.i = self.i + 1;
        Err(
            AnalysisError::Syntax(
                pos,
                String::from_str("expected an identifier or constant in the index"),
            ),
        )
    }

    /// The comma-separated index list between the target's brackets.
    #[verifier::loop_isolation(false)]
    pub fn parse_index_list(&mut self) -> (r: Result<(), AnalysisError>)
        requires
            old(self).wf(),
        ensures
            final(self).tokens == old(self).tokens,
            final(self).wf(),
            match sp_index_list(toks_abs(old(self).tokens@), old(self).i as int, old(self).st()) {
                Ok((j, st2)) => r is Ok && final(self).i == j && final(self).st() == st2,
                Err(e) => r matches Err(ae) && ae@ == e,
            },
    {
        let ghost toks = toks_abs(old(self).tokens@);
        let ghost i0 = old(self).i as int;
        let ghost st0 = old(self).st();
        loop
            invariant
                self.tokens == old(self).tokens,
                self.wf(),
                toks.len() == self.tokens@.len(),
                sp_index_list(toks, i0, st0) == sp_index_list(toks, self.i as int, self.st()),
            decreases toks.len() - self.i,
        {
            let ghost i_here = self.i as int;
            let ghost st_here = self.st();
            match self.parse_index() {
                Err(e) => {
                    proof {
                        assert(sp_index_list(toks, i_here, st_here) == Err::<
                            (int, SpecSt),
                            SpecErr,
                        >(e@));
                    }
                    return Err(e);
                },
                Ok(_u) => {},
            }
            let has_comma = self.i < self.tokens.len() && (match &self.tokens[self.i].1 {
                Token::Comma => true,
                _ => false,
            });
            proof {
                if self.i < self.tokens@.len() {
                    assert(toks[self.i as int] == (
                        self.tokens@[self.i as int].0 as int,
                        self.tokens@[self.i as int].1@,
                    ));
                }
            }
            if has_comma {
                self.i = self.i + 1;
                proof {
                    assert(sp_index_list(toks, i_here, st_here) == sp_index_list(
                        toks,
                        self.i as int,
                        self.st(),
                    ));
                }
            } else {
                proof {
                    assert(sp_index_list(toks, i_here, st_here) == Ok::<
                        (int, SpecSt),
                        SpecErr,
                    >((self.i as int, self.st())));
                }
                return Ok(());
            }
        }
    }

    /// One term of the right-hand side, with the self-assignment check
    /// against the left array name.
    pub fn parse_term(&mut self) -> (r: Result<(), AnalysisError>)
        requires
            old(self).wf(),
        ensures
            final(self).tokens == old(self).tokens,
            final(self).wf(),
            match sp_term(toks_abs(old(self).tokens@), old(self).i as int, old(self).st()) {
                Ok(st2) => r is Ok && final(self).i == old(self).i + 1 && final(self).st() == st2,
                Err(e) => r matches Err(ae) && ae@ == e && final(self).st() == old(self).st(),
            },
    {
        if self.i >= self.tokens.len() {
            let pos = self.get_current_position();
            return Err(
                AnalysisError::Syntax(
                    pos,
                    String::from_str("expected an identifier or constant in the right-hand side"),
                ),
            );
        }
        let is_ident = match &self.tokens[self.i].1 {
            Token::Identifier(_) => true,
            _ => false,
        };
        if is_ident {
            let pos = self.tokens[self.i].0;
            let name = match self.parse_identifier() {
                Ok(n) => n,
                Err(e) => {
                    return Err(e);
                },
            };
            let is_self = match &self.left_array_name {
                Some(a) => a.eq(&name),
                None => false,
            };
            if is_self {
                return Err(
                    AnalysisError::Semantic(
                        pos,
                        String::from_str("array cannot appear on the right-hand side"),
                    ),
                );
            }
            insert_str(&mut self.ids_expr, name);
            return Ok(());
        }
        let is_const = match &self.tokens[self.i].1 {
            Token::Constant(_) => true,
            _ => false,
        };
        if is_const {
            let c = match self.parse_constant() {
                Ok(c) => c,
                Err(e) => {
                    return Err(e);
                },
            };
            insert_i32(&mut self.const_expr, c);
            return Ok(());
        }
        let pos = self.tokens[self.i].0;
        self.i = self.i + 1;
        Err(
            AnalysisError::Syntax(
                pos,
                String::from_str("expected an identifier or constant in the right-hand side"),
            ),
        )
    }

    /// The right-hand side: terms chained by binary operators.
    #[verifier::loop_isolation(false)]
    pub fn parse_right_part(&mut self) -> (r: Result<(), AnalysisError>)
        requires
            old(self).wf(),
        ensures
            final(self).tokens == old(self).tokens,
            final(self).wf(),
            match sp_right(toks_abs(old(self).tokens@), old(self).i as int, old(self).st()) {
                Ok((j, st2)) => r is Ok && final(self).i == j && final(self).st() == st2,
                Err(e) => r matches Err(ae) && ae@ == e,
            },
    {
        let ghost toks = toks_abs(old(self).tokens@);
        let ghost i0 = old(self).i as int;
        let ghost st0 = old(self).st();
        loop
            invariant
                self.tokens == old(self).tokens,
                self.wf(),
                toks.len() == self.tokens@.len(),
                sp_right(toks, i0, st0) == sp_right(toks, self.i as int, self.st()),
            decreases toks.len() - self.i,
        {
            let ghost i_here = self.i as int;
            let ghost st_here = self.st();
            match self.parse_term() {
                Err(e) => {
                    proof {
                        assert(sp_right(toks, i_here, st_here) == Err::<(int, SpecSt), SpecErr>(
                            e@,
                        ));
                    }
                    return Err(e);
                },
                Ok(_u) => {},
            }
            let has_op = self.i < self.tokens.len() && (match &self.tokens[self.i].1 {
                Token::Operation(_) => true,
                _ => false,
            });
            proof {
                if self.i < self.tokens@.len() {
                    assert(toks[self.i as int] == (
                        self.tokens@[self.i as int].0 as int,
                        self.tokens@[self.i as int].1@,
                    ));
                }
            }
            if has_op {
                self.i = self.i + 1;
                proof {
                    assert(sp_right(toks, i_here, st_here) == sp_right(
                        toks,
                        self.i as int,
                        self.st(),
                    ));
                }
            } else {
                proof {
                    assert(sp_right(toks, i_here, st_here) == Ok::<(int, SpecSt), SpecErr>(
                        (self.i as int, self.st()),
                    ));
                }
                return Ok(());
            }
        }
    }

    /// The assignment target: a bare identifier, or an array name with a
    /// bracketed index list, remembered for the self-assignment check.
    pub fn parse_left_part(&mut self) -> (r: Result<(), AnalysisError>)
        requires
            old(self).wf(),
        ensures
            final(self).tokens == old(self).tokens,
            final(self).wf(),
            match sp_left(toks_abs(old(self).tokens@), old(self).i as int, old(self).st()) {
                Ok((j, st2)) => r is Ok && final(self).i == j && final(self).st() == st2,
                Err(e) => r matches Err(ae) && ae@ == e,
            },
    {
        let name = match self.parse_identifier() {
            Ok(n) => n,
            Err(e) => {
                return Err(e);
            },
        };
        let has_bracket = self.i < self.tokens.len() && (match &self.tokens[self.i].1 {
            Token::LeftBracket => true,
            _ => false,
        });
        if has_bracket {
            self.i = self.i + 1;
            self.left_array_name = Some(name.clone());
            insert_str(&mut self.ids_array, name);
            match self.parse_index_list() {
                Err(e) => {
                    return Err(e);
                },
                Ok(_u) => {},
            }
            self.expect(
                &Token::RightBracket,
                "expected ']'",
                "expected ']' but reached end of input",
            )
        } else {
            self.left_array_name = None;
            insert_str(&mut self.ids_expr, name);
            Ok(())
        }
    }

    /// The whole statement: target, `:=`, expression, `;`, and nothing
    /// after. On success the role sets are exactly those of `sp_parse`.
    pub fn parse(&mut self) -> (r: Result<(), AnalysisError>)
        requires
            old(self).wf(),
            old(self).i == 0,
            old(self).st() == init_st(),
        ensures
            final(self).tokens == old(self).tokens,
            final(self).wf(),
            match sp_parse(toks_abs(old(self).tokens@)) {
                Ok(roles) => r is Ok && final(self).st().roles == roles,
                Err(e) => r matches Err(ae) && ae@ == e,
            },
    {
        match self.parse_left_part() {
            Err(e) => {
                return Err(e);
            },
            Ok(_u) => {},
        }
        match self.expect(&Token::Assign, "expected ':='", "expected ':=' but reached end of input")
            {
            Err(e) => {
                return Err(e);
            },
            Ok(_u) => {},
        }
        match self.parse_right_part() {
            Err(e) => {
                return Err(e);
            },
            Ok(_u) => {},
        }
        match self.expect(&Token::Semicolon, "expected ';'", "expected ';' but reached end of input")
            {
            Err(e) => {
                return Err(e);
            },
            Ok(_u) => {},
        }
        if self.i < self.tokens.len() {
            let pos = self.tokens[self.i].0;
            self.i = self.i + 1;
            return Err(AnalysisError::Syntax(pos, String::from_str("trailing content after ';'")));
        }
        Ok(())
    }

    /// Renders the accumulated role sets as the two reports; both absent when
    /// nothing was classified.
    pub fn finish(self) -> (r: (Option<String>, Option<String>))
        requires
            forall|m: int| 0 <= m < self.const_index@.len() ==> 0 <= #[trigger] self.const_index@[m],
            forall|m: int| 0 <= m < self.const_expr@.len() ==> 0 <= #[trigger] self.const_expr@[m],
        ensures
            ({
                let (si, sc) = spec_finish(self.st().roles);
                opt_str_matches(r.0, si) && opt_str_matches(r.1, sc)
            }),
    {
        let empty = self.ids_array.len() == 0 && self.ids_index.len() == 0 && self.ids_expr.len()
            == 0 && self.const_index.len() == 0 && self.const_expr.len() == 0;
        if empty {
            return (None, None);
        }
        let mut ids = String::new();
        append_id_lines(&mut ids, &self.ids_array, "array");
        append_id_lines(&mut ids, &self.ids_index, "index");
        append_id_lines(&mut ids, &self.ids_expr, "expression");
        let mut consts = String::new();
        append_const_lines(&mut consts, &self.const_index, "index");
        append_const_lines(&mut consts, &self.const_expr, "expression");
        (Some(ids), Some(consts))
    }
}

} // verus!