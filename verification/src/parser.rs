//! Recursive-descent parser: tokens to a `SelectStmt`.
//!
//! The grammar (keywords are case-insensitive):
//!
//! ```text
//! query       := select_stmt ";"? END
//! select_stmt := SELECT item ("," item)* FROM ident
//!                (WHERE expr)? (GROUP BY ident ("," ident)*)? (LIMIT integer)?
//! item        := "*" | expr (AS ident)?
//! expr        := and_expr (OR and_expr)*
//! and_expr    := not_expr (AND not_expr)*
//! not_expr    := NOT not_expr | compare_expr
//! compare_expr    := add_expr (compare_op add_expr)?
//! add_expr    := mul_expr (("+" | "-") mul_expr)*
//! mul_expr    := unary (("*" | "/") unary)*
//! unary       := "-" primary | primary
//! primary     := "(" expr ")" | func "(" ("*" | expr) ")" | literal | column
//! ```
use vstd::prelude::*;

use crate::ast::{
    items_view, opt_expr_view, strings_view, AggFunc, BinOp, Expr, JoinClause, OrderByItem, SelectItem,
    SelectStmt, SpecExpr, SpecJoinClause, SpecOrderByItem, SpecSelectItem, SpecSelectStmt, SpecValue,
    UnaryOp, Value,
};
use crate::lexer::{
    ci_match, ci_match_exec, is_digit, lemma_digits_end, lemma_lex_step_advances, lex_from, lex_step,
    spec_tokenize, str_chars, tokenize, tokens_view, Keyword, LexError, SpecToken, Step, Token,
};

verus! {

/// Why a text is not a query of the SQL subset.
#[derive(Debug, Clone, Copy, PartialEq, Eq, Structural)]
pub enum ParseError {
    /// The text could not be split into tokens.
    Lex(LexError),
    /// The token at this position (or the end of input, if it equals the
    /// number of tokens) is not allowed there.
    Unexpected(usize),
    /// The function name at this token position is not an aggregate.
    UnknownFunction(usize),
    /// The integer literal at this token position does not fit its type.
    OutOfRange(usize),
}

/// The marker type of the SQL grammar.
pub struct SqlParser;

// ── Specification ────────────────────────────────────────────────────────────

/// The value of a string of decimal digits.
pub open spec fn digits_value(d: Seq<char>) -> int
    decreases d.len(),
{
    if d.len() == 0 {
        0
    } else {
        digits_value(d.drop_last()) * 10 + (d.last() as int - '0' as int)
    }
}

pub open spec fn tok(ts: Seq<SpecToken>, i: int) -> Option<SpecToken> {
    if 0 <= i < ts.len() {
        Some(ts[i])
    } else {
        None
    }
}

pub open spec fn is_kw(ts: Seq<SpecToken>, i: int, k: Keyword) -> bool {
    tok(ts, i) == Some(SpecToken::Keyword(k))
}

pub open spec fn compare_op_of(t: Option<SpecToken>) -> Option<BinOp> {
    match t {
        Some(SpecToken::Eq) => Some(BinOp::Eq),
        Some(SpecToken::Ne) => Some(BinOp::Ne),
        Some(SpecToken::Lt) => Some(BinOp::Lt),
        Some(SpecToken::Le) => Some(BinOp::Le),
        Some(SpecToken::Gt) => Some(BinOp::Gt),
        Some(SpecToken::Ge) => Some(BinOp::Ge),
        _ => None,
    }
}

pub open spec fn add_op_of(t: Option<SpecToken>) -> Option<BinOp> {
    match t {
        Some(SpecToken::Plus) => Some(BinOp::Add),
        Some(SpecToken::Minus) => Some(BinOp::Sub),
        _ => None,
    }
}

pub open spec fn mul_op_of(t: Option<SpecToken>) -> Option<BinOp> {
    match t {
        Some(SpecToken::Star) => Some(BinOp::Mul),
        Some(SpecToken::Slash) => Some(BinOp::Div),
        _ => None,
    }
}

/// The aggregate named by `n`, ignoring ASCII case.
pub open spec fn agg_of(n: Seq<char>) -> Option<AggFunc> {
    if ci_match(n, "COUNT"@) {
        Some(AggFunc::Count)
    } else if ci_match(n, "SUM"@) {
        Some(AggFunc::Sum)
    } else if ci_match(n, "AVG"@) {
        Some(AggFunc::Avg)
    } else if ci_match(n, "MIN"@) {
        Some(AggFunc::Min)
    } else if ci_match(n, "MAX"@) {
        Some(AggFunc::Max)
    } else {
        None
    }
}

pub open spec fn bin(op: BinOp, l: SpecExpr, r: SpecExpr) -> SpecExpr {
    SpecExpr::BinOp { op, left: Box::new(l), right: Box::new(r) }
}

/// A parse of a phrase starting at a token position: the phrase and the
/// position after it.  In the rules below, the branches guarded by
/// "position did not move backwards" are never taken; they only make the
/// recursion visibly well-founded.
pub type SpecParse<T> = Result<(T, int), ParseError>;

pub open spec fn p_expr(ts: Seq<SpecToken>, i: int) -> SpecParse<SpecExpr>
    decreases ts.len() - i, 20nat,
{
    p_or(ts, i)
}

pub open spec fn p_or(ts: Seq<SpecToken>, i: int) -> SpecParse<SpecExpr>
    decreases ts.len() - i, 19nat,
{
    match p_and(ts, i) {
        Ok((l, j)) => if i <= j <= ts.len() {
            p_or_rest(ts, j, l)
        } else {
            Err(ParseError::Unexpected(i as usize))
        },
        Err(e) => Err(e),
    }
}

pub open spec fn p_or_rest(ts: Seq<SpecToken>, i: int, left: SpecExpr) -> SpecParse<SpecExpr>
    decreases ts.len() - i, 18nat,
{
    if is_kw(ts, i, Keyword::Or) {
        match p_and(ts, i + 1) {
            Ok((r, j)) => if i < j <= ts.len() {
                p_or_rest(ts, j, bin(BinOp::Or, left, r))
            } else {
                Err(ParseError::Unexpected(i as usize))
            },
            Err(e) => Err(e),
        }
    } else {
        Ok((left, i))
    }
}

pub open spec fn p_and(ts: Seq<SpecToken>, i: int) -> SpecParse<SpecExpr>
    decreases ts.len() - i, 17nat,
{
    match p_not(ts, i) {
        Ok((l, j)) => if i <= j <= ts.len() {
            p_and_rest(ts, j, l)
        } else {
            Err(ParseError::Unexpected(i as usize))
        },
        Err(e) => Err(e),
    }
}

pub open spec fn p_and_rest(ts: Seq<SpecToken>, i: int, left: SpecExpr) -> SpecParse<SpecExpr>
    decreases ts.len() - i, 16nat,
{
    if is_kw(ts, i, Keyword::And) {
        match p_not(ts, i + 1) {
            Ok((r, j)) => if i < j <= ts.len() {
                p_and_rest(ts, j, bin(BinOp::And, left, r))
            } else {
                Err(ParseError::Unexpected(i as usize))
            },
            Err(e) => Err(e),
        }
    } else {
        Ok((left, i))
    }
}

pub open spec fn p_not(ts: Seq<SpecToken>, i: int) -> SpecParse<SpecExpr>
    decreases ts.len() - i, 15nat,
{
    if is_kw(ts, i, Keyword::Not) {
        match p_not(ts, i + 1) {
            Ok((e, j)) => Ok((SpecExpr::Unary { op: UnaryOp::Not, expr: Box::new(e) }, j)),
            Err(e) => Err(e),
        }
    } else {
        p_compare(ts, i)
    }
}

pub open spec fn p_compare(ts: Seq<SpecToken>, i: int) -> SpecParse<SpecExpr>
    decreases ts.len() - i, 14nat,
{
    match p_add(ts, i) {
        Ok((l, j)) => if i <= j <= ts.len() {
            match compare_op_of(tok(ts, j)) {
                Some(op) => match p_add(ts, j + 1) {
                    Ok((r, k)) => Ok((bin(op, l, r), k)),
                    Err(e) => Err(e),
                },
                None => Ok((l, j)),
            }
        } else {
            Err(ParseError::Unexpected(i as usize))
        },
        Err(e) => Err(e),
    }
}

pub open spec fn p_add(ts: Seq<SpecToken>, i: int) -> SpecParse<SpecExpr>
    decreases ts.len() - i, 13nat,
{
    match p_mul(ts, i) {
        Ok((l, j)) => if i <= j <= ts.len() {
            p_add_rest(ts, j, l)
        } else {
            Err(ParseError::Unexpected(i as usize))
        },
        Err(e) => Err(e),
    }
}

pub open spec fn p_add_rest(ts: Seq<SpecToken>, i: int, left: SpecExpr) -> SpecParse<SpecExpr>
    decreases ts.len() - i, 12nat,
{
    match add_op_of(tok(ts, i)) {
        Some(op) => match p_mul(ts, i + 1) {
            Ok((r, j)) => if i < j <= ts.len() {
                p_add_rest(ts, j, bin(op, left, r))
            } else {
                Err(ParseError::Unexpected(i as usize))
            },
            Err(e) => Err(e),
        },
        None => Ok((left, i)),
    }
}

pub open spec fn p_mul(ts: Seq<SpecToken>, i: int) -> SpecParse<SpecExpr>
    decreases ts.len() - i, 11nat,
{
    match p_unary(ts, i) {
        Ok((l, j)) => if i <= j <= ts.len() {
            p_mul_rest(ts, j, l)
        } else {
            Err(ParseError::Unexpected(i as usize))
        },
        Err(e) => Err(e),
    }
}

pub open spec fn p_mul_rest(ts: Seq<SpecToken>, i: int, left: SpecExpr) -> SpecParse<SpecExpr>
    decreases ts.len() - i, 10nat,
{
    match mul_op_of(tok(ts, i)) {
        Some(op) => match p_unary(ts, i + 1) {
            Ok((r, j)) => if i < j <= ts.len() {
                p_mul_rest(ts, j, bin(op, left, r))
            } else {
                Err(ParseError::Unexpected(i as usize))
            },
            Err(e) => Err(e),
        },
        None => Ok((left, i)),
    }
}

pub open spec fn p_unary(ts: Seq<SpecToken>, i: int) -> SpecParse<SpecExpr>
    decreases ts.len() - i, 9nat,
{
    if tok(ts, i) == Some(SpecToken::Minus) {
        match p_primary(ts, i + 1) {
            Ok((e, j)) => Ok((SpecExpr::Unary { op: UnaryOp::Neg, expr: Box::new(e) }, j)),
            Err(e) => Err(e),
        }
    } else {
        p_primary(ts, i)
    }
}

pub open spec fn p_primary(ts: Seq<SpecToken>, i: int) -> SpecParse<SpecExpr>
    decreases ts.len() - i, 8nat,
{
    match tok(ts, i) {
        Some(SpecToken::LParen) => match p_expr(ts, i + 1) {
            Ok((e, j)) => if tok(ts, j) == Some(SpecToken::RParen) {
                Ok((e, j + 1))
            } else {
                Err(ParseError::Unexpected(j as usize))
            },
            Err(e) => Err(e),
        },
        Some(SpecToken::Ident(n)) => if tok(ts, i + 1) == Some(SpecToken::LParen) {
            p_func(ts, i)
        } else {
            Ok((SpecExpr::Column(n), i + 1))
        },
        Some(SpecToken::QualIdent(n)) => Ok((SpecExpr::Column(n), i + 1)),
        Some(SpecToken::Int(d)) => if digits_value(d) <= i64::MAX {
            Ok((SpecExpr::Literal(SpecValue::Int(digits_value(d) as i64)), i + 1))
        } else {
            Err(ParseError::OutOfRange(i as usize))
        },
        Some(SpecToken::Float(f)) => Ok((SpecExpr::Literal(SpecValue::Float(f)), i + 1)),
        Some(SpecToken::Str(s)) => Ok((SpecExpr::Literal(SpecValue::Str(s)), i + 1)),
        Some(SpecToken::Keyword(Keyword::Null)) => Ok((SpecExpr::Literal(SpecValue::Null), i + 1)),
        Some(SpecToken::Keyword(Keyword::True)) => Ok(
            (SpecExpr::Literal(SpecValue::Bool(true)), i + 1),
        ),
        Some(SpecToken::Keyword(Keyword::False)) => Ok(
            (SpecExpr::Literal(SpecValue::Bool(false)), i + 1),
        ),
        _ => Err(ParseError::Unexpected(i as usize)),
    }
}

pub open spec fn p_func(ts: Seq<SpecToken>, i: int) -> SpecParse<SpecExpr>
    decreases ts.len() - i, 7nat,
{
    match tok(ts, i) {
        Some(SpecToken::Ident(n)) => match agg_of(n) {
            None => Err(ParseError::UnknownFunction(i as usize)),
            Some(f) => if tok(ts, i + 1) != Some(SpecToken::LParen) {
                Err(ParseError::Unexpected((i + 1) as usize))
            } else if tok(ts, i + 2) == Some(SpecToken::Star) {
                if tok(ts, i + 3) == Some(SpecToken::RParen) {
                    Ok((SpecExpr::Agg { func: f, expr: Box::new(SpecExpr::Wildcard) }, i + 4))
                } else {
                    Err(ParseError::Unexpected((i + 3) as usize))
                }
            } else {
                match p_expr(ts, i + 2) {
                    Ok((e, j)) => if tok(ts, j) == Some(SpecToken::RParen) {
                        Ok((SpecExpr::Agg { func: f, expr: Box::new(e) }, j + 1))
                    } else {
                        Err(ParseError::Unexpected(j as usize))
                    },
                    Err(e) => Err(e),
                }
            },
        },
        _ => Err(ParseError::Unexpected(i as usize)),
    }
}

pub open spec fn p_item(ts: Seq<SpecToken>, i: int) -> SpecParse<SpecSelectItem> {
    if tok(ts, i) == Some(SpecToken::Star) {
        Ok((SpecSelectItem::Wildcard, i + 1))
    } else {
        match p_expr(ts, i) {
            Ok((e, j)) => if is_kw(ts, j, Keyword::As) {
                match tok(ts, j + 1) {
                    Some(SpecToken::Ident(a)) => Ok((SpecSelectItem::Expr(e, Some(a)), j + 2)),
                    _ => Err(ParseError::Unexpected((j + 1) as usize)),
                }
            } else {
                Ok((SpecSelectItem::Expr(e, None), j))
            },
            Err(e) => Err(e),
        }
    }
}

pub open spec fn p_items_rest(ts: Seq<SpecToken>, i: int, acc: Seq<SpecSelectItem>) -> SpecParse<
    Seq<SpecSelectItem>,
>
    decreases ts.len() - i,
{
    if tok(ts, i) == Some(SpecToken::Comma) {
        match p_item(ts, i + 1) {
            Ok((x, j)) => if i < j <= ts.len() {
                p_items_rest(ts, j, acc.push(x))
            } else {
                Err(ParseError::Unexpected(i as usize))
            },
            Err(e) => Err(e),
        }
    } else {
        Ok((acc, i))
    }
}

pub open spec fn p_idents_rest(ts: Seq<SpecToken>, i: int, acc: Seq<Seq<char>>) -> SpecParse<
    Seq<Seq<char>>,
>
    decreases ts.len() - i,
{
    if tok(ts, i) == Some(SpecToken::Comma) {
        match tok(ts, i + 1) {
            Some(SpecToken::Ident(c)) => p_idents_rest(ts, i + 2, acc.push(c)),
            _ => Err(ParseError::Unexpected((i + 1) as usize)),
        }
    } else {
        Ok((acc, i))
    }
}

pub open spec fn p_where(ts: Seq<SpecToken>, i: int) -> SpecParse<Option<SpecExpr>> {
    if is_kw(ts, i, Keyword::Where) {
        match p_expr(ts, i + 1) {
            Ok((e, j)) => Ok((Some(e), j)),
            Err(e) => Err(e),
        }
    } else {
        Ok((None, i))
    }
}

pub open spec fn p_group(ts: Seq<SpecToken>, i: int) -> SpecParse<Seq<Seq<char>>> {
    if is_kw(ts, i, Keyword::Group) {
        if !is_kw(ts, i + 1, Keyword::By) {
            Err(ParseError::Unexpected((i + 1) as usize))
        } else {
            match tok(ts, i + 2) {
                Some(SpecToken::Ident(c)) => p_idents_rest(ts, i + 3, seq![c]),
                _ => Err(ParseError::Unexpected((i + 2) as usize)),
            }
        }
    } else {
        Ok((Seq::empty(), i))
    }
}

pub open spec fn p_limit(ts: Seq<SpecToken>, i: int) -> SpecParse<Option<u64>> {
    if is_kw(ts, i, Keyword::Limit) {
        match tok(ts, i + 1) {
            Some(SpecToken::Int(d)) => if digits_value(d) <= u64::MAX {
                Ok((Some(digits_value(d) as u64), i + 2))
            } else {
                Err(ParseError::OutOfRange((i + 1) as usize))
            },
            _ => Err(ParseError::Unexpected((i + 1) as usize)),
        }
    } else {
        Ok((None, i))
    }
}

/// The statement that the tokens spell, from `SELECT` to the end of the clauses.
pub open spec fn p_select(ts: Seq<SpecToken>, i: int) -> SpecParse<SpecSelectStmt> {
    if !is_kw(ts, i, Keyword::Select) {
        Err(ParseError::Unexpected(i as usize))
    } else {
        match p_item(ts, i + 1) {
            Err(e) => Err(e),
            Ok((first, j)) => match p_items_rest(ts, j, seq![first]) {
                Err(e) => Err(e),
                Ok((items, k)) => if !is_kw(ts, k, Keyword::From) {
                    Err(ParseError::Unexpected(k as usize))
                } else {
                    match tok(ts, k + 1) {
                        Some(SpecToken::Ident(table)) => match p_where(ts, k + 2) {
                            Err(e) => Err(e),
                            Ok((w, l)) => match p_group(ts, l) {
                                Err(e) => Err(e),
                                Ok((g, m)) => match p_limit(ts, m) {
                                    Err(e) => Err(e),
                                    Ok((lim, n)) => Ok(
                                        (
                                            SpecSelectStmt {
                                                select: items,
                                                from: table,
                                                where_: w,
                                                group_by: g,
                                                limit: lim,
                                                joins: Seq::empty(),
                                                order_by: Seq::empty(),
                                            },
                                            n,
                                        ),
                                    ),
                                },
                            },
                        },
                        _ => Err(ParseError::Unexpected((k + 1) as usize)),
                    }
                },
            },
        }
    }
}

/// The statement that a whole token sequence spells: a SELECT statement,
/// an optional `;`, and nothing else.
pub open spec fn p_query(ts: Seq<SpecToken>) -> Result<SpecSelectStmt, ParseError> {
    match p_select(ts, 0) {
        Err(e) => Err(e),
        Ok((stmt, j)) => {
            let k = if tok(ts, j) == Some(SpecToken::Semicolon) {
                j + 1
            } else {
                j
            };
            if k == ts.len() {
                Ok(stmt)
            } else {
                Err(ParseError::Unexpected(k as usize))
            }
        },
    }
}

/// The meaning of a SQL text: its statement, or why it has none.
pub open spec fn spec_parse(sql: Seq<char>) -> Result<SpecSelectStmt, ParseError> {
    match spec_tokenize(sql) {
        Err(e) => Err(ParseError::Lex(e)),
        Ok(ts) => p_query(ts),
    }
}

/// Every integer token consists of decimal digits.
pub open spec fn token_wf(t: SpecToken) -> bool {
    match t {
        SpecToken::Int(d) => forall|q: int| 0 <= q < d.len() ==> is_digit(#[trigger] d[q]),
        _ => true,
    }
}

pub open spec fn tokens_wf(ts: Seq<SpecToken>) -> bool {
    forall|k: int| 0 <= k < ts.len() ==> token_wf(#[trigger] ts[k])
}

// ── Agreement between executable results and the specification ─────────────

pub open spec fn agree<T: View>(r: Result<(T, usize), ParseError>, s: SpecParse<T::V>, i: int, n: int) -> bool {
    match (r, s) {
        (Ok((x, j)), Ok((y, k))) => x@ == y && j == k && i < j <= n,
        (Err(e), Err(f)) => e == f,
        _ => false,
    }
}

// ── Executable parser ────────────────────────────────────────────────────────

pub proof fn lemma_digits_value_nonneg(d: Seq<char>)
    requires
        forall|k: int| 0 <= k < d.len() ==> is_digit(#[trigger] d[k]),
    ensures
        digits_value(d) >= 0,
    decreases d.len(),
{
    if d.len() > 0 {
        lemma_digits_value_nonneg(d.drop_last());
    }
}

pub proof fn lemma_digits_value_prefix(d: Seq<char>, k: int)
    requires
        0 <= k <= d.len(),
        forall|q: int| 0 <= q < d.len() ==> is_digit(#[trigger] d[q]),
    ensures
        digits_value(d.take(k)) <= digits_value(d),
    decreases d.len() - k,
{
    if k < d.len() {
        lemma_digits_value_prefix(d, k + 1);
        assert(d.take(k + 1).drop_last() =~= d.take(k));
        assert(d.take(k + 1).last() == d[k]);
        lemma_digits_value_nonneg(d.take(k));
    } else {
        assert(d.take(k) =~= d);
    }
}

/// The value of a string of decimal digits, when it is at most `bound`.
fn digits_to_u64(s: &String, bound: u64) -> (r: Option<u64>)
    requires
        forall|q: int| 0 <= q < s@.len() ==> is_digit(#[trigger] s@[q]),
        bound >= 9,
    ensures
        match r {
            Some(v) => v == digits_value(s@) && v <= bound,
            None => digits_value(s@) > bound,
        },
{
    let cs = str_chars(s.as_str());
    let ghost d = s@;
    let mut v: u64 = 0;
    let mut k: usize = 0;
    while k < cs.len()
        invariant
            cs@ == d,
            d == s@,
            k <= d.len(),
            v == digits_value(d.take(k as int)),
            v <= bound,
            bound >= 9,
            forall|q: int| 0 <= q < d.len() ==> is_digit(#[trigger] d[q]),
        decreases d.len() - k,
    {
        let c = cs[k];
        let dig: u64 = (c as u32 - '0' as u32) as u64;
        proof {
            assert(is_digit(d[k as int]));
            assert(d.take(k + 1).drop_last() =~= d.take(k as int));
            assert(d.take(k + 1).last() == c);
            assert(dig == c as int - '0' as int);
            assert(digits_value(d.take(k + 1)) == v * 10 + dig);
        }
        if v > (bound - dig) / 10 {
            proof {
                assert(v * 10 + dig > bound) by (nonlinear_arith)
                    requires
                        v > (bound - dig) / 10,
                        dig <= 9,
                        dig <= bound,
                ;
                lemma_digits_value_prefix(d, k + 1);
                assert(digits_value(d) > bound);
            }
            return None;
        }
        proof {
            assert(v * 10 + dig <= bound) by (nonlinear_arith)
                requires
                    v <= (bound - dig) / 10,
                    dig <= bound,
            ;
        }
        v = v * 10 + dig;
        k = k + 1;
    }
    proof {
        assert(d.take(d.len() as int) =~= d);
    }
    Some(v)
}

fn kw_at(ts: &Vec<Token>, i: usize, k: Keyword) -> (b: bool)
    ensures
        b == is_kw(tokens_view(ts@), i as int, k),
        b ==> i < ts.len(),
{
    if i < ts.len() {
        match &ts[i] {
            Token::Keyword(w) => *w == k,
            _ => false,
        }
    } else {
        false
    }
}

/// Which of a few plain tokens stands at a position.
#[derive(Clone, Copy, PartialEq, Eq, Structural)]
enum Punct {
    Comma,
    LParen,
    RParen,
    Star,
    Minus,
    Semicolon,
}

spec fn punct_token(p: Punct) -> SpecToken {
    match p {
        Punct::Comma => SpecToken::Comma,
        Punct::LParen => SpecToken::LParen,
        Punct::RParen => SpecToken::RParen,
        Punct::Star => SpecToken::Star,
        Punct::Minus => SpecToken::Minus,
        Punct::Semicolon => SpecToken::Semicolon,
    }
}

fn punct_at(ts: &Vec<Token>, i: usize, p: Punct) -> (b: bool)
    ensures
        b == (tok(tokens_view(ts@), i as int) == Some(punct_token(p))),
        b ==> i < ts.len(),
{
    if i < ts.len() {
        match (&ts[i], p) {
            (Token::Comma, Punct::Comma) => true,
            (Token::LParen, Punct::LParen) => true,
            (Token::RParen, Punct::RParen) => true,
            (Token::Star, Punct::Star) => true,
            (Token::Minus, Punct::Minus) => true,
            (Token::Semicolon, Punct::Semicolon) => true,
            _ => false,
        }
    } else {
        false
    }
}

/// The identifier at a position, if a plain identifier stands there.
fn ident_at(ts: &Vec<Token>, i: usize) -> (r: Option<String>)
    ensures
        match (r, tok(tokens_view(ts@), i as int)) {
            (Some(s), Some(SpecToken::Ident(n))) => s@ == n,
            (None, Some(SpecToken::Ident(_))) => false,
            (Some(_), _) => false,
            _ => true,
        },
{
    if i < ts.len() {
        match &ts[i] {
            Token::Ident(s) => Some(s.clone()),
            _ => None,
        }
    } else {
        None
    }
}

fn compare_op_at(ts: &Vec<Token>, i: usize) -> (r: Option<BinOp>)
    ensures
        r == compare_op_of(tok(tokens_view(ts@), i as int)),
        r is Some ==> i < ts.len(),
{
    if i < ts.len() {
        match &ts[i] {
            Token::Eq => Some(BinOp::Eq),
            Token::Ne => Some(BinOp::Ne),
            Token::Lt => Some(BinOp::Lt),
            Token::Le => Some(BinOp::Le),
            Token::Gt => Some(BinOp::Gt),
            Token::Ge => Some(BinOp::Ge),
            _ => None,
        }
    } else {
        None
    }
}

fn add_op_at(ts: &Vec<Token>, i: usize) -> (r: Option<BinOp>)
    ensures
        r == add_op_of(tok(tokens_view(ts@), i as int)),
        r is Some ==> i < ts.len(),
{
    if i < ts.len() {
        match &ts[i] {
            Token::Plus => Some(BinOp::Add),
            Token::Minus => Some(BinOp::Sub),
            _ => None,
        }
    } else {
        None
    }
}

fn mul_op_at(ts: &Vec<Token>, i: usize) -> (r: Option<BinOp>)
    ensures
        r == mul_op_of(tok(tokens_view(ts@), i as int)),
        r is Some ==> i < ts.len(),
{
    if i < ts.len() {
        match &ts[i] {
            Token::Star => Some(BinOp::Mul),
            Token::Slash => Some(BinOp::Div),
            _ => None,
        }
    } else {
        None
    }
}

fn agg_of_exec(n: &String) -> (r: Option<AggFunc>)
    ensures
        r == agg_of(n@),
{
    let cs = str_chars(n.as_str());
    let len = cs.len();
    assert(cs@.subrange(0, len as int) =~= n@);
    if ci_match_exec(&cs, 0, len, "COUNT") {
        Some(AggFunc::Count)
    } else if ci_match_exec(&cs, 0, len, "SUM") {
        Some(AggFunc::Sum)
    } else if ci_match_exec(&cs, 0, len, "AVG") {
        Some(AggFunc::Avg)
    } else if ci_match_exec(&cs, 0, len, "MIN") {
        Some(AggFunc::Min)
    } else if ci_match_exec(&cs, 0, len, "MAX") {
        Some(AggFunc::Max)
    } else {
        None
    }
}

fn mk_bin(op: BinOp, l: Expr, r: Expr) -> (e: Expr)
    ensures
        e@ == bin(op, l@, r@),
{
    Expr::BinOp { op, left: Box::new(l), right: Box::new(r) }
}

fn parse_expr(ts: &Vec<Token>, i: usize) -> (r: Result<(Expr, usize), ParseError>)
    requires
        i <= ts@.len(),
        tokens_wf(tokens_view(ts@)),
    ensures
        agree(r, p_expr(tokens_view(ts@), i as int), i as int, ts@.len() as int),
    decreases ts@.len() - i, 20nat,
{
    assert(tokens_view(ts@).len() == ts@.len());
    parse_or(ts, i)
}

fn parse_or(ts: &Vec<Token>, i: usize) -> (r: Result<(Expr, usize), ParseError>)
    requires
        i <= ts@.len(),
        tokens_wf(tokens_view(ts@)),
    ensures
        agree(r, p_or(tokens_view(ts@), i as int), i as int, ts@.len() as int),
    decreases ts@.len() - i, 19nat,
{
    assert(tokens_view(ts@).len() == ts@.len());
    let ghost tv = tokens_view(ts@);
    let (mut left, mut j) = match parse_and(ts, i) {
        Ok(x) => x,
        Err(e) => {
            return Err(e);
        },
    };
    let ghost goal = p_or(tv, i as int);
    assert(p_and(tv, i as int) is Ok);
    assert(p_and(tv, i as int)->Ok_0.1 == j);
    assert(p_and(tv, i as int)->Ok_0.0 == left@);
    assert(i <= j <= tv.len());
    assert(goal == p_or_rest(tv, j as int, left@));
    loop
        invariant
            tv == tokens_view(ts@),
            tokens_wf(tv),
            i < j <= ts@.len(),
            goal == p_or_rest(tv, j as int, left@),
            goal == p_or(tv, i as int),
            tv.len() == ts@.len(),
        decreases ts@.len() - j,
    {
        if !kw_at(ts, j, Keyword::Or) {
            return Ok((left, j));
        }
        match parse_and(ts, j + 1) {
            Err(e) => {
                return Err(e);
            },
            Ok((right, k)) => {
                let ghost lv = left@;
                left = mk_bin(BinOp::Or, left, right);
                assert(goal == p_or_rest(tv, k as int, bin(BinOp::Or, lv, right@)));
                j = k;
            },
        }
    }
}

fn parse_and(ts: &Vec<Token>, i: usize) -> (r: Result<(Expr, usize), ParseError>)
    requires
        i <= ts@.len(),
        tokens_wf(tokens_view(ts@)),
    ensures
        agree(r, p_and(tokens_view(ts@), i as int), i as int, ts@.len() as int),
    decreases ts@.len() - i, 17nat,
{
    assert(tokens_view(ts@).len() == ts@.len());
    let ghost tv = tokens_view(ts@);
    let (mut left, mut j) = match parse_not(ts, i) {
        Ok(x) => x,
        Err(e) => {
            return Err(e);
        },
    };
    let ghost goal = p_and(tv, i as int);
    assert(goal == p_and_rest(tv, j as int, left@));
    loop
        invariant
            tv == tokens_view(ts@),
            tokens_wf(tv),
            i < j <= ts@.len(),
            goal == p_and_rest(tv, j as int, left@),
            goal == p_and(tv, i as int),
            tv.len() == ts@.len(),
        decreases ts@.len() - j,
    {
        if !kw_at(ts, j, Keyword::And) {
            return Ok((left, j));
        }
        match parse_not(ts, j + 1) {
            Err(e) => {
                return Err(e);
            },
            Ok((right, k)) => {
                let ghost lv = left@;
                left = mk_bin(BinOp::And, left, right);
                assert(goal == p_and_rest(tv, k as int, bin(BinOp::And, lv, right@)));
                j = k;
            },
        }
    }
}

fn parse_not(ts: &Vec<Token>, i: usize) -> (r: Result<(Expr, usize), ParseError>)
    requires
        i <= ts@.len(),
        tokens_wf(tokens_view(ts@)),
    ensures
        agree(r, p_not(tokens_view(ts@), i as int), i as int, ts@.len() as int),
    decreases ts@.len() - i, 15nat,
{
    assert(tokens_view(ts@).len() == ts@.len());
    if kw_at(ts, i, Keyword::Not) {
        let (e, j) = match parse_not(ts, i + 1) {
            Ok(x) => x,
            Err(err) => {
                return Err(err);
            },
        };
        Ok((Expr::Unary { op: UnaryOp::Not, expr: Box::new(e) }, j))
    } else {
        parse_compare(ts, i)
    }
}

fn parse_compare(ts: &Vec<Token>, i: usize) -> (r: Result<(Expr, usize), ParseError>)
    requires
        i <= ts@.len(),
        tokens_wf(tokens_view(ts@)),
    ensures
        agree(r, p_compare(tokens_view(ts@), i as int), i as int, ts@.len() as int),
    decreases ts@.len() - i, 14nat,
{
    assert(tokens_view(ts@).len() == ts@.len());
    let (left, j) = match parse_add(ts, i) {
        Ok(x) => x,
        Err(err) => {
            return Err(err);
        },
    };
    match compare_op_at(ts, j) {
        Some(op) => {
            let (right, k) = match parse_add(ts, j + 1) {
                Ok(x) => x,
                Err(err) => {
                    return Err(err);
                },
            };
            Ok((mk_bin(op, left, right), k))
        },
        None => Ok((left, j)),
    }
}

fn parse_add(ts: &Vec<Token>, i: usize) -> (r: Result<(Expr, usize), ParseError>)
    requires
        i <= ts@.len(),
        tokens_wf(tokens_view(ts@)),
    ensures
        agree(r, p_add(tokens_view(ts@), i as int), i as int, ts@.len() as int),
    decreases ts@.len() - i, 13nat,
{
    assert(tokens_view(ts@).len() == ts@.len());
    let ghost tv = tokens_view(ts@);
    let (mut left, mut j) = match parse_mul(ts, i) {
        Ok(x) => x,
        Err(e) => {
            return Err(e);
        },
    };
    let ghost goal = p_add(tv, i as int);
    assert(goal == p_add_rest(tv, j as int, left@));
    loop
        invariant
            tv == tokens_view(ts@),
            tokens_wf(tv),
            i < j <= ts@.len(),
            goal == p_add_rest(tv, j as int, left@),
            goal == p_add(tv, i as int),
            tv.len() == ts@.len(),
        decreases ts@.len() - j,
    {
        let op = match add_op_at(ts, j) {
            Some(op) => op,
            None => {
                return Ok((left, j));
            },
        };
        match parse_mul(ts, j + 1) {
            Err(e) => {
                return Err(e);
            },
            Ok((right, k)) => {
                let ghost lv = left@;
                left = mk_bin(op, left, right);
                assert(goal == p_add_rest(tv, k as int, bin(op, lv, right@)));
                j = k;
            },
        }
    }
}

fn parse_mul(ts: &Vec<Token>, i: usize) -> (r: Result<(Expr, usize), ParseError>)
    requires
        i <= ts@.len(),
        tokens_wf(tokens_view(ts@)),
    ensures
        agree(r, p_mul(tokens_view(ts@), i as int), i as int, ts@.len() as int),
    decreases ts@.len() - i, 11nat,
{
    assert(tokens_view(ts@).len() == ts@.len());
    let ghost tv = tokens_view(ts@);
    let (mut left, mut j) = match parse_unary(ts, i) {
        Ok(x) => x,
        Err(e) => {
            return Err(e);
        },
    };
    let ghost goal = p_mul(tv, i as int);
    assert(goal == p_mul_rest(tv, j as int, left@));
    loop
        invariant
            tv == tokens_view(ts@),
            tokens_wf(tv),
            i < j <= ts@.len(),
            goal == p_mul_rest(tv, j as int, left@),
            goal == p_mul(tv, i as int),
            tv.len() == ts@.len(),
        decreases ts@.len() - j,
    {
        let op = match mul_op_at(ts, j) {
            Some(op) => op,
            None => {
                return Ok((left, j));
            },
        };
        match parse_unary(ts, j + 1) {
            Err(e) => {
                return Err(e);
            },
            Ok((right, k)) => {
                let ghost lv = left@;
                left = mk_bin(op, left, right);
                assert(goal == p_mul_rest(tv, k as int, bin(op, lv, right@)));
                j = k;
            },
        }
    }
}

fn parse_unary(ts: &Vec<Token>, i: usize) -> (r: Result<(Expr, usize), ParseError>)
    requires
        i <= ts@.len(),
        tokens_wf(tokens_view(ts@)),
    ensures
        agree(r, p_unary(tokens_view(ts@), i as int), i as int, ts@.len() as int),
    decreases ts@.len() - i, 9nat,
{
    assert(tokens_view(ts@).len() == ts@.len());
    let ghost tv = tokens_view(ts@);
    assert(tok(tv, i as int) != Some(SpecToken::Minus) ==> p_unary(tv, i as int) == p_primary(tv, i as int));
    if punct_at(ts, i, Punct::Minus) {
        let (e, j) = match parse_primary(ts, i + 1) {
            Ok(x) => x,
            Err(err) => {
                return Err(err);
            },
        };
        Ok((Expr::Unary { op: UnaryOp::Neg, expr: Box::new(e) }, j))
    } else {
        assert(tok(tv, i as int) != Some(SpecToken::Minus));
        let r = parse_primary(ts, i);
        assert(agree(r, p_primary(tv, i as int), i as int, ts@.len() as int));
        r
    }
}

fn parse_primary(ts: &Vec<Token>, i: usize) -> (r: Result<(Expr, usize), ParseError>)
    requires
        i <= ts@.len(),
        tokens_wf(tokens_view(ts@)),
    ensures
        agree(r, p_primary(tokens_view(ts@), i as int), i as int, ts@.len() as int),
    decreases ts@.len() - i, 8nat,
{
    assert(tokens_view(ts@).len() == ts@.len());
    if i >= ts.len() {
        return Err(ParseError::Unexpected(i));
    }
    match &ts[i] {
        Token::LParen => {
            let (e, j) = match parse_expr(ts, i + 1) {
                Ok(x) => x,
                Err(err) => {
                    return Err(err);
                },
            };
            if punct_at(ts, j, Punct::RParen) {
                Ok((e, j + 1))
            } else {
                Err(ParseError::Unexpected(j))
            }
        },
        Token::Ident(n) => {
            if punct_at(ts, i + 1, Punct::LParen) {
                parse_func(ts, i)
            } else {
                Ok((Expr::Column(n.clone()), i + 1))
            }
        },
        Token::QualIdent(n) => Ok((Expr::Column(n.clone()), i + 1)),
        Token::Int(d) => {
            proof {
                assert(token_wf(tokens_view(ts@)[i as int]));
            }
            match digits_to_u64(d, 9223372036854775807u64) {
                Some(v) => Ok((Expr::Literal(Value::Int(v as i64)), i + 1)),
                None => Err(ParseError::OutOfRange(i)),
            }
        },
        Token::Float(f) => Ok((Expr::Literal(Value::Float(f.clone())), i + 1)),
        Token::Str(s) => Ok((Expr::Literal(Value::Str(s.clone())), i + 1)),
        Token::Keyword(Keyword::Null) => Ok((Expr::Literal(Value::Null), i + 1)),
        Token::Keyword(Keyword::True) => Ok((Expr::Literal(Value::Bool(true)), i + 1)),
        Token::Keyword(Keyword::False) => Ok((Expr::Literal(Value::Bool(false)), i + 1)),
        _ => Err(ParseError::Unexpected(i)),
    }
}

fn parse_func(ts: &Vec<Token>, i: usize) -> (r: Result<(Expr, usize), ParseError>)
    requires
        i <= ts@.len(),
        tokens_wf(tokens_view(ts@)),
    ensures
        agree(r, p_func(tokens_view(ts@), i as int), i as int, ts@.len() as int),
    decreases ts@.len() - i, 7nat,
{
    assert(tokens_view(ts@).len() == ts@.len());
    if i >= ts.len() {
        return Err(ParseError::Unexpected(i));
    }
    let name = match &ts[i] {
        Token::Ident(n) => n,
        _ => {
            return Err(ParseError::Unexpected(i));
        },
    };
    let ghost tv = tokens_view(ts@);
    assert(tok(tv, i as int) == Some(SpecToken::Ident(name@)));
    let func = match agg_of_exec(name) {
        Some(f) => f,
        None => {
            return Err(ParseError::UnknownFunction(i));
        },
    };
    assert(agg_of(name@) == Some(func));
    if !punct_at(ts, i + 1, Punct::LParen) {
        return Err(ParseError::Unexpected(i + 1));
    }
    if punct_at(ts, i + 2, Punct::Star) {
        if punct_at(ts, i + 3, Punct::RParen) {
            let w = Expr::Wildcard;
            assert(w@ == SpecExpr::Wildcard);
            let e = Expr::Agg { func, expr: Box::new(w) };
            assert(e@ == SpecExpr::Agg { func: func, expr: Box::new(SpecExpr::Wildcard) });
            Ok((e, i + 4))
        } else {
            Err(ParseError::Unexpected(i + 3))
        }
    } else {
        let (e, j) = match parse_expr(ts, i + 2) {
            Ok(x) => x,
            Err(err) => {
                return Err(err);
            },
        };
        if punct_at(ts, j, Punct::RParen) {
            let a = Expr::Agg { func, expr: Box::new(e) };
            assert(a@ == SpecExpr::Agg { func: func, expr: Box::new(e@) });
            Ok((a, j + 1))
        } else {
            Err(ParseError::Unexpected(j))
        }
    }
}


fn parse_item(ts: &Vec<Token>, i: usize) -> (r: Result<(SelectItem, usize), ParseError>)
    requires
        i <= ts@.len(),
        tokens_wf(tokens_view(ts@)),
    ensures
        agree(r, p_item(tokens_view(ts@), i as int), i as int, ts@.len() as int),
{
    assert(tokens_view(ts@).len() == ts@.len());
    if punct_at(ts, i, Punct::Star) {
        return Ok((SelectItem::Wildcard, i + 1));
    }
    let (e, j) = match parse_expr(ts, i) {
        Ok(x) => x,
        Err(err) => {
            return Err(err);
        },
    };
    if kw_at(ts, j, Keyword::As) {
        match ident_at(ts, j + 1) {
            Some(a) => Ok((SelectItem::Expr(e, Some(a)), j + 2)),
            None => Err(ParseError::Unexpected(j + 1)),
        }
    } else {
        Ok((SelectItem::Expr(e, None), j))
    }
}

fn parse_items(ts: &Vec<Token>, i: usize) -> (r: Result<(Vec<SelectItem>, usize), ParseError>)
    requires
        i <= ts@.len(),
        tokens_wf(tokens_view(ts@)),
    ensures
        match (r, p_item(tokens_view(ts@), i as int)) {
            (_, Err(f)) => r == Err::<(Vec<SelectItem>, usize), ParseError>(f),
            (Ok((v, j)), Ok((first, k))) => p_items_rest(tokens_view(ts@), k, seq![first]) == Ok::<
                (Seq<SpecSelectItem>, int),
                ParseError,
            >((items_view(v@), j as int)) && j <= ts@.len(),
            (Err(e), Ok((first, k))) => p_items_rest(tokens_view(ts@), k, seq![first]) == Err::<
                (Seq<SpecSelectItem>, int),
                ParseError,
            >(e),
        },
{
    let ghost tv = tokens_view(ts@);
    assert(tv.len() == ts@.len());
    let (first, mut j) = match parse_item(ts, i) {
        Ok(x) => x,
        Err(err) => {
            return Err(err);
        },
    };
    let ghost fv = first@;
    let mut items: Vec<SelectItem> = Vec::new();
    items.push(first);
    assert(items_view(items@) =~= seq![fv]);
    let ghost goal = p_items_rest(tv, j as int, seq![fv]);
    loop
        invariant
            tv == tokens_view(ts@),
            tokens_wf(tv),
            tv.len() == ts@.len(),
            j <= ts@.len(),
            goal == p_items_rest(tv, j as int, items_view(items@)),
            goal == p_items_rest(tv, p_item(tv, i as int)->Ok_0.1, seq![p_item(tv, i as int)->Ok_0.0]),
            p_item(tv, i as int) is Ok,
        decreases ts@.len() - j,
    {
        if !punct_at(ts, j, Punct::Comma) {
            return Ok((items, j));
        }
        match parse_item(ts, j + 1) {
            Err(e) => {
                return Err(e);
            },
            Ok((x, k)) => {
                let ghost before = items_view(items@);
                items.push(x);
                assert(items_view(items@) =~= before.push(x@));
                j = k;
            },
        }
    }
}

fn parse_idents(ts: &Vec<Token>, i: usize, first: String) -> (r: Result<(Vec<String>, usize), ParseError>)
    requires
        i <= ts@.len(),
    ensures
        match (r, p_idents_rest(tokens_view(ts@), i as int, seq![first@])) {
            (Ok((v, j)), Ok((w, k))) => strings_view(v@) == w && j == k && j <= ts@.len(),
            (Err(e), Err(f)) => e == f,
            _ => false,
        },
{
    let ghost tv = tokens_view(ts@);
    assert(tv.len() == ts@.len());
    let ghost fv = first@;
    let ghost goal0 = p_idents_rest(tv, i as int, seq![first@]);
    let mut cols: Vec<String> = Vec::new();
    cols.push(first);
    assert(strings_view(cols@) =~= seq![fv]);
    let mut j = i;
    let ghost goal = p_idents_rest(tv, i as int, seq![fv]);
    loop
        invariant
            tv == tokens_view(ts@),
            tv.len() == ts@.len(),
            j <= ts@.len(),
            goal == p_idents_rest(tv, j as int, strings_view(cols@)),
            goal == p_idents_rest(tv, i as int, seq![fv]),
            goal == goal0,
            goal0 == p_idents_rest(tokens_view(ts@), i as int, seq![first@]),
        decreases ts@.len() - j,
    {
        if !punct_at(ts, j, Punct::Comma) {
            return Ok((cols, j));
        }
        match ident_at(ts, j + 1) {
            None => {
                return Err(ParseError::Unexpected(j + 1));
            },
            Some(c) => {
                let ghost before = strings_view(cols@);
                cols.push(c);
                assert(strings_view(cols@) =~= before.push(c@));
                j = j + 2;
            },
        }
    }
}

fn parse_where(ts: &Vec<Token>, i: usize) -> (r: Result<(Option<Expr>, usize), ParseError>)
    requires
        i <= ts@.len(),
        tokens_wf(tokens_view(ts@)),
    ensures
        match (r, p_where(tokens_view(ts@), i as int)) {
            (Ok((w, j)), Ok((v, k))) => opt_expr_view(w) == v && j == k && j <= ts@.len(),
            (Err(e), Err(f)) => e == f,
            _ => false,
        },
{
    if kw_at(ts, i, Keyword::Where) {
        match parse_expr(ts, i + 1) {
            Ok((e, j)) => Ok((Some(e), j)),
            Err(err) => Err(err),
        }
    } else {
        Ok((None, i))
    }
}

fn parse_group(ts: &Vec<Token>, i: usize) -> (r: Result<(Vec<String>, usize), ParseError>)
    requires
        i <= ts@.len(),
    ensures
        match (r, p_group(tokens_view(ts@), i as int)) {
            (Ok((g, j)), Ok((h, k))) => strings_view(g@) == h && j == k && j <= ts@.len(),
            (Err(e), Err(f)) => e == f,
            _ => false,
        },
{
    if kw_at(ts, i, Keyword::Group) {
        if !kw_at(ts, i + 1, Keyword::By) {
            return Err(ParseError::Unexpected(i + 1));
        }
        match ident_at(ts, i + 2) {
            Some(c) => parse_idents(ts, i + 3, c),
            None => Err(ParseError::Unexpected(i + 2)),
        }
    } else {
        let v: Vec<String> = Vec::new();
        assert(strings_view(v@) =~= Seq::<Seq<char>>::empty());
        Ok((v, i))
    }
}

fn parse_limit(ts: &Vec<Token>, i: usize) -> (r: Result<(Option<u64>, usize), ParseError>)
    requires
        i <= ts@.len(),
        tokens_wf(tokens_view(ts@)),
    ensures
        match (r, p_limit(tokens_view(ts@), i as int)) {
            (Ok((l, j)), Ok((m, k))) => l == m && j == k && j <= ts@.len(),
            (Err(e), Err(f)) => e == f,
            _ => false,
        },
{
    assert(tokens_view(ts@).len() == ts@.len());
    if kw_at(ts, i, Keyword::Limit) {
        if i + 1 < ts.len() {
            match &ts[i + 1] {
                Token::Int(d) => {
                    proof {
                        assert(token_wf(tokens_view(ts@)[i + 1]));
                    }
                    match digits_to_u64(d, 18446744073709551615u64) {
                        Some(v) => Ok((Some(v), i + 2)),
                        None => Err(ParseError::OutOfRange(i + 1)),
                    }
                },
                _ => Err(ParseError::Unexpected(i + 1)),
            }
        } else {
            Err(ParseError::Unexpected(i + 1))
        }
    } else {
        Ok((None, i))
    }
}

fn parse_select(ts: &Vec<Token>) -> (r: Result<(SelectStmt, usize), ParseError>)
    requires
        tokens_wf(tokens_view(ts@)),
    ensures
        match (r, p_select(tokens_view(ts@), 0)) {
            (Ok((st, j)), Ok((sp, k))) => st@ == sp && j == k && j <= ts@.len(),
            (Err(e), Err(f)) => e == f,
            _ => false,
        },
{
    let ghost tv = tokens_view(ts@);
    assert(tv.len() == ts@.len());
    if !kw_at(ts, 0, Keyword::Select) {
        return Err(ParseError::Unexpected(0));
    }
    let (items, k) = match parse_items(ts, 1) {
        Ok(x) => x,
        Err(err) => {
            return Err(err);
        },
    };
    if !kw_at(ts, k, Keyword::From) {
        return Err(ParseError::Unexpected(k));
    }
    let table = match ident_at(ts, k + 1) {
        Some(t) => t,
        None => {
            return Err(ParseError::Unexpected(k + 1));
        },
    };
    let (w, l) = match parse_where(ts, k + 2) {
        Ok(x) => x,
        Err(err) => {
            return Err(err);
        },
    };
    let (g, m) = match parse_group(ts, l) {
        Ok(x) => x,
        Err(err) => {
            return Err(err);
        },
    };
    let (lim, n) = match parse_limit(ts, m) {
        Ok(x) => x,
        Err(err) => {
            return Err(err);
        },
    };
    let joins: Vec<JoinClause> = Vec::new();
    let order_by: Vec<OrderByItem> = Vec::new();
    let st = SelectStmt { select: items, from: table, where_: w, group_by: g, limit: lim, joins, order_by };
    assert(st@.joins =~= Seq::<SpecJoinClause>::empty());
    assert(st@.order_by =~= Seq::<SpecOrderByItem>::empty());
    Ok((st, n))
}

pub proof fn lemma_lex_wf(s: Seq<char>, i: int)
    ensures
        lex_from(s, i) matches Ok(ts) ==> tokens_wf(ts),
    decreases s.len() - i,
{
    if 0 <= i < s.len() {
        lemma_lex_step_advances(s, i);
        match lex_step(s, i) {
            Step::Skip(j) => {
                lemma_lex_wf(s, j);
            },
            Step::Tok(t, j) => {
                lemma_lex_wf(s, j);
                lemma_digits_end(s, i + 1);
                if let Ok(rest) = lex_from(s, j) {
                    let all = seq![t] + rest;
                    assert(token_wf(t));
                    assert forall|k: int| 0 <= k < all.len() implies token_wf(#[trigger] all[k]) by {
                        if k > 0 {
                            assert(all[k] == rest[k - 1]);
                        }
                    }
                }
            },
            Step::Fail(_) => {},
        }
    }
}

impl SqlParser {
    /// Parses a SQL text into a statement; the result is the one that
    /// `spec_parse` gives the text.
    pub fn parse_query(sql: &str) -> (r: Result<SelectStmt, ParseError>)
        ensures
            match (r, spec_parse(sql@)) {
                (Ok(st), Ok(sp)) => st@ == sp,
                (Err(e), Err(f)) => e == f,
                _ => false,
            },
    {
        let ts = match tokenize(sql) {
            Ok(ts) => ts,
            Err(e) => {
                return Err(ParseError::Lex(e));
            },
        };
        proof {
            lemma_lex_wf(sql@, 0);
        }
        let ghost tv = tokens_view(ts@);
        assert(tv.len() == ts@.len());
        let (st, j) = match parse_select(&ts) {
            Ok(x) => x,
            Err(e) => {
                return Err(e);
            },
        };
        let k = if punct_at(&ts, j, Punct::Semicolon) {
            j + 1
        } else {
            j
        };
        if k == ts.len() {
            Ok(st)
        } else {
            Err(ParseError::Unexpected(k))
        }
    }
}

/// Entry point: parses a SQL string into a `SelectStmt`.
pub fn parse(sql: &str) -> (r: Result<SelectStmt, ParseError>)
    ensures
        match (r, spec_parse(sql@)) {
            (Ok(st), Ok(sp)) => st@ == sp,
            (Err(e), Err(f)) => e == f,
            _ => false,
        },
{
    SqlParser::parse_query(sql)
}

} // verus!
