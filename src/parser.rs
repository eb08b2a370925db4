//! Recursive-descent parsing of tokens into expression trees.
//!
//! ```text
//! Program := Expr*
//! Expr    := Primary ( '<' Expr* )?
//! Primary := Number | '(' Expr* ')'
//! ```
use vstd::prelude::*;
use crate::lexer::{lemma_skip_invariance, lex, may_join, skippable, tokens_of, ParseError, Token};

verus! {

broadcast use vstd::std_specs::vec::group_vec_axioms;

/// A parsed expression.
#[derive(Debug)]
pub enum Expression {
    Number(i32),
    Tuple(Vec<Expression>),
    Call { func: Box<Expression>, args: Vec<Expression> },
}

/// The mathematical form of an expression.
pub enum Expr {
    Num(i32),
    Tuple(Seq<Expr>),
    Call(Box<Expr>, Seq<Expr>),
}

pub open spec fn expr_model(e: Expression) -> Expr
    decreases e,
{
    match e {
        Expression::Number(n) => Expr::Num(n),
        Expression::Tuple(v) => Expr::Tuple(exprs_model(v@)),
        Expression::Call { func, args } => Expr::Call(Box::new(expr_model(*func)), exprs_model(args@)),
    }
}

pub open spec fn exprs_model(s: Seq<Expression>) -> Seq<Expr>
    decreases s,
{
    if s.len() == 0 {
        seq![]
    } else {
        exprs_model(s.drop_last()).push(expr_model(s.last()))
    }
}

pub proof fn lemma_exprs_model_push(s: Seq<Expression>, e: Expression)
    ensures
        exprs_model(s.push(e)) == exprs_model(s).push(expr_model(e)),
        exprs_model(s).len() == s.len(),
    decreases s.len(),
{
    assert(s.push(e).drop_last() == s);
    if s.len() > 0 {
        lemma_exprs_model_push(s.drop_last(), s.last());
        assert(s.drop_last().push(s.last()) == s);
    }
}

pub proof fn lemma_exprs_model_len(s: Seq<Expression>)
    ensures
        exprs_model(s).len() == s.len(),
    decreases s.len(),
{
    if s.len() > 0 {
        lemma_exprs_model_len(s.drop_last());
    }
}

pub proof fn lemma_exprs_model_index(s: Seq<Expression>, i: int)
    requires
        0 <= i < s.len(),
    ensures
        exprs_model(s).len() == s.len(),
        exprs_model(s)[i] == expr_model(s[i]),
    decreases s.len(),
{
    lemma_exprs_model_len(s);
    if i < s.len() - 1 {
        lemma_exprs_model_index(s.drop_last(), i);
    }
}

/// A copy of an expression.
pub fn copy_expression(e: &Expression) -> (r: Expression)
    ensures
        expr_model(r) == expr_model(*e),
    decreases e,
{
    match e {
        Expression::Number(n) => Expression::Number(*n),
        Expression::Tuple(t) => Expression::Tuple(copy_expressions(t)),
        Expression::Call { func, args } => Expression::Call {
            func: Box::new(copy_expression(func)),
            args: copy_expressions(args),
        },
    }
}

fn copy_expressions(t: &Vec<Expression>) -> (r: Vec<Expression>)
    ensures
        exprs_model(r@) == exprs_model(t@),
    decreases t,
{
    let mut out: Vec<Expression> = Vec::new();
    let mut i: usize = 0;
    while i < t.len()
        invariant
            i <= t@.len(),
            exprs_model(out@) == exprs_model(t@.subrange(0, i as int)),
        decreases t@.len() - i,
    {
        let c = copy_expression(&t[i]);
        proof {
            lemma_exprs_model_push(out@, c);
            lemma_exprs_model_push(t@.subrange(0, i as int), t@[i as int]);
            assert(t@.subrange(0, i + 1) == t@.subrange(0, i as int).push(t@[i as int]));
        }
        out.push(c);
        i = i + 1;
    }
    assert(t@.subrange(0, i as int) == t@);
    out
}

impl Clone for Expression {
    fn clone(&self) -> Self {
        copy_expression(self)
    }
}

/// A parenthesised list: one expression stands for itself, any other number
/// of them makes a tuple.
pub open spec fn group(es: Seq<Expr>) -> Expr {
    if es.len() == 1 {
        es[0]
    } else {
        Expr::Tuple(es)
    }
}

/// The expressions from position `p` up to the next `)` or the end, which is
/// not consumed, with the position reached.
pub open spec fn parse_list_at(t: Seq<Token>, p: int) -> Result<(Seq<Expr>, int), ParseError>
    decreases t.len() - p, 2int,
{
    if p < 0 || p >= t.len() || t[p] == Token::Close {
        Ok((seq![], p))
    } else {
        match parse_expr_at(t, p) {
            Ok((e, q)) => {
                if p < q <= t.len() {
                    match parse_list_at(t, q) {
                        Ok((es, r)) => Ok((seq![e] + es, r)),
                        Err(err) => Err(err),
                    }
                } else {
                    Err(ParseError::UnexpectedToken)
                }
            },
            Err(err) => Err(err),
        }
    }
}

/// A number, or a parenthesised list with its closing `)`.
pub open spec fn parse_primary_at(t: Seq<Token>, p: int) -> Result<(Expr, int), ParseError>
    decreases t.len() - p, 0int,
{
    if p < 0 || p >= t.len() {
        Err(ParseError::UnexpectedToken)
    } else {
        match t[p] {
            Token::Number(n) => Ok((Expr::Num(n), p + 1)),
            Token::LargeNumber => Err(ParseError::NumberTooLarge),
            Token::Open => match parse_list_at(t, p + 1) {
                Ok((es, q)) => {
                    if 0 <= q < t.len() && t[q] == Token::Close {
                        Ok((group(es), q + 1))
                    } else {
                        Err(ParseError::UnexpectedToken)
                    }
                },
                Err(err) => Err(err),
            },
            _ => Err(ParseError::UnexpectedToken),
        }
    }
}

/// A primary, followed by `<` and its arguments when a `<` comes next.
pub open spec fn parse_expr_at(t: Seq<Token>, p: int) -> Result<(Expr, int), ParseError>
    decreases t.len() - p, 1int,
{
    match parse_primary_at(t, p) {
        Ok((first, q)) => {
            if p <= q < t.len() && t[q] == Token::In {
                match parse_list_at(t, q + 1) {
                    Ok((args, r)) => Ok((Expr::Call(Box::new(first), args), r)),
                    Err(err) => Err(err),
                }
            } else {
                Ok((first, q))
            }
        },
        Err(err) => Err(err),
    }
}

/// The forest of a token sequence: parsing stops at the end or at an
/// unbalanced `)`.
pub open spec fn parse_tokens(t: Seq<Token>) -> Result<Seq<Expr>, ParseError> {
    match parse_list_at(t, 0) {
        Ok((es, _)) => Ok(es),
        Err(err) => Err(err),
    }
}

/// The forest of a source text.
pub open spec fn parse_source(s: Seq<char>) -> Result<Seq<Expr>, ParseError> {
    parse_tokens(tokens_of(s))
}

fn parse_list(t: &Vec<Token>, p: usize) -> (r: Result<(Vec<Expression>, usize), ParseError>)
    requires
        p <= t@.len(),
    ensures
        match r {
            Ok((es, q)) => parse_list_at(t@, p as int) == Ok::<(Seq<Expr>, int), ParseError>(
                (exprs_model(es@), q as int),
            ) && p <= q <= t@.len() && (q < t@.len() ==> t@[q as int] == Token::Close),
            Err(e) => parse_list_at(t@, p as int) == Err::<(Seq<Expr>, int), ParseError>(e),
        },
    decreases t@.len() - p, 2int,
{
    let mut es: Vec<Expression> = Vec::new();
    let mut i: usize = p;
    while i < t.len() && t[i] != Token::Close
        invariant
            p <= i <= t@.len(),
            match parse_list_at(t@, i as int) {
                Ok((rest, q)) => parse_list_at(t@, p as int) == Ok::<(Seq<Expr>, int), ParseError>(
                    (exprs_model(es@) + rest, q),
                ),
                Err(e) => parse_list_at(t@, p as int) == Err::<(Seq<Expr>, int), ParseError>(e),
            },
        decreases t@.len() - i,
    {
        let (e, q) = match parse_expression(t, i) {
            Ok(x) => x,
            Err(err) => {
                return Err(err);
            },
        };
        proof {
            lemma_exprs_model_push(es@, e);
            match parse_list_at(t@, q as int) {
                Ok((rest, _)) => {
                    assert(exprs_model(es@) + (seq![expr_model(e)] + rest)
                        == exprs_model(es@).push(expr_model(e)) + rest);
                },
                Err(_) => {},
            }
        }
        es.push(e);
        i = q;
    }
    proof {
        assert(exprs_model(es@) + seq![] == exprs_model(es@));
    }
    Ok((es, i))
}

fn parse_primary(t: &Vec<Token>, p: usize) -> (r: Result<(Expression, usize), ParseError>)
    requires
        p <= t@.len(),
    ensures
        match r {
            Ok((e, q)) => parse_primary_at(t@, p as int) == Ok::<(Expr, int), ParseError>(
                (expr_model(e), q as int),
            ) && p < q <= t@.len(),
            Err(err) => parse_primary_at(t@, p as int) == Err::<(Expr, int), ParseError>(err),
        },
    decreases t@.len() - p, 0int,
{
    if p >= t.len() {
        return Err(ParseError::UnexpectedToken);
    }
    match t[p] {
        Token::Number(n) => Ok((Expression::Number(n), p + 1)),
        Token::LargeNumber => Err(ParseError::NumberTooLarge),
        Token::Open => {
            let (mut es, q) = match parse_list(t, p + 1) {
                Ok(x) => x,
                Err(err) => {
                    return Err(err);
                },
            };
            if q < t.len() {
                proof {
                    lemma_exprs_model_len(es@);
                }
                if es.len() == 1 {
                    let ghost before = es@;
                    let e = es.pop().unwrap();
                    proof {
                        assert(before == seq![e]);
                        assert(seq![e] == Seq::<Expression>::empty().push(e));
                        lemma_exprs_model_push(Seq::<Expression>::empty(), e);
                    }
                    Ok((e, q + 1))
                } else {
                    Ok((Expression::Tuple(es), q + 1))
                }
            } else {
                Err(ParseError::UnexpectedToken)
            }
        },
        _ => Err(ParseError::UnexpectedToken),
    }
}

fn parse_expression(t: &Vec<Token>, p: usize) -> (r: Result<(Expression, usize), ParseError>)
    requires
        p <= t@.len(),
    ensures
        match r {
            Ok((e, q)) => parse_expr_at(t@, p as int) == Ok::<(Expr, int), ParseError>(
                (expr_model(e), q as int),
            ) && p < q <= t@.len(),
            Err(err) => parse_expr_at(t@, p as int) == Err::<(Expr, int), ParseError>(err),
        },
    decreases t@.len() - p, 1int,
{
    let (first, q) = match parse_primary(t, p) {
        Ok(x) => x,
        Err(err) => {
            return Err(err);
        },
    };
    if q < t.len() && t[q] == Token::In {
        let (args, r) = match parse_list(t, q + 1) {
            Ok(x) => x,
            Err(err) => {
                return Err(err);
            },
        };
        Ok((Expression::Call { func: Box::new(first), args }, r))
    } else {
        Ok((first, q))
    }
}

/// Parses source text into a forest of expressions.
pub fn parse(unparsed: &str) -> (r: Result<Vec<Expression>, ParseError>)
    ensures
        match r {
            Ok(es) => parse_source(unparsed@) == Ok::<Seq<Expr>, ParseError>(exprs_model(es@)),
            Err(e) => parse_source(unparsed@) == Err::<Seq<Expr>, ParseError>(e),
        },
{
    let tokens = lex(unparsed);
    match parse_list(&tokens, 0) {
        Ok((es, _)) => Ok(es),
        Err(e) => Err(e),
    }
}

/// Inserting a run of skipped characters into a source, or taking one out,
/// yields the same parse, provided the run does not stand between two
/// characters that could belong to one number literal.
pub proof fn lemma_parse_skip_invariance(a: Seq<char>, j: Seq<char>, b: Seq<char>)
    requires
        forall|m: int| 0 <= m < j.len() ==> skippable(#[trigger] j[m]),
        !(a.len() > 0 && b.len() > 0 && may_join(a.last(), b[0])),
    ensures
        parse_source(a + j + b) == parse_source(a + b),
{
    lemma_skip_invariance(a, j, b);
}

} // verus!
