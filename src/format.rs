//! Renders an expression forest back to text that parses to the same forest.
use vstd::prelude::*;
use crate::parser::{expr_model, exprs_model, lemma_exprs_model_index, lemma_exprs_model_len, Expr, Expression};

verus! {

broadcast use vstd::std_specs::vec::group_vec_axioms;

pub open spec fn digit_char(d: int) -> char {
    (d + '0' as int) as char
}

/// The decimal digits of `m`.
pub open spec fn nat_digits(m: nat) -> Seq<char>
    decreases m,
{
    if m < 10 {
        seq![digit_char(m as int)]
    } else {
        nat_digits(m / 10).push(digit_char((m % 10) as int))
    }
}

/// The decimal form of `n`, with a leading `-` when it is negative.
pub open spec fn decimal(n: int) -> Seq<char> {
    if n < 0 {
        seq!['-'] + nat_digits((-n) as nat)
    } else {
        nat_digits(n as nat)
    }
}

/// One expression of a sibling list. `last` tells whether it is the final
/// sibling; `spaced` whether the previous sibling needs separating from it.
/// A call that is not the final sibling is put in parentheses, so that its
/// arguments do not absorb what follows; so is a call that is the callee of
/// another call.
pub open spec fn fmt_item(e: Expr, last: bool, spaced: bool) -> Seq<char>
    decreases e, 0int,
{
    match e {
        Expr::Num(n) => if spaced {
            seq![' '] + decimal(n as int)
        } else {
            decimal(n as int)
        },
        Expr::Tuple(t) => seq!['('] + fmt_items(t, 0, false) + seq![')'],
        Expr::Call(f, a) => {
            let open = if !last {
                seq!['(']
            } else if spaced {
                seq![' ']
            } else {
                seq![]
            };
            let close = if !last {
                seq![')']
            } else {
                seq![]
            };
            open + fmt_item(*f, !(*f is Call), false) + seq!['<'] + fmt_items(a, 0, false) + close
        },
    }
}

/// The siblings `es[i..]`; `spaced` as in `fmt_item`.
pub open spec fn fmt_items(es: Seq<Expr>, i: int, spaced: bool) -> Seq<char>
    decreases es, es.len() - i,
{
    if i < 0 || i >= es.len() {
        seq![]
    } else {
        fmt_item(es[i], i == es.len() - 1, spaced) + fmt_items(es, i + 1, es[i] is Num)
    }
}

/// The text of a forest.
pub open spec fn fmt_forest(es: Seq<Expr>) -> Seq<char> {
    fmt_items(es, 0, false)
}

fn push_digits(out: &mut Vec<char>, m: u32)
    ensures
        final(out)@ == old(out)@ + nat_digits(m as nat),
    decreases m,
{
    if m >= 10 {
        push_digits(out, m / 10);
    }
    let d = (m % 10) as u8;
    let c = (d + 48) as char;
    out.push(c);
}

pub fn push_decimal(out: &mut Vec<char>, n: i32)
    ensures
        final(out)@ == old(out)@ + decimal(n as int),
{
    if n < 0 {
        out.push('-');
        let m = (-(n as i64)) as u32;
        push_digits(out, m);
    } else {
        push_digits(out, n as u32);
    }
}


fn fmt_one(e: &Expression, last: bool, spaced: bool, out: &mut Vec<char>)
    ensures
        final(out)@ == old(out)@ + fmt_item(expr_model(*e), last, spaced),
    decreases e,
{
    match e {
        Expression::Number(n) => {
            if spaced {
                out.push(' ');
            }
            push_decimal(out, *n);
        },
        Expression::Tuple(t) => {
            out.push('(');
            fmt_list(t, out);
            out.push(')');
        },
        Expression::Call { func, args } => {
            if !last {
                out.push('(');
            } else if spaced {
                out.push(' ');
            }
            let bare = match &**func {
                Expression::Call { .. } => false,
                _ => true,
            };
            fmt_one(func, bare, false, out);
            out.push('<');
            fmt_list(args, out);
            if !last {
                out.push(')');
            }
        },
    }
}

fn fmt_list(es: &Vec<Expression>, out: &mut Vec<char>)
    ensures
        final(out)@ == old(out)@ + fmt_items(exprs_model(es@), 0, false),
    decreases es,
{
    let ghost m = exprs_model(es@);
    let mut i: usize = 0;
    let mut spaced = false;
    proof {
        lemma_exprs_model_len(es@);
    }
    while i < es.len()
        invariant
            i <= es@.len(),
            m == exprs_model(es@),
            m.len() == es@.len(),
            old(out)@ + fmt_items(m, 0, false) == out@ + fmt_items(m, i as int, spaced),
        decreases es@.len() - i,
    {
        proof {
            lemma_exprs_model_index(es@, i as int);
        }
        let e = &es[i];
        fmt_one(e, i == es.len() - 1, spaced, out);
        spaced = match e {
            Expression::Number(_) => true,
            _ => false,
        };
        i = i + 1;
    }
}

/// Relies on `String::from_iter`: the string holds the characters in order.
#[verifier::external_body]
pub(crate) fn chars_to_string(v: Vec<char>) -> (r: String)
    ensures
        r@ == v@,
{
    String::from_iter(v)
}

/// Renders a forest of expressions as source text.
pub fn fmt(exprs: Vec<Expression>) -> (r: String)
    ensures
        r@ == fmt_forest(exprs_model(exprs@)),
{
    let mut out: Vec<char> = Vec::new();
    fmt_list(&exprs, &mut out);
    chars_to_string(out)
}

} // verus!
