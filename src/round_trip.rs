//! Formatting a forest and parsing the text back gives the forest again,
//! with one-item tuples flattened.
use vstd::prelude::*;
use crate::format::{decimal, digit_char, fmt_forest, fmt_item, fmt_items, nat_digits};
use crate::lexer::{
    digit_value, digits_end, digits_value, is_digit, lemma_digits_value_shift, lemma_tokens_nonneg, number_end,
    tokens_from, tokens_of, ParseError, Token,
};
use crate::parser::{group, parse_expr_at, parse_list_at, parse_primary_at, parse_source, parse_tokens, Expr};

verus! {

/// An expression with one-item tuples replaced by their item, everywhere.
pub open spec fn norm(e: Expr) -> Expr
    decreases e, 0int,
{
    match e {
        Expr::Num(n) => Expr::Num(n),
        Expr::Tuple(t) => if t.len() == 1 {
            norm(t[0])
        } else {
            Expr::Tuple(norms(t, 0))
        },
        Expr::Call(f, a) => Expr::Call(Box::new(norm(*f)), norms(a, 0)),
    }
}

pub open spec fn norms(es: Seq<Expr>, i: int) -> Seq<Expr>
    decreases es, es.len() - i,
{
    if i < 0 || i >= es.len() {
        seq![]
    } else {
        seq![norm(es[i])] + norms(es, i + 1)
    }
}

/// No number is negative.
pub open spec fn printable(e: Expr) -> bool
    decreases e, 0int,
{
    match e {
        Expr::Num(n) => n >= 0,
        Expr::Tuple(t) => all_printable(t, 0),
        Expr::Call(f, a) => printable(*f) && all_printable(a, 0),
    }
}

pub open spec fn all_printable(es: Seq<Expr>, i: int) -> bool
    decreases es, es.len() - i,
{
    if i < 0 || i >= es.len() {
        true
    } else {
        printable(es[i]) && all_printable(es, i + 1)
    }
}

/// The tokens of one sibling as the formatter writes it.
pub open spec fn item_tokens(e: Expr, last: bool) -> Seq<Token>
    decreases e, 0int,
{
    match e {
        Expr::Num(n) => seq![Token::Number(n)],
        Expr::Tuple(t) => seq![Token::Open] + items_tokens(t, 0) + seq![Token::Close],
        Expr::Call(f, a) => {
            let inner = item_tokens(*f, !(*f is Call)) + seq![Token::In] + items_tokens(a, 0);
            if last {
                inner
            } else {
                seq![Token::Open] + inner + seq![Token::Close]
            }
        },
    }
}

/// The tokens of the siblings `es[i..]` as the formatter writes them.
pub open spec fn items_tokens(es: Seq<Expr>, i: int) -> Seq<Token>
    decreases es, es.len() - i,
{
    if i < 0 || i >= es.len() {
        seq![]
    } else {
        item_tokens(es[i], i == es.len() - 1) + items_tokens(es, i + 1)
    }
}

/// `t` holds `x` from position `p` on.
pub open spec fn holds_at<A>(t: Seq<A>, p: int, x: Seq<A>) -> bool {
    0 <= p && p + x.len() <= t.len() && forall|k: int| 0 <= k < x.len() ==> t[p + k] == #[trigger] x[k]
}

proof fn lemma_holds_split<A>(t: Seq<A>, p: int, x: Seq<A>, y: Seq<A>)
    requires
        holds_at(t, p, x + y),
    ensures
        holds_at(t, p, x),
        holds_at(t, p + x.len(), y),
{
    assert forall|k: int| 0 <= k < x.len() implies t[p + k] == #[trigger] x[k] by {
        assert((x + y)[k] == x[k]);
    }
    assert forall|k: int| 0 <= k < y.len() implies t[p + x.len() + k] == #[trigger] y[k] by {
        assert((x + y)[x.len() + k] == y[k]);
    }
}

/// The token that starts a sibling.
proof fn lemma_item_starts(e: Expr, last: bool)
    requires
        printable(e),
    ensures
        item_tokens(e, last).len() > 0,
        item_tokens(e, last)[0] is Number || item_tokens(e, last)[0] is Open,
    decreases e,
{
    match e {
        Expr::Call(f, a) => {
            if last {
                lemma_item_starts(*f, !(*f is Call));
            }
        },
        _ => {},
    }
}

/// A number, a tuple, or a call in parentheses parses as a primary.
proof fn lemma_parse_primary(t: Seq<Token>, p: int, e: Expr)
    requires
        printable(e),
        holds_at(t, p, item_tokens(e, !(e is Call))),
    ensures
        parse_primary_at(t, p) == Ok::<(Expr, int), ParseError>((norm(e), p + item_tokens(e, !(e is Call)).len())),
    decreases e, if e is Call { 2int } else { 0int },
{
    match e {
        Expr::Num(n) => {
            assert(t[p + 0] == item_tokens(e, true)[0]);
        },
        Expr::Tuple(ts) => {
            let inner = items_tokens(ts, 0);
            assert(item_tokens(e, true) == seq![Token::Open] + inner + seq![Token::Close]);
            lemma_holds_split(t, p, seq![Token::Open] + inner, seq![Token::Close]);
            lemma_holds_split(t, p, seq![Token::Open], inner);
            assert(t[p + 0] == seq![Token::Open][0]);
            let q = p + 1 + inner.len();
            assert(t[q + 0] == seq![Token::Close][0]);
            lemma_parse_list(t, p + 1, ts, 0);
            lemma_norms_len(ts, 0);
            if ts.len() == 1 {
                assert(norms(ts, 0)[0] == norm(ts[0]));
            }
            assert(group(norms(ts, 0)) == norm(e));
        },
        Expr::Call(f, a) => {
            let inner = item_tokens(*f, !(*f is Call)) + seq![Token::In] + items_tokens(a, 0);
            let q = p + item_tokens(e, false).len();
            assert(item_tokens(e, false) == seq![Token::Open] + inner + seq![Token::Close]);
            lemma_holds_split(t, p, seq![Token::Open] + inner, seq![Token::Close]);
            lemma_holds_split(t, p, seq![Token::Open], inner);
            assert(t[p + 0] == seq![Token::Open][0]);
            let q1 = p + 1 + inner.len();
            assert(t[q1 + 0] == seq![Token::Close][0]);
            assert(item_tokens(e, true) == inner);
            lemma_parse_item(t, p + 1, e, true);
            lemma_item_starts(e, true);
            assert(parse_list_at(t, q1) == Ok::<(Seq<Expr>, int), ParseError>((seq![], q1)));
            assert(parse_list_at(t, p + 1) == Ok::<(Seq<Expr>, int), ParseError>((seq![norm(e)] + seq![], q1)));
            assert(seq![norm(e)] + seq![] == seq![norm(e)]);
        },
    }
}

proof fn lemma_norms_len(es: Seq<Expr>, i: int)
    requires
        0 <= i <= es.len(),
    ensures
        norms(es, i).len() == es.len() - i,
    decreases es.len() - i,
{
    if i < es.len() {
        lemma_norms_len(es, i + 1);
    }
}

proof fn lemma_parse_item(t: Seq<Token>, p: int, e: Expr, last: bool)
    requires
        printable(e),
        holds_at(t, p, item_tokens(e, last)),
        p + item_tokens(e, last).len() == t.len() || t[p + item_tokens(e, last).len()] != Token::In,
        last && e is Call ==> p + item_tokens(e, last).len() == t.len() || t[p + item_tokens(e, last).len()]
            == Token::Close,
    ensures
        parse_expr_at(t, p) == Ok::<(Expr, int), ParseError>((norm(e), p + item_tokens(e, last).len())),
    decreases e, if last { 1int } else { 3int },
{
    match e {
        Expr::Call(f, a) => {
            if last {
                let callee = item_tokens(*f, !(*f is Call));
                assert(item_tokens(e, last) == callee + seq![Token::In] + items_tokens(a, 0));
                lemma_holds_split(t, p, callee + seq![Token::In], items_tokens(a, 0));
                lemma_holds_split(t, p, callee, seq![Token::In]);
                lemma_parse_primary(t, p, *f);
                let after_callee = p + callee.len();
                assert(t[after_callee + 0] == seq![Token::In][0]);
                lemma_parse_list(t, after_callee + 1, a, 0);
                lemma_item_starts(*f, !(*f is Call));
            } else {
                lemma_parse_primary(t, p, e);
            }
        },
        _ => {
            lemma_parse_primary(t, p, e);
        },
    }
}

proof fn lemma_parse_list(t: Seq<Token>, p: int, es: Seq<Expr>, i: int)
    requires
        all_printable(es, i),
        0 <= i <= es.len(),
        holds_at(t, p, items_tokens(es, i)),
        p + items_tokens(es, i).len() == t.len() || t[p + items_tokens(es, i).len()] == Token::Close,
    ensures
        parse_list_at(t, p) == Ok::<(Seq<Expr>, int), ParseError>((norms(es, i), p + items_tokens(es, i).len())),
    decreases es, es.len() - i,
{
    if i < es.len() {
        let x = item_tokens(es[i], i == es.len() - 1);
        let y = items_tokens(es, i + 1);
        lemma_holds_split(t, p, x, y);
        lemma_item_starts(es[i], i == es.len() - 1);
        assert(t[p + 0] == x[0]);
        let q = p + x.len();
        assert(all_printable(es, i + 1));
        if i + 1 < es.len() {
            assert(printable(es[i + 1]));
            lemma_item_starts(es[i + 1], i + 1 == es.len() - 1);
            assert(y == item_tokens(es[i + 1], i + 1 == es.len() - 1) + items_tokens(es, i + 2));
            assert(t[q + 0] == y[0]);
        } else {
            assert(y.len() == 0);
        }
        lemma_parse_item(t, p, es[i], i == es.len() - 1);
        lemma_parse_list(t, q, es, i + 1);
    }
}

/// Parsing the tokens that the formatter writes for a forest gives the
/// forest back, with one-item tuples flattened.
pub proof fn lemma_parse_formatted_tokens(es: Seq<Expr>)
    requires
        all_printable(es, 0),
    ensures
        parse_tokens(items_tokens(es, 0)) == Ok::<Seq<Expr>, ParseError>(norms(es, 0)),
{
    let t = items_tokens(es, 0);
    lemma_parse_list(t, 0, es, 0);
}


/// The text `x` ending at `q` in `s` is not continued by what follows it:
/// where `x` ends with a digit, no digit and no `.` comes next.
pub open spec fn ends_cleanly(s: Seq<char>, q: int, x: Seq<char>) -> bool {
    q >= s.len() || !(is_digit(s[q]) || s[q] == '.') || x.len() == 0 || !is_digit(x.last())
}

proof fn lemma_concat_assoc(x: Seq<Token>, y: Seq<Token>, z: Seq<Token>)
    ensures
        x + (y + z) == (x + y) + z,
{
    assert(x + (y + z) =~= (x + y) + z);
}

proof fn lemma_digit_char(d: int)
    requires
        0 <= d <= 9,
    ensures
        is_digit(digit_char(d)),
        digit_value(digit_char(d)) == d,
{
}

proof fn lemma_nat_digits(n: nat)
    ensures
        nat_digits(n).len() > 0,
        forall|k: int| 0 <= k < nat_digits(n).len() ==> is_digit(#[trigger] nat_digits(n)[k]),
        digits_value(nat_digits(n), 0, nat_digits(n).len() as int) == n,
    decreases n,
{
    if n >= 10 {
        lemma_nat_digits(n / 10);
        let s = nat_digits(n / 10);
        let c = digit_char((n % 10) as int);
        lemma_digit_char((n % 10) as int);
        assert forall|k: int| 0 <= k < s.len() implies s[k] == #[trigger] s.push(c)[k + 0] by {}
        lemma_digits_value_shift(s, s.push(c), 0, 0, s.len() as int);
        let t = s.push(c);
        assert(nat_digits(n) == t);
        assert(t[s.len() as int] == c);
        assert(digits_value(t, 0, t.len() as int) == digits_value(t, 0, s.len() as int) * 10 + digit_value(c));
        assert((n / 10) * 10 + n % 10 == n);
    } else {
        lemma_digit_char(n as int);
        let t = nat_digits(n);
        assert(digits_value(t, 0, 1) == digits_value(t, 0, 0) * 10 + digit_value(t[0]));
    }
}

proof fn lemma_digits_end_at(s: Seq<char>, i: int, e: int)
    requires
        0 <= i <= e <= s.len(),
        forall|k: int| i <= k < e ==> is_digit(#[trigger] s[k]),
        e == s.len() || !is_digit(s[e]),
    ensures
        digits_end(s, i) == e,
    decreases e - i,
{
    if i < e {
        assert(is_digit(s[i]));
        lemma_digits_end_at(s, i + 1, e);
    }
}

proof fn lemma_lex_number(s: Seq<char>, p: int, n: i32)
    requires
        n >= 0,
        holds_at(s, p, nat_digits(n as nat)),
        p + nat_digits(n as nat).len() == s.len() || !(is_digit(s[p + nat_digits(n as nat).len()]) || s[p
            + nat_digits(n as nat).len()] == '.'),
    ensures
        tokens_from(s, p) == seq![Token::Number(n)] + tokens_from(s, p + nat_digits(n as nat).len()),
{
    let d = nat_digits(n as nat);
    let q = p + d.len();
    lemma_nat_digits(n as nat);
    assert(s[p + 0] == d[0]);
    assert forall|k: int| p <= k < q implies is_digit(#[trigger] s[k]) by {
        assert(s[p + (k - p)] == d[k - p]);
    }
    lemma_digits_end_at(s, p, q);
    assert forall|k: int| 0 <= k < d.len() implies d[k] == #[trigger] s[k + p] by {
        assert(s[p + k] == d[k]);
    }
    lemma_digits_value_shift(d, s, p, 0, d.len() as int);
    assert(number_end(s, p) == q);
}

/// The text of a sibling: not empty; after a number it starts with a space
/// or `(`; when it is neither a number nor the last sibling it ends with `)`.
proof fn lemma_item_text(e: Expr, last: bool, spaced: bool)
    requires
        printable(e),
    ensures
        fmt_item(e, last, spaced).len() > 0,
        spaced ==> fmt_item(e, last, spaced)[0] == ' ' || fmt_item(e, last, spaced)[0] == '(',
        !last && !(e is Num) ==> fmt_item(e, last, spaced).last() == ')',
{
    match e {
        Expr::Num(n) => {
            lemma_nat_digits(n as nat);
        },
        _ => {},
    }
}

proof fn lemma_lex_item(s: Seq<char>, p: int, e: Expr, last: bool, spaced: bool)
    requires
        printable(e),
        holds_at(s, p, fmt_item(e, last, spaced)),
        ends_cleanly(s, p + fmt_item(e, last, spaced).len(), fmt_item(e, last, spaced)),
    ensures
        tokens_from(s, p) == item_tokens(e, last) + tokens_from(s, p + fmt_item(e, last, spaced).len()),
    decreases e, 0int,
{
    let x = fmt_item(e, last, spaced);
    let q = p + x.len();
    match e {
        Expr::Num(n) => {
            let d = nat_digits(n as nat);
            lemma_nat_digits(n as nat);
            assert(decimal(n as int) == d);
            if spaced {
                assert(x == seq![' '] + d);
                lemma_holds_split(s, p, seq![' '], d);
                assert(s[p + 0] == seq![' '][0]);
                assert(is_digit(x.last()));
                lemma_lex_number(s, p + 1, n);
            } else {
                assert(x == d);
                assert(is_digit(x.last()));
                lemma_lex_number(s, p, n);
            }
        },
        Expr::Tuple(t) => {
            let inner = fmt_items(t, 0, false);
            assert(x == seq!['('] + inner + seq![')']);
            lemma_holds_split(s, p, seq!['('] + inner, seq![')']);
            lemma_holds_split(s, p, seq!['('], inner);
            assert(s[p + 0] == seq!['('][0]);
            let q1 = p + 1 + inner.len();
            assert(s[q1 + 0] == seq![')'][0]);
            lemma_lex_items(s, p + 1, t, 0, false);
            lemma_concat_assoc(items_tokens(t, 0), seq![Token::Close], tokens_from(s, q));
            lemma_concat_assoc(seq![Token::Open], items_tokens(t, 0) + seq![Token::Close], tokens_from(s, q));
            assert(seq![Token::Open] + (items_tokens(t, 0) + seq![Token::Close]) == item_tokens(e, last));
        },
        Expr::Call(f, a) => {
            let open = if !last {
                seq!['(']
            } else if spaced {
                seq![' ']
            } else {
                seq![]
            };
            let close = if !last {
                seq![')']
            } else {
                seq![]
            };
            let bare = !(*f is Call);
            let ft = fmt_item(*f, bare, false);
            let at = fmt_items(a, 0, false);
            assert(x == open + ft + seq!['<'] + at + close);
            lemma_holds_split(s, p, open + ft + seq!['<'] + at, close);
            lemma_holds_split(s, p, open + ft + seq!['<'], at);
            lemma_holds_split(s, p, open + ft, seq!['<']);
            lemma_holds_split(s, p, open, ft);
            let callee_at = p + open.len();
            let lt_at = callee_at + ft.len();
            let args_at = lt_at + 1;
            let args_end = args_at + at.len();
            assert(s[lt_at + 0] == seq!['<'][0]);
            lemma_lex_item(s, callee_at, *f, bare, false);
            if !last {
                assert(s[args_end + 0] == seq![')'][0]);
            } else if at.len() > 0 {
                assert(x.last() == at.last());
            }
            lemma_lex_items(s, args_at, a, 0, false);
            let rest = tokens_from(s, q);
            let ft_t = item_tokens(*f, bare);
            let at_t = items_tokens(a, 0);
            if !last {
                assert(s[p + 0] == seq!['('][0]);
                lemma_concat_assoc(at_t, seq![Token::Close], rest);
                lemma_concat_assoc(seq![Token::In], at_t + seq![Token::Close], rest);
                lemma_concat_assoc(ft_t, seq![Token::In] + (at_t + seq![Token::Close]), rest);
                lemma_concat_assoc(seq![Token::Open], ft_t + (seq![Token::In] + (at_t + seq![Token::Close])), rest);
                assert(seq![Token::Open] + (ft_t + (seq![Token::In] + (at_t + seq![Token::Close])))
                    == item_tokens(e, last));
            } else {
                if spaced {
                    assert(s[p + 0] == seq![' '][0]);
                }
                assert(args_end == q);
                lemma_concat_assoc(seq![Token::In], at_t, rest);
                lemma_concat_assoc(ft_t, seq![Token::In] + at_t, rest);
                assert(ft_t + (seq![Token::In] + at_t) == item_tokens(e, last));
            }
        },
    }
}

proof fn lemma_lex_items(s: Seq<char>, p: int, es: Seq<Expr>, i: int, spaced: bool)
    requires
        all_printable(es, i),
        0 <= i,
        holds_at(s, p, fmt_items(es, i, spaced)),
        ends_cleanly(s, p + fmt_items(es, i, spaced).len(), fmt_items(es, i, spaced)),
    ensures
        tokens_from(s, p) == items_tokens(es, i) + tokens_from(s, p + fmt_items(es, i, spaced).len()),
    decreases es, es.len() - i,
{
    if i >= es.len() {
        assert(seq![] + tokens_from(s, p) == tokens_from(s, p));
    } else {
        let last = i == es.len() - 1;
        let xi = fmt_item(es[i], last, spaced);
        let y = fmt_items(es, i + 1, es[i] is Num);
        let x = xi + y;
        assert(fmt_items(es, i, spaced) == x);
        lemma_holds_split(s, p, xi, y);
        assert(all_printable(es, i + 1));
        lemma_item_text(es[i], last, spaced);
        let q = p + xi.len();
        if i + 1 < es.len() {
            assert(printable(es[i + 1]));
            lemma_item_text(es[i + 1], i + 1 == es.len() - 1, es[i] is Num);
            assert(y == fmt_item(es[i + 1], i + 1 == es.len() - 1, es[i] is Num) + fmt_items(es, i + 2, es[i + 1] is Num));
            assert(s[q + 0] == y[0]);
            assert(x.last() == y.last());
        } else {
            assert(y.len() == 0);
            assert(x == xi);
        }
        lemma_lex_item(s, p, es[i], last, spaced);
        lemma_lex_items(s, q, es, i + 1, es[i] is Num);
        lemma_concat_assoc(item_tokens(es[i], last), items_tokens(es, i + 1), tokens_from(s, q + y.len()));
    }
}

/// The text that the formatter writes for a forest lexes to the tokens of
/// that forest.
pub proof fn lemma_lex_formatted(es: Seq<Expr>)
    requires
        all_printable(es, 0),
    ensures
        tokens_of(fmt_forest(es)) == items_tokens(es, 0),
{
    let s = fmt_forest(es);
    lemma_lex_items(s, 0, es, 0, false);
    assert(items_tokens(es, 0) + seq![] == items_tokens(es, 0));
}

/// Formatting a forest and parsing the text gives the forest back, with
/// one-item tuples flattened, for every forest without negative numbers.
pub proof fn lemma_format_parse_round_trip(es: Seq<Expr>)
    requires
        all_printable(es, 0),
    ensures
        parse_source(fmt_forest(es)) == Ok::<Seq<Expr>, ParseError>(norms(es, 0)),
{
    lemma_lex_formatted(es);
    lemma_parse_formatted_tokens(es);
}

/// What the parser builds: no negative number, no one-item tuple.
pub open spec fn settled(e: Expr) -> bool {
    printable(e) && norm(e) == e
}

pub open spec fn nonneg_numbers(t: Seq<Token>) -> bool {
    forall|k: int| 0 <= k < t.len() && (#[trigger] t[k]) is Number ==> t[k]->Number_0 >= 0
}

proof fn lemma_settled_list(es: Seq<Expr>, i: int)
    requires
        0 <= i <= es.len(),
        forall|k: int| 0 <= k < es.len() ==> settled(#[trigger] es[k]),
    ensures
        all_printable(es, i),
        norms(es, i) == es.subrange(i, es.len() as int),
    decreases es.len() - i,
{
    if i < es.len() {
        assert(settled(es[i]));
        lemma_settled_list(es, i + 1);
        assert(seq![norm(es[i])] + es.subrange(i + 1, es.len() as int) =~= es.subrange(i, es.len() as int));
    } else {
        assert(es.subrange(i, es.len() as int) =~= seq![]);
    }
}

proof fn lemma_parsed_list(t: Seq<Token>, p: int)
    requires
        nonneg_numbers(t),
    ensures
        parse_list_at(t, p) is Ok ==> forall|k: int|
            0 <= k < parse_list_at(t, p)->Ok_0.0.len() ==> settled(#[trigger] parse_list_at(t, p)->Ok_0.0[k]),
    decreases t.len() - p, 2int,
{
    if !(p < 0 || p >= t.len() || t[p] == Token::Close) {
        lemma_parsed_expr(t, p);
        if let Ok((e, q)) = parse_expr_at(t, p) {
            if p < q <= t.len() {
                lemma_parsed_list(t, q);
                if let Ok((es, r)) = parse_list_at(t, q) {
                    let all = seq![e] + es;
                    assert forall|k: int| 0 <= k < all.len() implies settled(#[trigger] all[k]) by {
                        if k > 0 {
                            assert(all[k] == es[k - 1]);
                        }
                    }
                }
            }
        }
    }
}

proof fn lemma_parsed_primary(t: Seq<Token>, p: int)
    requires
        nonneg_numbers(t),
    ensures
        parse_primary_at(t, p) is Ok ==> settled(parse_primary_at(t, p)->Ok_0.0),
    decreases t.len() - p, 0int,
{
    if 0 <= p < t.len() {
        if t[p] is Open {
            lemma_parsed_list(t, p + 1);
            if let Ok((es, q)) = parse_list_at(t, p + 1) {
                if es.len() != 1 {
                    lemma_settled_list(es, 0);
                    assert(es.subrange(0, es.len() as int) =~= es);
                }
            }
        }
    }
}

proof fn lemma_parsed_expr(t: Seq<Token>, p: int)
    requires
        nonneg_numbers(t),
    ensures
        parse_expr_at(t, p) is Ok ==> settled(parse_expr_at(t, p)->Ok_0.0),
    decreases t.len() - p, 1int,
{
    lemma_parsed_primary(t, p);
    if let Ok((first, q)) = parse_primary_at(t, p) {
        if p <= q < t.len() && t[q] == Token::In {
            lemma_parsed_list(t, q + 1);
            if let Ok((args, r)) = parse_list_at(t, q + 1) {
                lemma_settled_list(args, 0);
                assert(args.subrange(0, args.len() as int) =~= args);
            }
        }
    }
}

/// Every forest that the parser returns comes back unchanged when it is
/// formatted and parsed again.
pub proof fn lemma_parsed_forest_round_trip(s: Seq<char>, es: Seq<Expr>)
    requires
        parse_source(s) == Ok::<Seq<Expr>, ParseError>(es),
    ensures
        parse_source(fmt_forest(es)) == Ok::<Seq<Expr>, ParseError>(es),
{
    let t = tokens_of(s);
    lemma_tokens_nonneg(s, 0);
    lemma_parsed_list(t, 0);
    lemma_settled_list(es, 0);
    assert(es.subrange(0, es.len() as int) =~= es);
    lemma_format_parse_round_trip(es);
}

} // verus!
