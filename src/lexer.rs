//! Turns source text into tokens. Significant characters are `(`, `)`, `<`,
//! `>` and ASCII digits; every other character is skipped.
use vstd::prelude::*;

verus! {

/// A lexical token. A number literal carries its integer part: a `.digits`
/// fragment is matched as part of the literal and then ignored.
#[derive(Debug, Clone, Copy, PartialEq, Eq, Structural)]
pub enum Token {
    Open,
    Close,
    In,
    Out,
    Number(i32),
    /// A number literal whose integer part does not fit in an `i32`; the
    /// parser rejects it where it would build a number from it.
    LargeNumber,
}

/// Why source text could not be turned into expressions.
#[derive(Debug, Clone, Copy, PartialEq, Eq, Structural)]
pub enum ParseError {
    /// A number literal whose integer part does not fit in an `i32`.
    NumberTooLarge,
    /// An expression was expected, but another token (or the end) came.
    UnexpectedToken,
}

pub open spec fn is_digit(c: char) -> bool {
    '0' <= c && c <= '9'
}

pub open spec fn digit_value(c: char) -> int {
    c as int - '0' as int
}

/// The first position at or after `i` that does not hold a digit.
pub open spec fn digits_end(s: Seq<char>, i: int) -> int
    decreases s.len() - i,
{
    if 0 <= i < s.len() && is_digit(s[i]) {
        digits_end(s, i + 1)
    } else {
        i
    }
}

/// The decimal value of the digits `s[i..j]`.
pub open spec fn digits_value(s: Seq<char>, i: int, j: int) -> int
    decreases j - i,
{
    if j <= i {
        0
    } else {
        digits_value(s, i, j - 1) * 10 + digit_value(s[j - 1])
    }
}

/// The end of the longest match of `[0-9]+(\.[0-9]+)?` at `i`.
pub open spec fn number_end(s: Seq<char>, i: int) -> int {
    let j = digits_end(s, i);
    if j + 1 < s.len() && s[j] == '.' && is_digit(s[j + 1]) {
        digits_end(s, j + 1)
    } else {
        j
    }
}

pub proof fn lemma_digits_end_bounds(s: Seq<char>, i: int)
    requires
        0 <= i <= s.len(),
    ensures
        i <= digits_end(s, i) <= s.len(),
        forall|k: int| i <= k < digits_end(s, i) ==> is_digit(#[trigger] s[k]),
        digits_end(s, i) < s.len() ==> !is_digit(s[digits_end(s, i)]),
    decreases s.len() - i,
{
    if i < s.len() && is_digit(s[i]) {
        lemma_digits_end_bounds(s, i + 1);
    }
}

pub proof fn lemma_number_end_bounds(s: Seq<char>, i: int)
    requires
        0 <= i < s.len(),
        is_digit(s[i]),
    ensures
        i < number_end(s, i) <= s.len(),
{
    lemma_digits_end_bounds(s, i);
    lemma_digits_end_bounds(s, i + 1);
    let j = digits_end(s, i);
    if j + 1 < s.len() && s[j] == '.' && is_digit(s[j + 1]) {
        lemma_digits_end_bounds(s, j + 1);
    }
}

#[via_fn]
proof fn tokens_from_decreases(s: Seq<char>, i: int) {
    if 0 <= i < s.len() && is_digit(s[i]) {
        lemma_number_end_bounds(s, i);
    }
}

/// The tokens of `s` from position `i` on.
pub open spec fn tokens_from(s: Seq<char>, i: int) -> Seq<Token>
    decreases s.len() - i,
    via tokens_from_decreases
{
    if i < 0 || i >= s.len() {
        seq![]
    } else {
        let c = s[i];
        if is_digit(c) {
            let v = digits_value(s, i, digits_end(s, i));
            let tok = if v <= i32::MAX {
                Token::Number(v as i32)
            } else {
                Token::LargeNumber
            };
            seq![tok] + tokens_from(s, number_end(s, i))
        } else {
            let rest = tokens_from(s, i + 1);
            if c == '(' {
                seq![Token::Open] + rest
            } else if c == ')' {
                seq![Token::Close] + rest
            } else if c == '<' {
                seq![Token::In] + rest
            } else if c == '>' {
                seq![Token::Out] + rest
            } else {
                rest
            }
        }
    }
}

/// The tokens of the whole text.
pub open spec fn tokens_of(s: Seq<char>) -> Seq<Token> {
    tokens_from(s, 0)
}

proof fn lemma_digits_value_grows(s: Seq<char>, i: int, j: int, k: int)
    requires
        i <= j <= k,
        forall|m: int| i <= m < k ==> is_digit(#[trigger] s[m]),
    ensures
        0 <= digits_value(s, i, j) <= digits_value(s, i, k),
    decreases k - j,
{
    if j < k {
        lemma_digits_value_grows(s, i, j, k - 1);
        assert(is_digit(s[k - 1]));
        lemma_digits_value_nonneg(s, i, k - 1);
    } else {
        lemma_digits_value_nonneg(s, i, j);
    }
}

proof fn lemma_digits_value_nonneg(s: Seq<char>, i: int, j: int)
    requires
        forall|m: int| i <= m < j ==> is_digit(#[trigger] s[m]),
    ensures
        0 <= digits_value(s, i, j),
    decreases j - i,
{
    if i < j {
        lemma_digits_value_nonneg(s, i, j - 1);
        assert(is_digit(s[j - 1]));
    }
}

fn is_digit_char(c: char) -> (r: bool)
    ensures
        r == is_digit(c),
{
    '0' <= c && c <= '9'
}

/// Splits `s` into tokens, by longest match.
pub fn lex(s: &str) -> (r: Vec<Token>)
    ensures
        r@ == tokens_of(s@),
{
    let n = s.unicode_len();
    let mut i: usize = 0;
    let mut out: Vec<Token> = Vec::new();
    while i < n
        invariant
            n == s@.len(),
            i <= n,
            tokens_of(s@) == out@ + tokens_from(s@, i as int),
        decreases n - i,
    {
        let c = s.get_char(i);
        if is_digit_char(c) {
            let start = i;
            let mut v: i32 = 0;
            let mut large = false;
            proof {
                lemma_digits_end_bounds(s@, start as int);
            }
            while i < n && is_digit_char(s.get_char(i))
                invariant
                    n == s@.len(),
                    start < n,
                    is_digit(s@[start as int]),
                    tokens_of(s@) == out@ + tokens_from(s@, start as int),
                    start <= i <= n,
                    i <= digits_end(s@, start as int) <= n,
                    0 <= v,
                    forall|k: int| start <= k < digits_end(s@, start as int) ==> is_digit(#[trigger] s@[k]),
                    digits_end(s@, start as int) < n ==> !is_digit(s@[digits_end(s@, start as int)]),
                    !large ==> v == digits_value(s@, start as int, i as int),
                    large ==> digits_value(s@, start as int, i as int) > i32::MAX,
                decreases n - i,
            {
                let d = s.get_char(i);
                let dv = (d as u32 - '0' as u32) as i32;
                assert(is_digit(s@[i as int]));
                proof {
                    lemma_digits_value_grows(s@, start as int, i as int, i + 1);
                }
                if !large {
                    if v > (i32::MAX - dv) / 10 {
                        assert(v * 10 + dv > i32::MAX) by (nonlinear_arith)
                            requires v > (i32::MAX - dv) / 10, 0 <= dv <= 9;
                        large = true;
                    } else {
                        assert(0 <= v * 10 + dv <= i32::MAX) by (nonlinear_arith)
                            requires v <= (i32::MAX - dv) / 10, 0 <= dv <= 9, 0 <= v;
                        v = v * 10 + dv;
                    }
                }
                i = i + 1;
            }
            assert(i == digits_end(s@, start as int));
            if i < n && n - i > 1 && s.get_char(i) == '.' && is_digit_char(s.get_char(i + 1)) {
                let frac = i + 1;
                proof {
                    lemma_digits_end_bounds(s@, frac as int);
                }
                i = i + 1;
                while i < n && is_digit_char(s.get_char(i))
                    invariant
                        n == s@.len(),
                        start < frac,
                        tokens_of(s@) == out@ + tokens_from(s@, start as int),
                        is_digit(s@[start as int]),
                        frac == digits_end(s@, start as int) + 1,
                        s@[frac - 1] == '.',
                        frac < n,
                        is_digit(s@[frac as int]),
                        frac <= i <= n,
                        i <= digits_end(s@, frac as int) <= n,
                        forall|k: int| frac <= k < digits_end(s@, frac as int) ==> is_digit(#[trigger] s@[k]),
                        digits_end(s@, frac as int) < n ==> !is_digit(s@[digits_end(s@, frac as int)]),
                    decreases n - i,
                {
                    i = i + 1;
                }
            }
            assert(i == number_end(s@, start as int));
            let tok = if large {
                Token::LargeNumber
            } else {
                Token::Number(v)
            };
            proof {
                let rest = tokens_from(s@, i as int);
                assert(tokens_from(s@, start as int) == seq![tok] + rest);
                assert(out@ + (seq![tok] + rest) == out@.push(tok) + rest);
            }
            out.push(tok);
        } else {
            let tok = if c == '(' {
                Some(Token::Open)
            } else if c == ')' {
                Some(Token::Close)
            } else if c == '<' {
                Some(Token::In)
            } else if c == '>' {
                Some(Token::Out)
            } else {
                None
            };
            proof {
                let rest = tokens_from(s@, i + 1);
                if let Some(k) = tok {
                    assert(out@ + (seq![k] + rest) == out@.push(k) + rest);
                }
            }
            if let Some(k) = tok {
                out.push(k);
            }
            i = i + 1;
        }
    }
    proof {
        assert(out@ + seq![] == out@);
    }
    out
}

/// No number token of a text is negative.
pub proof fn lemma_tokens_nonneg(s: Seq<char>, i: int)
    ensures
        forall|k: int|
            0 <= k < tokens_from(s, i).len() && (#[trigger] tokens_from(s, i)[k]) is Number ==> tokens_from(s, i)[k]->Number_0
                >= 0,
    decreases s.len() - i,
{
    if 0 <= i < s.len() {
        if is_digit(s[i]) {
            lemma_number_end_bounds(s, i);
            lemma_digits_end_bounds(s, i);
            lemma_digits_value_nonneg(s, i, digits_end(s, i));
            lemma_tokens_nonneg(s, number_end(s, i));
        } else {
            lemma_tokens_nonneg(s, i + 1);
        }
    }
}

/// A character that the lexer skips wherever it stands: no digit, no
/// parenthesis, no `<` and no `>`.
pub open spec fn skippable(c: char) -> bool {
    !is_digit(c) && c != '(' && c != ')' && c != '<' && c != '>'
}

/// Two characters that may belong to one number literal when adjacent.
pub open spec fn may_join(x: char, y: char) -> bool {
    (is_digit(x) || x == '.') && (is_digit(y) || y == '.')
}

pub proof fn lemma_digits_value_shift(s1: Seq<char>, s2: Seq<char>, d: int, i: int, j: int)
    requires
        forall|k: int| i <= k < j ==> s1[k] == #[trigger] s2[k + d],
    ensures
        digits_value(s2, i + d, j + d) == digits_value(s1, i, j),
    decreases j - i,
{
    if j > i {
        lemma_digits_value_shift(s1, s2, d, i, j - 1);
        assert(s1[j - 1] == s2[j - 1 + d]);
    }
}

proof fn lemma_digits_end_shift(s1: Seq<char>, s2: Seq<char>, d: int, lo: int, i: int)
    requires
        0 <= lo <= i <= s1.len(),
        0 <= d,
        s1.len() + d == s2.len(),
        forall|k: int| lo <= k < s1.len() ==> s1[k] == #[trigger] s2[k + d],
    ensures
        digits_end(s2, i + d) == digits_end(s1, i) + d,
    decreases s1.len() - i,
{
    if i < s1.len() {
        assert(s1[i] == s2[i + d]);
        lemma_digits_end_shift(s1, s2, d, lo, i + 1);
    }
}

/// The tokens from a position depend only on the text from there on.
proof fn lemma_tokens_shift(s1: Seq<char>, s2: Seq<char>, d: int, lo: int, i: int)
    requires
        0 <= lo <= i <= s1.len(),
        0 <= d,
        s1.len() + d == s2.len(),
        forall|k: int| lo <= k < s1.len() ==> s1[k] == #[trigger] s2[k + d],
    ensures
        tokens_from(s2, i + d) == tokens_from(s1, i),
    decreases s1.len() - i,
{
    if i < s1.len() {
        assert(s1[i] == s2[i + d]);
        if is_digit(s1[i]) {
            lemma_number_end_bounds(s1, i);
            lemma_digits_end_bounds(s1, i);
            let e = digits_end(s1, i);
            lemma_digits_end_shift(s1, s2, d, lo, i);
            lemma_digits_value_shift(s1, s2, d, i, e);
            if e + 1 < s1.len() {
                assert(s1[e] == s2[e + d]);
                assert(s1[e + 1] == s2[e + 1 + d]);
                lemma_digits_end_shift(s1, s2, d, lo, e + 1);
            }
            assert(number_end(s2, i + d) == number_end(s1, i) + d);
            lemma_tokens_shift(s1, s2, d, lo, number_end(s1, i));
        } else {
            lemma_tokens_shift(s1, s2, d, lo, i + 1);
        }
    }
}

proof fn lemma_skip_run(t: Seq<char>, lo: int, hi: int, k: int)
    requires
        0 <= lo <= k <= hi <= t.len(),
        forall|m: int| lo <= m < hi ==> skippable(#[trigger] t[m]),
    ensures
        tokens_from(t, k) == tokens_from(t, hi),
    decreases hi - k,
{
    if k < hi {
        assert(skippable(t[k]));
        lemma_skip_run(t, lo, hi, k + 1);
    }
}

proof fn lemma_run_agrees(a: Seq<char>, j: Seq<char>, b: Seq<char>, i: int)
    requires
        forall|m: int| 0 <= m < j.len() ==> skippable(#[trigger] j[m]),
        !(a.len() > 0 && b.len() > 0 && may_join(a.last(), b[0])),
        0 <= i <= a.len(),
        i < a.len() || (a.len() > 0 && is_digit(a.last())),
    ensures
        digits_end(a + j + b, i) == digits_end(a + b, i),
        digits_end(a + b, i) <= a.len(),
    decreases a.len() - i,
{
    let t = a + j + b;
    let u = a + b;
    if i == a.len() {
        if j.len() > 0 {
            assert(t[i] == j[0]);
            assert(skippable(j[0]));
        } else if b.len() > 0 {
            assert(t[i] == b[0]);
        }
        if b.len() > 0 {
            assert(u[i] == b[0]);
        }
    } else {
        assert(t[i] == a[i] && u[i] == a[i]);
        if is_digit(a[i]) {
            lemma_run_agrees(a, j, b, i + 1);
        }
    }
}

proof fn lemma_tokens_skip_prefix(a: Seq<char>, j: Seq<char>, b: Seq<char>, i: int)
    requires
        forall|m: int| 0 <= m < j.len() ==> skippable(#[trigger] j[m]),
        !(a.len() > 0 && b.len() > 0 && may_join(a.last(), b[0])),
        0 <= i <= a.len(),
    ensures
        tokens_from(a + j + b, i) == tokens_from(a + b, i),
    decreases a.len() - i,
{
    let t = a + j + b;
    let u = a + b;
    let n = a.len() as int;
    if i == n {
        assert forall|m: int| n <= m < n + j.len() implies skippable(#[trigger] t[m]) by {
            assert(t[m] == j[m - n]);
        }
        lemma_skip_run(t, n, n + j.len(), n);
        assert forall|k: int| n <= k < u.len() implies u[k] == #[trigger] t[k + j.len()] by {
            assert(u[k] == b[k - n]);
            assert(t[k + j.len()] == b[k - n]);
        }
        lemma_tokens_shift(u, t, j.len() as int, n, n);
    } else {
        assert(t[i] == a[i] && u[i] == a[i]);
        if is_digit(a[i]) {
            lemma_run_agrees(a, j, b, i);
            lemma_digits_end_bounds(u, i);
            lemma_digits_end_bounds(t, i);
            let e = digits_end(u, i);
            assert forall|k: int| i <= k < e implies u[k] == #[trigger] t[k + 0] by {
                assert(u[k] == a[k] && t[k] == a[k]);
            }
            lemma_digits_value_shift(u, t, 0, i, e);
            if e == n {
                assert(is_digit(u[n - 1]));
                assert(u[n - 1] == a.last());
                if b.len() > 0 {
                    assert(u[n] == b[0]);
                }
                if j.len() > 0 {
                    assert(t[n] == j[0]);
                    if j.len() > 1 {
                        assert(t[n + 1] == j[1]);
                        assert(skippable(j[1]));
                    } else if b.len() > 0 {
                        assert(t[n + 1] == b[0]);
                    }
                }
                assert(number_end(u, i) == e);
                assert(number_end(t, i) == e);
            } else {
                assert(u[e] == a[e] && t[e] == a[e]);
                if e + 1 < n {
                    assert(u[e + 1] == a[e + 1] && t[e + 1] == a[e + 1]);
                    if a[e] == '.' && is_digit(a[e + 1]) {
                        lemma_run_agrees(a, j, b, e + 1);
                        lemma_digits_end_bounds(u, e + 1);
                    }
                } else {
                    if b.len() > 0 {
                        assert(u[n] == b[0]);
                    }
                    if j.len() > 0 {
                        assert(t[n] == j[0]);
                    } else if b.len() > 0 {
                        assert(t[n] == b[0]);
                    }
                }
                assert(number_end(u, i) == number_end(t, i));
            }
            lemma_number_end_bounds(u, i);
            lemma_tokens_skip_prefix(a, j, b, number_end(u, i));
        } else {
            lemma_tokens_skip_prefix(a, j, b, i + 1);
        }
    }
}

/// Inserting a run of skipped characters into a text, or taking one out,
/// changes none of its tokens, provided the run does not stand between two
/// characters that could belong to one number literal.
pub proof fn lemma_skip_invariance(a: Seq<char>, j: Seq<char>, b: Seq<char>)
    requires
        forall|m: int| 0 <= m < j.len() ==> skippable(#[trigger] j[m]),
        !(a.len() > 0 && b.len() > 0 && may_join(a.last(), b[0])),
    ensures
        tokens_of(a + j + b) == tokens_of(a + b),
{
    lemma_tokens_skip_prefix(a, j, b, 0);
}

} // verus!
