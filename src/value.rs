//! Runtime values and the operations on them that the built-in functions use.
use vstd::prelude::*;
use crate::format::{chars_to_string, decimal, push_decimal};

verus! {

broadcast use vstd::std_specs::vec::group_vec_axioms;

/// A runtime value: a number, or a tuple of values.
#[derive(Debug)]
pub enum Value {
    Number(i32),
    Tuple(Vec<Value>),
}

/// The mathematical form of a value.
pub enum Val {
    Num(i32),
    Tup(Seq<Val>),
}

pub open spec fn val_model(v: Value) -> Val
    decreases v,
{
    match v {
        Value::Number(n) => Val::Num(n),
        Value::Tuple(t) => Val::Tup(vals_model(t@)),
    }
}

pub open spec fn vals_model(s: Seq<Value>) -> Seq<Val>
    decreases s,
{
    if s.len() == 0 {
        seq![]
    } else {
        vals_model(s.drop_last()).push(val_model(s.last()))
    }
}

pub proof fn lemma_vals_model_push(s: Seq<Value>, v: Value)
    ensures
        vals_model(s.push(v)) == vals_model(s).push(val_model(v)),
{
    assert(s.push(v).drop_last() == s);
}

pub proof fn lemma_vals_model_index(s: Seq<Value>, i: int)
    ensures
        vals_model(s).len() == s.len(),
        0 <= i < s.len() ==> vals_model(s)[i] == val_model(s[i]),
    decreases s.len(),
{
    if s.len() > 0 {
        lemma_vals_model_index(s.drop_last(), i);
    }
}

/// Two sequences whose items have the same forms have the same form.
pub proof fn lemma_vals_model_pointwise(a: Seq<Value>, b: Seq<Value>)
    requires
        a.len() == b.len(),
        forall|k: int| 0 <= k < a.len() ==> val_model(#[trigger] a[k]) == val_model(b[k]),
    ensures
        vals_model(a) == vals_model(b),
    decreases a.len(),
{
    if a.len() > 0 {
        let (a1, b1) = (a.drop_last(), b.drop_last());
        assert forall|k: int| 0 <= k < a1.len() implies val_model(#[trigger] a1[k]) == val_model(b1[k]) by {
            assert(a1[k] == a[k] && b1[k] == b[k]);
        }
        lemma_vals_model_pointwise(a1, b1);
        assert(val_model(a.last()) == val_model(b.last()));
    }
}

/// The empty tuple, the result of statement-like built-ins.
pub open spec fn unit() -> Val {
    Val::Tup(seq![])
}

/// A number is true when it is not zero; a tuple when it is not empty.
pub open spec fn truthy(v: Val) -> bool {
    match v {
        Val::Num(n) => n != 0,
        Val::Tup(t) => t.len() > 0,
    }
}

/// A number stands for the one-element sequence that holds it.
pub open spec fn as_list(v: Val) -> Seq<Val> {
    match v {
        Val::Num(n) => seq![Val::Num(n)],
        Val::Tup(t) => t,
    }
}

/// The decimal text of a value: tuples in parentheses, items separated by
/// single spaces.
pub open spec fn display_spec(v: Val) -> Seq<char>
    decreases v, 0int,
{
    match v {
        Val::Num(n) => decimal(n as int),
        Val::Tup(t) => seq!['('] + display_items(t, 0) + seq![')'],
    }
}

pub open spec fn display_items(s: Seq<Val>, i: int) -> Seq<char>
    decreases s, s.len() - i,
{
    if i < 0 || i >= s.len() {
        seq![]
    } else {
        (if i == 0 {
            seq![]
        } else {
            seq![' ']
        }) + display_spec(s[i]) + display_items(s, i + 1)
    }
}

/// The character codes of a text, as numbers.
pub open spec fn codes(cs: Seq<char>) -> Seq<Val> {
    Seq::new(cs.len(), |i: int| Val::Num(cs[i] as u32 as i32))
}

/// The low eight bits of a number.
pub open spec fn low_byte(n: i32) -> u8 {
    (n as int % 256) as u8
}

/// The bytes that printing a value emits: its numbers, in order, flattened.
pub open spec fn flat_bytes(v: Val) -> Seq<u8>
    decreases v, 0int,
{
    match v {
        Val::Num(n) => seq![low_byte(n)],
        Val::Tup(t) => flat_items(t, 0),
    }
}

pub open spec fn flat_items(s: Seq<Val>, i: int) -> Seq<u8>
    decreases s, s.len() - i,
{
    if i < 0 || i >= s.len() {
        seq![]
    } else {
        flat_bytes(s[i]) + flat_items(s, i + 1)
    }
}

/// The numbers `a, a+1, ..., b-1`.
pub open spec fn range_spec(a: i32, b: i32) -> Seq<Val> {
    Seq::new(if a < b { (b - a) as nat } else { 0 }, |i: int| Val::Num((a + i) as i32))
}

/// A copy of a value.
pub fn copy_value(v: &Value) -> (r: Value)
    ensures
        val_model(r) == val_model(*v),
    decreases v,
{
    match v {
        Value::Number(n) => Value::Number(*n),
        Value::Tuple(t) => Value::Tuple(copy_values(t)),
    }
}

fn copy_values(t: &Vec<Value>) -> (r: Vec<Value>)
    ensures
        vals_model(r@) == vals_model(t@),
    decreases t,
{
    let mut out: Vec<Value> = Vec::new();
    let mut i: usize = 0;
    while i < t.len()
        invariant
            i <= t@.len(),
            out@.len() == i,
            forall|k: int| 0 <= k < i ==> val_model(#[trigger] out@[k]) == val_model(t@[k]),
        decreases t@.len() - i,
    {
        let c = copy_value(&t[i]);
        out.push(c);
        i = i + 1;
    }
    proof {
        lemma_vals_model_pointwise(out@, t@);
    }
    out
}

impl Value {
    /// The number this value holds, if it is one.
    pub fn unwrap_num(&self) -> (r: Option<i32>)
        ensures
            r == (match val_model(*self) {
                Val::Num(n) => Some(n),
                Val::Tup(_) => None::<i32>,
            }),
    {
        match self {
            Value::Number(n) => Some(*n),
            Value::Tuple(_) => None,
        }
    }
}

impl Clone for Value {
    fn clone(&self) -> Self {
        copy_value(self)
    }
}

/// Structural equality of two values.
pub fn values_equal(a: &Value, b: &Value) -> (r: bool)
    ensures
        r == (val_model(*a) == val_model(*b)),
    decreases a,
{
    match (a, b) {
        (Value::Number(x), Value::Number(y)) => *x == *y,
        (Value::Tuple(s), Value::Tuple(t)) => {
            proof {
                lemma_vals_model_index(s@, 0);
                lemma_vals_model_index(t@, 0);
            }
            if s.len() != t.len() {
                assert(vals_model(s@).len() != vals_model(t@).len());
                return false;
            }
            let mut i: usize = 0;
            while i < s.len()
                invariant
                    *a == Value::Tuple(*s),
                    *b == Value::Tuple(*t),
                    i <= s@.len(),
                    s@.len() == t@.len(),
                    forall|k: int| 0 <= k < i ==> val_model(#[trigger] s@[k]) == val_model(t@[k]),
                decreases s@.len() - i,
            {
                if !values_equal(&s[i], &t[i]) {
                    proof {
                        lemma_vals_model_index(s@, i as int);
                        lemma_vals_model_index(t@, i as int);
                        assert(vals_model(s@)[i as int] != vals_model(t@)[i as int]);
                        assert(val_model(*a) == Val::Tup(vals_model(s@)));
                        assert(val_model(*b) == Val::Tup(vals_model(t@)));
                    }
                    return false;
                }
                i = i + 1;
            }
            proof {
                lemma_vals_model_pointwise(s@, t@);
            }
            true
        },
        _ => false,
    }
}

/// Whether a value counts as true.
pub fn is_truthy(v: &Value) -> (r: bool)
    ensures
        r == truthy(val_model(*v)),
{
    match v {
        Value::Number(n) => *n != 0,
        Value::Tuple(t) => {
            proof {
                lemma_vals_model_index(t@, 0);
            }
            t.len() > 0
        },
    }
}

/// The items of a value seen as a sequence.
pub fn into_list(v: Value) -> (r: Vec<Value>)
    ensures
        vals_model(r@) == as_list(val_model(v)),
{
    match v {
        Value::Number(n) => {
            let mut out: Vec<Value> = Vec::new();
            out.push(Value::Number(n));
            proof {
                lemma_vals_model_push(Seq::empty(), Value::Number(n));
                assert(vals_model(Seq::<Value>::empty()) =~= seq![]);
                assert(vals_model(out@) =~= seq![Val::Num(n)]);
            }
            out
        },
        Value::Tuple(t) => t,
    }
}

fn display_into(v: &Value, out: &mut Vec<char>)
    ensures
        final(out)@ == old(out)@ + display_spec(val_model(*v)),
    decreases v,
{
    match v {
        Value::Number(n) => push_decimal(out, *n),
        Value::Tuple(t) => {
            out.push('(');
            display_list(t, out);
            out.push(')');
        },
    }
}

fn display_list(t: &Vec<Value>, out: &mut Vec<char>)
    ensures
        final(out)@ == old(out)@ + display_items(vals_model(t@), 0),
    decreases t,
{
    let ghost m = vals_model(t@);
    proof {
        lemma_vals_model_index(t@, 0);
    }
    let mut i: usize = 0;
    while i < t.len()
        invariant
            i <= t@.len(),
            m == vals_model(t@),
            m.len() == t@.len(),
            old(out)@ + display_items(m, 0) == out@ + display_items(m, i as int),
        decreases t@.len() - i,
    {
        proof {
            lemma_vals_model_index(t@, i as int);
        }
        if i > 0 {
            out.push(' ');
        }
        display_into(&t[i], out);
        i = i + 1;
    }
}

fn display_chars(v: Value) -> (r: Vec<char>)
    ensures
        r@ == display_spec(val_model(v)),
{
    let mut out: Vec<char> = Vec::new();
    display_into(&v, &mut out);
    out
}

/// The decimal text of a value: `(1 (2 3) ())` for a tuple.
pub fn display(v: Value) -> (r: String)
    ensures
        r@ == display_spec(val_model(v)),
{
    chars_to_string(display_chars(v))
}

/// The text of a value, as a tuple of character codes.
pub fn to_text(v: Value) -> (r: Value)
    ensures
        val_model(r) == Val::Tup(codes(display_spec(val_model(v)))),
{
    let cs = display_chars(v);
    let mut out: Vec<Value> = Vec::new();
    let mut i: usize = 0;
    while i < cs.len()
        invariant
            i <= cs@.len(),
            vals_model(out@) == codes(cs@).subrange(0, i as int),
        decreases cs@.len() - i,
    {
        let n = cs[i] as u32 as i32;
        proof {
            lemma_vals_model_push(out@, Value::Number(n));
            assert(codes(cs@).subrange(0, i + 1) =~= codes(cs@).subrange(0, i as int).push(Val::Num(n)));
        }
        out.push(Value::Number(n));
        i = i + 1;
    }
    assert(codes(cs@).subrange(0, i as int) =~= codes(cs@));
    Value::Tuple(out)
}

fn byte_of(n: i32) -> (r: u8)
    ensures
        r == low_byte(n),
{
    let m = n as i64;
    let b = if m >= 0 {
        m % 256
    } else {
        255 - ((-m - 1) % 256)
    };
    b as u8
}

/// Appends the bytes that printing a value emits.
pub fn push_bytes(v: &Value, out: &mut Vec<u8>)
    ensures
        final(out)@ == old(out)@ + flat_bytes(val_model(*v)),
    decreases v,
{
    match v {
        Value::Number(n) => {
            let b = byte_of(*n);
            out.push(b);
        },
        Value::Tuple(t) => push_list_bytes(t, out),
    }
}

fn push_list_bytes(t: &Vec<Value>, out: &mut Vec<u8>)
    ensures
        final(out)@ == old(out)@ + flat_items(vals_model(t@), 0),
    decreases t,
{
    let ghost m = vals_model(t@);
    proof {
        lemma_vals_model_index(t@, 0);
    }
    let mut i: usize = 0;
    while i < t.len()
        invariant
            i <= t@.len(),
            m == vals_model(t@),
            m.len() == t@.len(),
            old(out)@ + flat_items(m, 0) == out@ + flat_items(m, i as int),
        decreases t@.len() - i,
    {
        proof {
            lemma_vals_model_index(t@, i as int);
        }
        push_bytes(&t[i], out);
        i = i + 1;
    }
}

/// The tuple of the numbers from `a` up to, not including, `b`; empty when
/// `a >= b`.
pub fn range_values(a: i32, b: i32) -> (r: Value)
    ensures
        val_model(r) == Val::Tup(range_spec(a, b)),
{
    let mut out: Vec<Value> = Vec::new();
    let mut k: i32 = a;
    while k < b
        invariant
            a <= k,
            a < b ==> k <= b,
            a >= b ==> k == a,
            vals_model(out@) == range_spec(a, b).subrange(0, k - a),
        decreases b - k,
    {
        proof {
            lemma_vals_model_push(out@, Value::Number(k));
            assert(range_spec(a, b).subrange(0, k + 1 - a) =~= range_spec(a, b).subrange(0, k - a).push(Val::Num(k)));
        }
        out.push(Value::Number(k));
        k = k + 1;
    }
    assert(range_spec(a, b).subrange(0, k - a) =~= range_spec(a, b));
    Value::Tuple(out)
}

} // verus!
