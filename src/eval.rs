//! The evaluator: expressions are evaluated against a state of variables,
//! user-defined functions and the bytes printed so far.
//!
//! Evaluation is bounded by fuel, which each step spends; a program that runs
//! out of it stops with `EvalError::OutOfFuel`.
use std::collections::HashMap;
use vstd::prelude::*;
use crate::parser::{copy_expression, expr_model, exprs_model, lemma_exprs_model_index, lemma_exprs_model_len, Expr, Expression};
use crate::value::{
    as_list, codes, copy_value, display_spec, flat_bytes, into_list, is_truthy, lemma_vals_model_index,
    lemma_vals_model_push, push_bytes, range_spec, range_values, to_text, truthy, unit, val_model,
    vals_model, values_equal, Val, Value,
};

verus! {

broadcast use vstd::std_specs::vec::group_vec_axioms, vstd::std_specs::hash::group_hash_axioms;

/// Why an evaluation failed.
#[derive(Debug, Clone, Copy, PartialEq, Eq, Structural)]
pub enum EvalError {
    /// An undefined variable or function, or a function id below 100.
    NameError,
    /// A call with the wrong number of arguments.
    ArityError,
    /// A tuple where a number is needed.
    TypeError,
    /// An index out of bounds, or the last item of an empty tuple.
    RangeError,
    /// Division by zero, or a result that does not fit in an `i32`.
    ArithError,
    /// The fuel given to the evaluation was spent.
    OutOfFuel,
}

/// The mathematical form of a state.
pub struct Machine {
    pub vars: Map<i32, Val>,
    pub funcs: Map<i32, (Seq<i32>, Expr)>,
    pub out: Seq<u8>,
}

/// Variables, user-defined functions, and what has been printed.
pub struct State {
    pub variables: HashMap<i32, Value>,
    pub functions: HashMap<i32, (Vec<i32>, Expression)>,
    pub output: Vec<u8>,
}

pub open spec fn func_model(f: (Vec<i32>, Expression)) -> (Seq<i32>, Expr) {
    (f.0@, expr_model(f.1))
}

impl View for State {
    type V = Machine;

    open spec fn view(&self) -> Machine {
        Machine {
            vars: self.variables@.map_values(|v: Value| val_model(v)),
            funcs: self.functions@.map_values(|f: (Vec<i32>, Expression)| func_model(f)),
            out: self.output@,
        }
    }
}

pub open spec fn result_model(r: Result<Value, EvalError>) -> Result<Val, EvalError> {
    match r {
        Ok(v) => Ok(val_model(v)),
        Err(e) => Err(e),
    }
}

/// The number a result holds.
pub open spec fn num_of(r: Result<Val, EvalError>) -> Result<i32, EvalError> {
    match r {
        Ok(Val::Num(n)) => Ok(n),
        Ok(Val::Tup(_)) => Err(EvalError::TypeError),
        Err(e) => Err(e),
    }
}

pub open spec fn fits(x: int) -> bool {
    i32::MIN <= x <= i32::MAX
}

pub open spec fn abs(x: int) -> int {
    if x < 0 {
        -x
    } else {
        x
    }
}

/// Integer division that rounds toward zero.
pub open spec fn trunc_div(a: int, b: int) -> int {
    if (a < 0) == (b < 0) {
        abs(a) / abs(b)
    } else {
        -(abs(a) / abs(b))
    }
}

/// `0` when `a < b`, `1` when they are equal, `2` when `a > b`.
pub open spec fn compare_spec(a: i32, b: i32) -> i32 {
    if a < b {
        0
    } else if a == b {
        1
    } else {
        2
    }
}

/// The parameter ids a value lists: a number, or a tuple of numbers.
pub open spec fn params_of(v: Val) -> Option<Seq<i32>> {
    match v {
        Val::Num(n) => Some(seq![n]),
        Val::Tup(t) => if forall|k: int| 0 <= k < t.len() ==> (#[trigger] t[k]) is Num {
            Some(Seq::new(t.len(), |k: int| t[k]->Num_0))
        } else {
            None
        },
    }
}

pub open spec fn index_spec(v: Val, k: i32) -> Result<Val, EvalError> {
    if k < 0 {
        Err(EvalError::RangeError)
    } else {
        match v {
            Val::Num(_) => if k == 0 {
                Ok(v)
            } else {
                Err(EvalError::RangeError)
            },
            Val::Tup(t) => if k < t.len() {
                Ok(t[k as int])
            } else {
                Err(EvalError::RangeError)
            },
        }
    }
}

pub open spec fn len_spec(v: Val) -> Result<Val, EvalError> {
    match v {
        Val::Num(_) => Ok(Val::Num(1)),
        Val::Tup(t) => if t.len() <= i32::MAX {
            Ok(Val::Num(t.len() as i32))
        } else {
            Err(EvalError::ArithError)
        },
    }
}

pub open spec fn last_spec(v: Val) -> Result<Val, EvalError> {
    match v {
        Val::Num(_) => Ok(v),
        Val::Tup(t) => if t.len() > 0 {
            Ok(t.last())
        } else {
            Err(EvalError::RangeError)
        },
    }
}

/// Binds `params[i..]` to `vals[i..]`, in order.
pub open spec fn bind_params(vars: Map<i32, Val>, params: Seq<i32>, vals: Seq<Val>, i: int) -> Map<i32, Val>
    decreases params.len() - i,
{
    if i < 0 || i >= params.len() {
        vars
    } else {
        bind_params(vars.insert(params[i], vals[i]), params, vals, i + 1)
    }
}

pub open spec fn with_vars(m: Machine, vars: Map<i32, Val>) -> Machine {
    Machine { vars, funcs: m.funcs, out: m.out }
}

/// Evaluates an expression.
pub open spec fn eval_in(e: Expr, m: Machine, fuel: nat) -> (Result<Val, EvalError>, Machine)
    decreases fuel, 0int,
{
    if fuel == 0 {
        (Err(EvalError::OutOfFuel), m)
    } else {
        let f = (fuel - 1) as nat;
        match e {
            Expr::Num(n) => (Ok(Val::Num(n)), m),
            Expr::Tuple(xs) => {
                let (r, m1) = eval_list(xs, 0, seq![], m, f);
                (
                    match r {
                        Ok(vs) => Ok(Val::Tup(vs)),
                        Err(err) => Err(err),
                    },
                    m1,
                )
            },
            Expr::Call(func, args) => {
                let (r, m1) = eval_in(*func, m, f);
                match num_of(r) {
                    Ok(id) => call_in(id, args, m1, f),
                    Err(err) => (Err(err), m1),
                }
            },
        }
    }
}

/// Evaluates `xs[i..]` left to right after the values `acc`.
pub open spec fn eval_list(xs: Seq<Expr>, i: int, acc: Seq<Val>, m: Machine, fuel: nat) -> (
    Result<Seq<Val>, EvalError>,
    Machine,
)
    decreases fuel, 1int,
{
    if i < 0 || i >= xs.len() {
        (Ok(acc), m)
    } else {
        let (r, m1) = eval_in(xs[i], m, fuel);
        match r {
            Ok(v) => if fuel == 0 {
                (Err(EvalError::OutOfFuel), m1)
            } else {
                eval_list(xs, i + 1, acc.push(v), m1, (fuel - 1) as nat)
            },
            Err(err) => (Err(err), m1),
        }
    }
}

/// Adds up the numbers of `xs[i..]`.
pub open spec fn sum_list(xs: Seq<Expr>, i: int, acc: i32, m: Machine, fuel: nat) -> (Result<Val, EvalError>, Machine)
    decreases fuel, 1int,
{
    if i < 0 || i >= xs.len() {
        (Ok(Val::Num(acc)), m)
    } else {
        let (r, m1) = eval_in(xs[i], m, fuel);
        match num_of(r) {
            Ok(n) => if !fits(acc + n) {
                (Err(EvalError::ArithError), m1)
            } else if fuel == 0 {
                (Err(EvalError::OutOfFuel), m1)
            } else {
                sum_list(xs, i + 1, (acc + n) as i32, m1, (fuel - 1) as nat)
            },
            Err(err) => (Err(err), m1),
        }
    }
}

/// Multiplies the numbers of `xs[i..]`.
pub open spec fn mult_list(xs: Seq<Expr>, i: int, acc: i32, m: Machine, fuel: nat) -> (Result<Val, EvalError>, Machine)
    decreases fuel, 1int,
{
    if i < 0 || i >= xs.len() {
        (Ok(Val::Num(acc)), m)
    } else {
        let (r, m1) = eval_in(xs[i], m, fuel);
        match num_of(r) {
            Ok(n) => if !fits(acc * n) {
                (Err(EvalError::ArithError), m1)
            } else if fuel == 0 {
                (Err(EvalError::OutOfFuel), m1)
            } else {
                mult_list(xs, i + 1, (acc * n) as i32, m1, (fuel - 1) as nat)
            },
            Err(err) => (Err(err), m1),
        }
    }
}

/// Evaluates `xs[i..]` and collects their bytes after `buf`; the bytes are
/// printed once every argument has been evaluated.
pub open spec fn print_list(xs: Seq<Expr>, i: int, buf: Seq<u8>, m: Machine, fuel: nat) -> (Result<Val, EvalError>, Machine)
    decreases fuel, 1int,
{
    if i < 0 || i >= xs.len() {
        (Ok(unit()), Machine { vars: m.vars, funcs: m.funcs, out: m.out + buf })
    } else {
        let (r, m1) = eval_in(xs[i], m, fuel);
        match r {
            Ok(v) => if fuel == 0 {
                (Err(EvalError::OutOfFuel), m1)
            } else {
                print_list(xs, i + 1, buf + flat_bytes(v), m1, (fuel - 1) as nat)
            },
            Err(err) => (Err(err), m1),
        }
    }
}

/// Evaluates `body` while `cond` evaluates to a true value.
pub open spec fn while_loop(cond: Expr, body: Expr, m: Machine, fuel: nat) -> (Result<Val, EvalError>, Machine)
    decreases fuel, 1int,
{
    let (rc, m1) = eval_in(cond, m, fuel);
    match rc {
        Ok(c) => if !truthy(c) {
            (Ok(unit()), m1)
        } else {
            let (rb, m2) = eval_in(body, m1, fuel);
            match rb {
                Ok(_) => if fuel == 0 {
                    (Err(EvalError::OutOfFuel), m2)
                } else {
                    while_loop(cond, body, m2, (fuel - 1) as nat)
                },
                Err(err) => (Err(err), m2),
            }
        },
        Err(err) => (Err(err), m1),
    }
}

/// Evaluates `body` with variable `id` bound to each of `items[i..]`.
pub open spec fn for_loop(id: i32, items: Seq<Val>, i: int, body: Expr, m: Machine, fuel: nat) -> (
    Result<Val, EvalError>,
    Machine,
)
    decreases fuel, 1int,
{
    if i < 0 || i >= items.len() {
        (Ok(unit()), m)
    } else {
        let (rb, m1) = eval_in(body, with_vars(m, m.vars.insert(id, items[i])), fuel);
        match rb {
            Ok(_) => if fuel == 0 {
                (Err(EvalError::OutOfFuel), m1)
            } else {
                for_loop(id, items, i + 1, body, m1, (fuel - 1) as nat)
            },
            Err(err) => (Err(err), m1),
        }
    }
}

/// Calls a user-defined function: the arguments are evaluated, the
/// parameters bound, the body evaluated, and then the variables and
/// functions are put back as they were before the body ran.
pub open spec fn call_user(params: Seq<i32>, body: Expr, args: Seq<Expr>, m: Machine, fuel: nat) -> (
    Result<Val, EvalError>,
    Machine,
)
    decreases fuel, 2int,
{
    let (ra, m1) = eval_list(args, 0, seq![], m, fuel);
    match ra {
        Ok(vals) => {
            let (r, m2) = eval_in(body, with_vars(m1, bind_params(m1.vars, params, vals, 0)), fuel);
            (r, Machine { vars: m1.vars, funcs: m1.funcs, out: m2.out })
        },
        Err(err) => (Err(err), m1),
    }
}

/// Applies the function with id `id` to unevaluated arguments.
pub open spec fn call_in(id: i32, args: Seq<Expr>, m: Machine, fuel: nat) -> (Result<Val, EvalError>, Machine)
    decreases fuel, 3int,
{
    let arity_error = (Err(EvalError::ArityError), m);
    if id == 0 {
        if args.len() != 1 {
            arity_error
        } else {
            let (r, m1) = eval_in(args[0], m, fuel);
            match num_of(r) {
                Ok(k) => if m1.vars.contains_key(k) {
                    (Ok(m1.vars[k]), m1)
                } else {
                    (Err(EvalError::NameError), m1)
                },
                Err(err) => (Err(err), m1),
            }
        }
    } else if id == 1 {
        if args.len() != 2 {
            arity_error
        } else {
            let (rk, m1) = eval_in(args[0], m, fuel);
            match num_of(rk) {
                Ok(k) => {
                    let (rv, m2) = eval_in(args[1], m1, fuel);
                    match rv {
                        Ok(v) => (Ok(unit()), with_vars(m2, m2.vars.insert(k, v))),
                        Err(err) => (Err(err), m2),
                    }
                },
                Err(err) => (Err(err), m1),
            }
        }
    } else if id == 2 {
        sum_list(args, 0, 0, m, fuel)
    } else if id == 5 {
        mult_list(args, 0, 1, m, fuel)
    } else if id == 10 {
        print_list(args, 0, seq![], m, fuel)
    } else if id == 3 || id == 4 || id == 6 || id == 7 || id == 40 || id == 42 || id == 44 {
        if args.len() != 2 {
            arity_error
        } else {
            let (ra, m1) = eval_in(args[0], m, fuel);
            match ra {
                Err(err) => (Err(err), m1),
                Ok(a) => {
                    let (rb, m2) = eval_in(args[1], m1, fuel);
                    match rb {
                        Err(err) => (Err(err), m2),
                        Ok(b) => (binary_op(id, a, b), m2),
                    }
                },
            }
        }
    } else if id == 11 || id == 41 || id == 43 {
        if args.len() != 1 {
            arity_error
        } else {
            let (ra, m1) = eval_in(args[0], m, fuel);
            match ra {
                Err(err) => (Err(err), m1),
                Ok(a) => (unary_op(id, a), m1),
            }
        }
    } else if id == 20 {
        if args.len() != 3 {
            arity_error
        } else {
            let (rc, m1) = eval_in(args[0], m, fuel);
            match rc {
                Ok(c) => if truthy(c) {
                    eval_in(args[1], m1, fuel)
                } else {
                    eval_in(args[2], m1, fuel)
                },
                Err(err) => (Err(err), m1),
            }
        }
    } else if id == 21 {
        if args.len() != 2 {
            arity_error
        } else {
            while_loop(args[0], args[1], m, fuel)
        }
    } else if id == 22 {
        if args.len() != 3 {
            arity_error
        } else {
            let (rk, m1) = eval_in(args[0], m, fuel);
            match num_of(rk) {
                Ok(k) => {
                    let (rl, m2) = eval_in(args[1], m1, fuel);
                    match rl {
                        Ok(l) => {
                            let (r, m3) = for_loop(k, as_list(l), 0, args[2], m2, fuel);
                            (
                                r,
                                if m2.vars.contains_key(k) {
                                    with_vars(m3, m3.vars.insert(k, m2.vars[k]))
                                } else {
                                    m3
                                },
                            )
                        },
                        Err(err) => (Err(err), m2),
                    }
                },
                Err(err) => (Err(err), m1),
            }
        }
    } else if id == 30 {
        if args.len() != 3 {
            arity_error
        } else {
            let (rk, m1) = eval_in(args[0], m, fuel);
            match num_of(rk) {
                Ok(k) => if k < 100 {
                    (Err(EvalError::NameError), m1)
                } else {
                    let (rp, m2) = eval_in(args[1], m1, fuel);
                    match rp {
                        Ok(p) => match params_of(p) {
                            Some(ps) => (
                                Ok(unit()),
                                Machine { vars: m2.vars, funcs: m2.funcs.insert(k, (ps, args[2])), out: m2.out },
                            ),
                            None => (Err(EvalError::TypeError), m2),
                        },
                        Err(err) => (Err(err), m2),
                    }
                },
                Err(err) => (Err(err), m1),
            }
        }
    } else if m.funcs.contains_key(id) {
        let (params, body) = m.funcs[id];
        if args.len() != params.len() {
            arity_error
        } else {
            call_user(params, body, args, m, fuel)
        }
    } else {
        (Err(EvalError::NameError), m)
    }
}

/// The built-ins of two evaluated arguments.
pub open spec fn binary_op(id: i32, a: Val, b: Val) -> Result<Val, EvalError> {
    if id == 3 {
        Ok(Val::Num(if a == b { 1 } else { 0 }))
    } else if id == 44 {
        Ok(Val::Tup(as_list(a).push(b)))
    } else {
        match b {
            Val::Tup(_) => Err(EvalError::TypeError),
            Val::Num(y) => if id == 40 {
                index_spec(a, y)
            } else {
                match a {
                    Val::Tup(_) => Err(EvalError::TypeError),
                    Val::Num(x) => if id == 4 {
                        Ok(Val::Num(compare_spec(x, y)))
                    } else if id == 6 {
                        if fits(x - y) {
                            Ok(Val::Num((x - y) as i32))
                        } else {
                            Err(EvalError::ArithError)
                        }
                    } else if id == 7 {
                        if y == 0 || !fits(trunc_div(x as int, y as int)) {
                            Err(EvalError::ArithError)
                        } else {
                            Ok(Val::Num(trunc_div(x as int, y as int) as i32))
                        }
                    } else {
                        Ok(Val::Tup(range_spec(x, y)))
                    },
                }
            },
        }
    }
}

/// The built-ins of one evaluated argument.
pub open spec fn unary_op(id: i32, a: Val) -> Result<Val, EvalError> {
    if id == 11 {
        Ok(Val::Tup(codes(display_spec(a))))
    } else if id == 41 {
        len_spec(a)
    } else {
        last_spec(a)
    }
}

/// Evaluates the top-level expressions `es[i..]` in order, each with `fuel`,
/// stopping at the first error.
pub open spec fn run_from(es: Seq<Expr>, i: int, m: Machine, fuel: nat) -> (Result<(), EvalError>, Machine)
    decreases es.len() - i,
{
    if i < 0 || i >= es.len() {
        (Ok(()), m)
    } else {
        let (r, m1) = eval_in(es[i], m, fuel);
        match r {
            Ok(_) => run_from(es, i + 1, m1, fuel),
            Err(err) => (Err(err), m1),
        }
    }
}

pub open spec fn list_result_model(r: Result<Vec<Value>, EvalError>) -> Result<Seq<Val>, EvalError> {
    match r {
        Ok(vs) => Ok(vals_model(vs@)),
        Err(e) => Err(e),
    }
}

impl State {
    /// A state with no variables, no functions and nothing printed.
    pub fn new() -> (r: State)
        ensures
            r@ == (Machine { vars: Map::empty(), funcs: Map::empty(), out: seq![] }),
    {
        let r = State { variables: HashMap::new(), functions: HashMap::new(), output: Vec::new() };
        assert(r@.vars =~= Map::empty());
        assert(r@.funcs =~= Map::empty());
        r
    }

    fn get_var(&self, k: i32) -> (r: Option<Value>)
        ensures
            match r {
                Some(v) => self@.vars.contains_key(k) && val_model(v) == self@.vars[k],
                None => !self@.vars.contains_key(k),
            },
    {
        match self.variables.get(&k) {
            Some(v) => Some(copy_value(v)),
            None => None,
        }
    }

    fn set_var(&mut self, k: i32, v: Value)
        ensures
            final(self)@ == with_vars(old(self)@, old(self)@.vars.insert(k, val_model(v))),
    {
        let ghost m = val_model(v);
        self.variables.insert(k, v);
        assert(self@.vars =~= old(self)@.vars.insert(k, m));
    }

    fn get_func(&self, id: i32) -> (r: Option<(Vec<i32>, Expression)>)
        ensures
            match r {
                Some(f) => self@.funcs.contains_key(id) && func_model(f) == self@.funcs[id],
                None => !self@.funcs.contains_key(id),
            },
    {
        match self.functions.get(&id) {
            Some(f) => {
                let mut ps: Vec<i32> = Vec::new();
                let mut i: usize = 0;
                while i < f.0.len()
                    invariant
                        i <= f.0@.len(),
                        ps@ == f.0@.subrange(0, i as int),
                    decreases f.0@.len() - i,
                {
                    ps.push(f.0[i]);
                    i = i + 1;
                }
                assert(ps@ =~= f.0@);
                Some((ps, copy_expression(&f.1)))
            },
            None => None,
        }
    }

    fn set_func(&mut self, id: i32, f: (Vec<i32>, Expression))
        ensures
            final(self)@ == (Machine {
                vars: old(self)@.vars,
                funcs: old(self)@.funcs.insert(id, func_model(f)),
                out: old(self)@.out,
            }),
    {
        let ghost m = func_model(f);
        self.functions.insert(id, f);
        assert(self@.funcs =~= old(self)@.funcs.insert(id, m));
        assert(self@.vars =~= old(self)@.vars);
    }
}

fn unit_value() -> (r: Value)
    ensures
        val_model(r) == unit(),
{
    Value::Tuple(Vec::new())
}

/// `a - b`, or `ArithError` where it does not fit.
pub fn subtract(a: i32, b: i32) -> (r: Result<i32, EvalError>)
    ensures
        r == (if fits(a - b) {
            Ok::<i32, EvalError>((a - b) as i32)
        } else {
            Err(EvalError::ArithError)
        }),
{
    let d = a as i64 - b as i64;
    if d < i32::MIN as i64 || d > i32::MAX as i64 {
        Err(EvalError::ArithError)
    } else {
        Ok(d as i32)
    }
}

/// `a / b` rounded toward zero; `ArithError` when `b` is zero or the
/// quotient does not fit.
pub fn divide(a: i32, b: i32) -> (r: Result<i32, EvalError>)
    ensures
        r == (if b == 0 || !fits(trunc_div(a as int, b as int)) {
            Err(EvalError::ArithError)
        } else {
            Ok::<i32, EvalError>(trunc_div(a as int, b as int) as i32)
        }),
{
    if b == 0 {
        return Err(EvalError::ArithError);
    }
    let x = a as i64;
    let y = b as i64;
    let ax = if x < 0 { -x } else { x };
    let ay = if y < 0 { -y } else { y };
    let q = ax / ay;
    let t = if (x < 0) == (y < 0) { q } else { -q };
    if t < i32::MIN as i64 || t > i32::MAX as i64 {
        Err(EvalError::ArithError)
    } else {
        Ok(t as i32)
    }
}

/// `0` when `a < b`, `1` when they are equal, `2` when `a > b`.
pub fn compare(a: i32, b: i32) -> (r: i32)
    ensures
        r == compare_spec(a, b),
{
    if a < b {
        0
    } else if a == b {
        1
    } else {
        2
    }
}

/// The item at `k` of a tuple; a number has only the item at `0`, itself.
pub fn index_value(v: Value, k: i32) -> (r: Result<Value, EvalError>)
    ensures
        result_model(r) == index_spec(val_model(v), k),
{
    if k < 0 {
        return Err(EvalError::RangeError);
    }
    match v {
        Value::Number(n) => if k == 0 {
            Ok(Value::Number(n))
        } else {
            Err(EvalError::RangeError)
        },
        Value::Tuple(t) => {
            proof {
                lemma_vals_model_index(t@, k as int);
            }
            if (k as usize) < t.len() {
                Ok(copy_value(&t[k as usize]))
            } else {
                Err(EvalError::RangeError)
            }
        },
    }
}

/// The number of items: one for a number.
pub fn len_value(v: &Value) -> (r: Result<Value, EvalError>)
    ensures
        result_model(r) == len_spec(val_model(*v)),
{
    match v {
        Value::Number(_) => Ok(Value::Number(1)),
        Value::Tuple(t) => {
            proof {
                lemma_vals_model_index(t@, 0);
            }
            if t.len() <= i32::MAX as usize {
                Ok(Value::Number(t.len() as i32))
            } else {
                Err(EvalError::ArithError)
            }
        },
    }
}

/// The last item of a tuple; a number is its own last item.
pub fn last_value(v: Value) -> (r: Result<Value, EvalError>)
    ensures
        result_model(r) == last_spec(val_model(v)),
{
    match v {
        Value::Number(n) => Ok(Value::Number(n)),
        Value::Tuple(t) => {
            proof {
                lemma_vals_model_index(t@, t@.len() - 1);
            }
            if t.len() > 0 {
                Ok(copy_value(&t[t.len() - 1]))
            } else {
                Err(EvalError::RangeError)
            }
        },
    }
}

/// A new tuple: the items of `c` (a number counts as one item), then `x`.
pub fn append_value(c: Value, x: Value) -> (r: Value)
    ensures
        val_model(r) == Val::Tup(as_list(val_model(c)).push(val_model(x))),
{
    let mut list = into_list(c);
    proof {
        lemma_vals_model_push(list@, x);
    }
    list.push(x);
    Value::Tuple(list)
}

/// The parameter ids that a value lists, if each item is a number.
pub fn param_ids(v: &Value) -> (r: Option<Vec<i32>>)
    ensures
        match r {
            Some(ps) => params_of(val_model(*v)) == Some(ps@),
            None => params_of(val_model(*v)) is None,
        },
{
    match v {
        Value::Number(n) => {
            let mut ps: Vec<i32> = Vec::new();
            ps.push(*n);
            assert(ps@ =~= seq![*n]);
            Some(ps)
        },
        Value::Tuple(t) => {
            let ghost m = vals_model(t@);
            proof {
                lemma_vals_model_index(t@, 0);
            }
            let mut ps: Vec<i32> = Vec::new();
            let mut i: usize = 0;
            while i < t.len()
                invariant
                    *v == Value::Tuple(*t),
                    m == vals_model(t@),
                    m.len() == t@.len(),
                    i <= t@.len(),
                    ps@.len() == i,
                    forall|k: int| 0 <= k < i ==> (#[trigger] m[k]) is Num && m[k]->Num_0 == ps@[k],
                decreases t@.len() - i,
            {
                proof {
                    lemma_vals_model_index(t@, i as int);
                }
                match &t[i] {
                    Value::Number(n) => ps.push(*n),
                    Value::Tuple(_) => {
                        assert(!(m[i as int] is Num));
                        return None;
                    },
                }
                i = i + 1;
            }
            assert(ps@ =~= Seq::new(m.len(), |k: int| m[k]->Num_0));
            Some(ps)
        },
    }
}

fn apply_binary(id: i32, a: Value, b: Value) -> (r: Result<Value, EvalError>)
    requires
        id == 3 || id == 4 || id == 6 || id == 7 || id == 40 || id == 42 || id == 44,
    ensures
        result_model(r) == binary_op(id, val_model(a), val_model(b)),
{
    if id == 3 {
        let eq = values_equal(&a, &b);
        return Ok(Value::Number(if eq { 1 } else { 0 }));
    }
    if id == 44 {
        return Ok(append_value(a, b));
    }
    let y = match b {
        Value::Number(y) => y,
        Value::Tuple(_) => {
            return Err(EvalError::TypeError);
        },
    };
    if id == 40 {
        return index_value(a, y);
    }
    let x = match a {
        Value::Number(x) => x,
        Value::Tuple(_) => {
            return Err(EvalError::TypeError);
        },
    };
    if id == 4 {
        Ok(Value::Number(compare(x, y)))
    } else if id == 6 {
        match subtract(x, y) {
            Ok(d) => Ok(Value::Number(d)),
            Err(e) => Err(e),
        }
    } else if id == 7 {
        match divide(x, y) {
            Ok(d) => Ok(Value::Number(d)),
            Err(e) => Err(e),
        }
    } else {
        Ok(range_values(x, y))
    }
}

fn apply_unary(id: i32, a: Value) -> (r: Result<Value, EvalError>)
    requires
        id == 11 || id == 41 || id == 43,
    ensures
        result_model(r) == unary_op(id, val_model(a)),
{
    if id == 11 {
        Ok(to_text(a))
    } else if id == 41 {
        len_value(&a)
    } else {
        last_value(a)
    }
}

/// Evaluates an expression against `state` with `fuel` steps to spend.
pub fn eval(expr: &Expression, state: &mut State, fuel: u64) -> (r: Result<Value, EvalError>)
    ensures
        (result_model(r), final(state)@) == eval_in(expr_model(*expr), old(state)@, fuel as nat),
    decreases fuel, 0int,
{
    if fuel == 0 {
        return Err(EvalError::OutOfFuel);
    }
    let f = fuel - 1;
    match expr {
        Expression::Number(n) => Ok(Value::Number(*n)),
        Expression::Tuple(xs) => match eval_args(xs, state, f) {
            Ok(vs) => Ok(Value::Tuple(vs)),
            Err(e) => Err(e),
        },
        Expression::Call { func, args } => match eval_num(func, state, f) {
            Ok(id) => call_function(id, args, state, f),
            Err(e) => Err(e),
        },
    }
}

fn eval_num(e: &Expression, state: &mut State, fuel: u64) -> (r: Result<i32, EvalError>)
    ensures
        final(state)@ == eval_in(expr_model(*e), old(state)@, fuel as nat).1,
        r == num_of(eval_in(expr_model(*e), old(state)@, fuel as nat).0),
    decreases fuel, 1int,
{
    match eval(e, state, fuel) {
        Ok(v) => match v.unwrap_num() {
            Some(n) => Ok(n),
            None => Err(EvalError::TypeError),
        },
        Err(err) => Err(err),
    }
}

fn eval_args(xs: &Vec<Expression>, state: &mut State, fuel: u64) -> (r: Result<Vec<Value>, EvalError>)
    ensures
        (list_result_model(r), final(state)@) == eval_list(exprs_model(xs@), 0, seq![], old(state)@, fuel as nat),
        r is Ok ==> r->Ok_0@.len() == xs@.len(),
    decreases fuel, 1int,
{
    let ghost x = exprs_model(xs@);
    proof {
        lemma_exprs_model_len(xs@);
    }
    let mut acc: Vec<Value> = Vec::new();
    let mut i: usize = 0;
    let mut fl = fuel;
    while i < xs.len()
        invariant
            x == exprs_model(xs@),
            x.len() == xs@.len(),
            i <= xs@.len(),
            acc@.len() == i,
            fl <= fuel,
            eval_list(x, 0, seq![], old(state)@, fuel as nat) == eval_list(x, i as int, vals_model(acc@), state@, fl as nat),
        decreases xs@.len() - i,
    {
        proof {
            lemma_exprs_model_index(xs@, i as int);
        }
        let v = match eval(&xs[i], state, fl) {
            Ok(v) => v,
            Err(e) => {
                return Err(e);
            },
        };
        proof {
            lemma_vals_model_push(acc@, v);
        }
        acc.push(v);
        i = i + 1;
        fl = fl - 1;
    }
    Ok(acc)
}

fn sum_args(xs: &Vec<Expression>, state: &mut State, fuel: u64) -> (r: Result<Value, EvalError>)
    ensures
        (result_model(r), final(state)@) == sum_list(exprs_model(xs@), 0, 0, old(state)@, fuel as nat),
    decreases fuel, 2int,
{
    let ghost x = exprs_model(xs@);
    proof {
        lemma_exprs_model_len(xs@);
    }
    let mut acc: i32 = 0;
    let mut i: usize = 0;
    let mut fl = fuel;
    while i < xs.len()
        invariant
            x == exprs_model(xs@),
            x.len() == xs@.len(),
            i <= xs@.len(),
            fl <= fuel,
            sum_list(x, 0, 0, old(state)@, fuel as nat) == sum_list(x, i as int, acc, state@, fl as nat),
        decreases xs@.len() - i,
    {
        proof {
            lemma_exprs_model_index(xs@, i as int);
        }
        let n = match eval_num(&xs[i], state, fl) {
            Ok(n) => n,
            Err(e) => {
                return Err(e);
            },
        };
        let t = acc as i64 + n as i64;
        if t < i32::MIN as i64 || t > i32::MAX as i64 {
            return Err(EvalError::ArithError);
        }
        if fl == 0 {
            return Err(EvalError::OutOfFuel);
        }
        acc = t as i32;
        i = i + 1;
        fl = fl - 1;
    }
    Ok(Value::Number(acc))
}

fn mult_args(xs: &Vec<Expression>, state: &mut State, fuel: u64) -> (r: Result<Value, EvalError>)
    ensures
        (result_model(r), final(state)@) == mult_list(exprs_model(xs@), 0, 1, old(state)@, fuel as nat),
    decreases fuel, 2int,
{
    let ghost x = exprs_model(xs@);
    proof {
        lemma_exprs_model_len(xs@);
    }
    let mut acc: i32 = 1;
    let mut i: usize = 0;
    let mut fl = fuel;
    while i < xs.len()
        invariant
            x == exprs_model(xs@),
            x.len() == xs@.len(),
            i <= xs@.len(),
            fl <= fuel,
            mult_list(x, 0, 1, old(state)@, fuel as nat) == mult_list(x, i as int, acc, state@, fl as nat),
        decreases xs@.len() - i,
    {
        proof {
            lemma_exprs_model_index(xs@, i as int);
        }
        let n = match eval_num(&xs[i], state, fl) {
            Ok(n) => n,
            Err(e) => {
                return Err(e);
            },
        };
        assert(-0x4000_0000_0000_0000 <= acc as int * n as int <= 0x4000_0000_0000_0000) by (nonlinear_arith)
            requires i32::MIN <= acc <= i32::MAX, i32::MIN <= n <= i32::MAX;
        let t = acc as i64 * n as i64;
        if t < i32::MIN as i64 || t > i32::MAX as i64 {
            return Err(EvalError::ArithError);
        }
        if fl == 0 {
            return Err(EvalError::OutOfFuel);
        }
        acc = t as i32;
        i = i + 1;
        fl = fl - 1;
    }
    Ok(Value::Number(acc))
}

fn print_args(xs: &Vec<Expression>, state: &mut State, fuel: u64) -> (r: Result<Value, EvalError>)
    ensures
        (result_model(r), final(state)@) == print_list(exprs_model(xs@), 0, seq![], old(state)@, fuel as nat),
    decreases fuel, 1int,
{
    let ghost x = exprs_model(xs@);
    proof {
        lemma_exprs_model_len(xs@);
    }
    let mut buf: Vec<u8> = Vec::new();
    let mut i: usize = 0;
    let mut fl = fuel;
    while i < xs.len()
        invariant
            x == exprs_model(xs@),
            x.len() == xs@.len(),
            i <= xs@.len(),
            fl <= fuel,
            print_list(x, 0, seq![], old(state)@, fuel as nat) == print_list(x, i as int, buf@, state@, fl as nat),
        decreases xs@.len() - i,
    {
        proof {
            lemma_exprs_model_index(xs@, i as int);
        }
        let v = match eval(&xs[i], state, fl) {
            Ok(v) => v,
            Err(e) => {
                return Err(e);
            },
        };
        push_bytes(&v, &mut buf);
        i = i + 1;
        fl = fl - 1;
    }
    let ghost before = state@;
    state.output.append(&mut buf);
    proof {
        assert(state@.vars =~= before.vars);
        assert(state@.funcs =~= before.funcs);
    }
    Ok(unit_value())
}

fn while_exec(cond: &Expression, body: &Expression, state: &mut State, fuel: u64) -> (r: Result<Value, EvalError>)
    ensures
        (result_model(r), final(state)@) == while_loop(expr_model(*cond), expr_model(*body), old(state)@, fuel as nat),
    decreases fuel, 1int,
{
    let ghost c = expr_model(*cond);
    let ghost b = expr_model(*body);
    let mut fl = fuel;
    loop
        invariant
            fl <= fuel,
            c == expr_model(*cond),
            b == expr_model(*body),
            while_loop(c, b, old(state)@, fuel as nat) == while_loop(c, b, state@, fl as nat),
        decreases fl,
    {
        let v = match eval(cond, state, fl) {
            Ok(v) => v,
            Err(e) => {
                return Err(e);
            },
        };
        if !is_truthy(&v) {
            return Ok(unit_value());
        }
        match eval(body, state, fl) {
            Ok(_) => {},
            Err(e) => {
                return Err(e);
            },
        }
        fl = fl - 1;
    }
}

fn for_exec(id: i32, items: &Vec<Value>, body: &Expression, state: &mut State, fuel: u64) -> (r: Result<Value, EvalError>)
    ensures
        (result_model(r), final(state)@) == for_loop(id, vals_model(items@), 0, expr_model(*body), old(state)@, fuel as nat),
    decreases fuel, 1int,
{
    let ghost m = vals_model(items@);
    let ghost b = expr_model(*body);
    proof {
        lemma_vals_model_index(items@, 0);
    }
    let mut i: usize = 0;
    let mut fl = fuel;
    while i < items.len()
        invariant
            m == vals_model(items@),
            m.len() == items@.len(),
            b == expr_model(*body),
            i <= items@.len(),
            fl <= fuel,
            for_loop(id, m, 0, b, old(state)@, fuel as nat) == for_loop(id, m, i as int, b, state@, fl as nat),
        decreases items@.len() - i,
    {
        proof {
            lemma_vals_model_index(items@, i as int);
        }
        let v = copy_value(&items[i]);
        state.set_var(id, v);
        match eval(body, state, fl) {
            Ok(_) => {},
            Err(e) => {
                return Err(e);
            },
        }
        i = i + 1;
        fl = fl - 1;
    }
    Ok(unit_value())
}

fn run_user(params: &Vec<i32>, body: &Expression, args: &Vec<Expression>, state: &mut State, fuel: u64) -> (r: Result<
    Value,
    EvalError,
>)
    requires
        args@.len() == params@.len(),
    ensures
        (result_model(r), final(state)@) == call_user(params@, expr_model(*body), exprs_model(args@), old(state)@, fuel as nat),
    decreases fuel, 2int,
{
    let vals = match eval_args(args, state, fuel) {
        Ok(v) => v,
        Err(e) => {
            return Err(e);
        },
    };
    let ghost m1 = state@;
    let ghost vs = vals_model(vals@);
    proof {
        lemma_vals_model_index(vals@, 0);
    }
    let saved_vars = state.variables.clone();
    let saved_funcs = state.functions.clone();
    let mut i: usize = 0;
    while i < params.len()
        invariant
            vs == vals_model(vals@),
            vs.len() == vals@.len(),
            vals@.len() == params@.len(),
            i <= params@.len(),
            state@.funcs == m1.funcs,
            state@.out == m1.out,
            bind_params(m1.vars, params@, vs, 0) == bind_params(state@.vars, params@, vs, i as int),
        decreases params@.len() - i,
    {
        proof {
            lemma_vals_model_index(vals@, i as int);
        }
        let v = copy_value(&vals[i]);
        state.set_var(params[i], v);
        i = i + 1;
    }
    assert(state@ == with_vars(m1, bind_params(m1.vars, params@, vs, 0)));
    let r = eval(body, state, fuel);
    state.variables = saved_vars;
    state.functions = saved_funcs;
    r
}

/// Applies the function with id `id` to unevaluated arguments: a built-in
/// below 100, or a user-defined function.
pub fn call_function(id: i32, args: &Vec<Expression>, state: &mut State, fuel: u64) -> (r: Result<
    Value,
    EvalError,
>)
    ensures
        (result_model(r), final(state)@) == call_in(id, exprs_model(args@), old(state)@, fuel as nat),
    decreases fuel, 3int,
{
    proof {
        lemma_exprs_model_len(args@);
        if args@.len() > 0 {
            lemma_exprs_model_index(args@, 0);
        }
        if args@.len() > 1 {
            lemma_exprs_model_index(args@, 1);
        }
        if args@.len() > 2 {
            lemma_exprs_model_index(args@, 2);
        }
    }
    if id == 0 {
        if args.len() != 1 {
            return Err(EvalError::ArityError);
        }
        let k = match eval_num(&args[0], state, fuel) {
            Ok(k) => k,
            Err(e) => {
                return Err(e);
            },
        };
        match state.get_var(k) {
            Some(v) => Ok(v),
            None => Err(EvalError::NameError),
        }
    } else if id == 1 {
        if args.len() != 2 {
            return Err(EvalError::ArityError);
        }
        let k = match eval_num(&args[0], state, fuel) {
            Ok(k) => k,
            Err(e) => {
                return Err(e);
            },
        };
        let v = match eval(&args[1], state, fuel) {
            Ok(v) => v,
            Err(e) => {
                return Err(e);
            },
        };
        state.set_var(k, v);
        Ok(unit_value())
    } else if id == 2 {
        sum_args(args, state, fuel)
    } else if id == 5 {
        mult_args(args, state, fuel)
    } else if id == 10 {
        print_args(args, state, fuel)
    } else if id == 3 || id == 4 || id == 6 || id == 7 || id == 40 || id == 42 || id == 44 {
        if args.len() != 2 {
            return Err(EvalError::ArityError);
        }
        let a = match eval(&args[0], state, fuel) {
            Ok(v) => v,
            Err(e) => {
                return Err(e);
            },
        };
        let b = match eval(&args[1], state, fuel) {
            Ok(v) => v,
            Err(e) => {
                return Err(e);
            },
        };
        apply_binary(id, a, b)
    } else if id == 11 || id == 41 || id == 43 {
        if args.len() != 1 {
            return Err(EvalError::ArityError);
        }
        let a = match eval(&args[0], state, fuel) {
            Ok(v) => v,
            Err(e) => {
                return Err(e);
            },
        };
        apply_unary(id, a)
    } else if id == 20 {
        if args.len() != 3 {
            return Err(EvalError::ArityError);
        }
        let c = match eval(&args[0], state, fuel) {
            Ok(v) => v,
            Err(e) => {
                return Err(e);
            },
        };
        if is_truthy(&c) {
            eval(&args[1], state, fuel)
        } else {
            eval(&args[2], state, fuel)
        }
    } else if id == 21 {
        if args.len() != 2 {
            return Err(EvalError::ArityError);
        }
        while_exec(&args[0], &args[1], state, fuel)
    } else if id == 22 {
        if args.len() != 3 {
            return Err(EvalError::ArityError);
        }
        let k = match eval_num(&args[0], state, fuel) {
            Ok(k) => k,
            Err(e) => {
                return Err(e);
            },
        };
        let l = match eval(&args[1], state, fuel) {
            Ok(v) => v,
            Err(e) => {
                return Err(e);
            },
        };
        let saved = state.get_var(k);
        let items = into_list(l);
        let r = for_exec(k, &items, &args[2], state, fuel);
        if let Some(v) = saved {
            state.set_var(k, v);
        }
        r
    } else if id == 30 {
        if args.len() != 3 {
            return Err(EvalError::ArityError);
        }
        let k = match eval_num(&args[0], state, fuel) {
            Ok(k) => k,
            Err(e) => {
                return Err(e);
            },
        };
        if k < 100 {
            return Err(EvalError::NameError);
        }
        let p = match eval(&args[1], state, fuel) {
            Ok(v) => v,
            Err(e) => {
                return Err(e);
            },
        };
        let ps = match param_ids(&p) {
            Some(ps) => ps,
            None => {
                return Err(EvalError::TypeError);
            },
        };
        let body = copy_expression(&args[2]);
        state.set_func(k, (ps, body));
        Ok(unit_value())
    } else {
        match state.get_func(id) {
            Some((params, body)) => {
                if args.len() != params.len() {
                    return Err(EvalError::ArityError);
                }
                run_user(&params, &body, args, state, fuel)
            },
            None => Err(EvalError::NameError),
        }
    }
}

/// Evaluates a program's top-level expressions in order, each with `fuel`
/// steps to spend, and stops at the first error.
pub fn run(exprs: &Vec<Expression>, state: &mut State, fuel: u64) -> (r: Result<(), EvalError>)
    ensures
        (r, final(state)@) == run_from(exprs_model(exprs@), 0, old(state)@, fuel as nat),
{
    let ghost x = exprs_model(exprs@);
    proof {
        lemma_exprs_model_len(exprs@);
    }
    let mut i: usize = 0;
    while i < exprs.len()
        invariant
            x == exprs_model(exprs@),
            x.len() == exprs@.len(),
            i <= exprs@.len(),
            run_from(x, 0, old(state)@, fuel as nat) == run_from(x, i as int, state@, fuel as nat),
        decreases exprs@.len() - i,
    {
        proof {
            lemma_exprs_model_index(exprs@, i as int);
        }
        match eval(&exprs[i], state, fuel) {
            Ok(_) => {},
            Err(e) => {
                return Err(e);
            },
        }
        i = i + 1;
    }
    Ok(())
}

/// Evaluating number literals changes nothing in the state.
pub proof fn lemma_numerals_change_nothing(xs: Seq<Expr>, i: int, acc: Seq<Val>, m: Machine, fuel: nat)
    requires
        forall|k: int| 0 <= k < xs.len() ==> (#[trigger] xs[k]) is Num,
    ensures
        eval_list(xs, i, acc, m, fuel).1 == m,
    decreases fuel,
{
    if 0 <= i < xs.len() {
        assert(xs[i] is Num);
        assert(eval_in(xs[i], m, fuel).1 == m);
        if fuel > 0 {
            assert(eval_in(xs[i], m, fuel).0 == Ok::<Val, EvalError>(Val::Num(xs[i]->Num_0)));
            lemma_numerals_change_nothing(xs, i + 1, acc.push(Val::Num(xs[i]->Num_0)), m, (fuel - 1) as nat);
        }
    }
}

/// A call of a user-defined function leaves the variables and the functions
/// as the evaluation of its arguments left them: whatever the body assigns
/// or defines is undone, and only printed output accumulates.
pub proof fn lemma_call_restores_state(id: i32, args: Seq<Expr>, m: Machine, fuel: nat)
    requires
        id >= 100,
        m.funcs.contains_key(id),
        args.len() == m.funcs[id].0.len(),
    ensures
        call_in(id, args, m, fuel).1.vars == eval_list(args, 0, seq![], m, fuel).1.vars,
        call_in(id, args, m, fuel).1.funcs == eval_list(args, 0, seq![], m, fuel).1.funcs,
{
}

/// A call of a user-defined function whose arguments are number literals
/// leaves the variables and the functions exactly as they were before it.
pub proof fn lemma_call_with_numerals_is_pure(id: i32, args: Seq<Expr>, m: Machine, fuel: nat)
    requires
        id >= 100,
        m.funcs.contains_key(id),
        args.len() == m.funcs[id].0.len(),
        forall|k: int| 0 <= k < args.len() ==> (#[trigger] args[k]) is Num,
    ensures
        call_in(id, args, m, fuel).1.vars == m.vars,
        call_in(id, args, m, fuel).1.funcs == m.funcs,
{
    lemma_call_restores_state(id, args, m, fuel);
    lemma_numerals_change_nothing(args, 0, seq![], m, fuel);
}

/// Evaluating `f<as`, for a user-defined function `f` and number literals
/// `as`, leaves the variables and the functions exactly as they were.
pub proof fn lemma_call_expression_is_pure(id: i32, args: Seq<Expr>, m: Machine, fuel: nat)
    requires
        id >= 100,
        m.funcs.contains_key(id),
        args.len() == m.funcs[id].0.len(),
        forall|k: int| 0 <= k < args.len() ==> (#[trigger] args[k]) is Num,
    ensures
        eval_in(Expr::Call(Box::new(Expr::Num(id)), args), m, fuel).1.vars == m.vars,
        eval_in(Expr::Call(Box::new(Expr::Num(id)), args), m, fuel).1.funcs == m.funcs,
{
    if fuel > 0 {
        let f = (fuel - 1) as nat;
        assert(eval_in(Expr::Num(id), m, f).1 == m);
        if f > 0 {
            assert(eval_in(Expr::Num(id), m, f).0 == Ok::<Val, EvalError>(Val::Num(id)));
            assert(eval_in(Expr::Call(Box::new(Expr::Num(id)), args), m, fuel) == call_in(id, args, m, f));
            lemma_call_with_numerals_is_pure(id, args, m, f);
        }
    }
}

/// `20<c a b` evaluates the condition and then exactly the branch it
/// selects: the result and the state are those of that branch, and the
/// other branch, whatever it holds, plays no part.
pub proof fn lemma_if_evaluates_one_branch(c: Expr, a: Expr, b: Expr, other: Expr, m: Machine, fuel: nat)
    requires
        eval_in(c, m, fuel).0 is Ok,
    ensures
        truthy(eval_in(c, m, fuel).0->Ok_0) ==> call_in(20, seq![c, a, b], m, fuel) == eval_in(
            a,
            eval_in(c, m, fuel).1,
            fuel,
        ) && call_in(20, seq![c, a, b], m, fuel) == call_in(20, seq![c, a, other], m, fuel),
        !truthy(eval_in(c, m, fuel).0->Ok_0) ==> call_in(20, seq![c, a, b], m, fuel) == eval_in(
            b,
            eval_in(c, m, fuel).1,
            fuel,
        ) && call_in(20, seq![c, a, b], m, fuel) == call_in(20, seq![c, other, b], m, fuel),
{
}

/// `42<a b` on two numbers gives the tuple of the `max(0, b - a)` numbers
/// `a, a+1, ..., b-1`, in order, and changes nothing in the state.
pub proof fn lemma_range_call(a: i32, b: i32, m: Machine, fuel: nat)
    requires
        fuel > 0,
    ensures
        call_in(42, seq![Expr::Num(a), Expr::Num(b)], m, fuel) == (Ok::<Val, EvalError>(Val::Tup(range_spec(a, b))), m),
        range_spec(a, b).len() == (if a < b { b - a } else { 0 }),
        forall|i: int| 0 <= i < range_spec(a, b).len() ==> #[trigger] range_spec(a, b)[i] == Val::Num((a + i) as i32),
{
}

} // verus!
