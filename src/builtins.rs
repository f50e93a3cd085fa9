use vstd::prelude::*;

use crate::fault::Fault;
use crate::value::{data_of, datum_eq, lemma_data_of, outcome, values_equal, Datum, NativeFn, NativeOp, Value};

verus! {

/// One step of an arithmetic builtin: the running total `acc` combined with
/// the next argument `x`.
pub open spec fn int_step(op: NativeOp, acc: i64, x: i64) -> Result<i64, Fault> {
    match op {
        NativeOp::Add => match acc.checked_add(x) {
            Some(r) => Ok(r),
            None => Err(Fault::Overflow),
        },
        NativeOp::Sub => match acc.checked_sub(x) {
            Some(r) => Ok(r),
            None => Err(Fault::Overflow),
        },
        NativeOp::Mul => match acc.checked_mul(x) {
            Some(r) => Ok(r),
            None => Err(Fault::Overflow),
        },
        _ => if x == 0 {
            Err(Fault::DivideByZero)
        } else {
            match acc.checked_div(x) {
                Some(r) => Ok(r),
                None => Err(Fault::Overflow),
            }
        },
    }
}

/// The running total after the first `n` arguments, starting from `init`; the
/// first fault met, from the left, if any.
pub open spec fn fold_ints(op: NativeOp, init: i64, args: Seq<Datum>, n: int) -> Result<i64, Fault>
    decreases n,
{
    if n <= 0 {
        Ok(init)
    } else {
        match fold_ints(op, init, args, n - 1) {
            Err(e) => Err(e),
            Ok(acc) => match args[n - 1] {
                Datum::Int(x) => int_step(op, acc, x),
                _ => Err(Fault::TypeMismatch),
            },
        }
    }
}

pub open spec fn int_result(r: Result<i64, Fault>) -> Result<Datum, Fault> {
    match r {
        Ok(n) => Ok(Datum::Int(n)),
        Err(e) => Err(e),
    }
}

/// `+`: the sum of the arguments, 0 for none.
pub open spec fn add_spec(args: Seq<Datum>) -> Result<Datum, Fault> {
    int_result(fold_ints(NativeOp::Add, 0, args, args.len() as int))
}

/// `*`: the product of the arguments, 1 for none.
pub open spec fn mul_spec(args: Seq<Datum>) -> Result<Datum, Fault> {
    int_result(fold_ints(NativeOp::Mul, 1, args, args.len() as int))
}

/// `-` and `/`: the first argument is the starting total, and then every
/// argument, the first one included, is taken from it in turn.
pub open spec fn running_spec(op: NativeOp, args: Seq<Datum>) -> Result<Datum, Fault> {
    if args.len() == 0 {
        Err(Fault::ArityFault)
    } else {
        match args[0] {
            Datum::Int(first) => int_result(fold_ints(op, first, args, args.len() as int)),
            _ => Err(Fault::TypeMismatch),
        }
    }
}

/// Whether the first `n` arguments all equal the first one, compared from the
/// left and stopping at the first that does not.
pub open spec fn eq_upto(args: Seq<Datum>, n: int) -> Result<bool, Fault>
    decreases n,
{
    if n <= 0 {
        Ok(true)
    } else {
        match eq_upto(args, n - 1) {
            Err(e) => Err(e),
            Ok(false) => Ok(false),
            Ok(true) => datum_eq(args[0], args[n - 1]),
        }
    }
}

/// `eq?`: true for no or one argument, else whether every argument equals the
/// first.
pub open spec fn eq_spec(args: Seq<Datum>) -> Result<Datum, Fault> {
    if args.len() <= 1 {
        Ok(Datum::Bool(true))
    } else {
        match eq_upto(args, args.len() as int) {
            Ok(b) => Ok(Datum::Bool(b)),
            Err(e) => Err(e),
        }
    }
}

/// What a builtin returns for fully evaluated arguments.
pub open spec fn apply_spec(op: NativeOp, args: Seq<Datum>) -> Result<Datum, Fault> {
    match op {
        NativeOp::Add => add_spec(args),
        NativeOp::Sub => running_spec(op, args),
        NativeOp::Mul => mul_spec(args),
        NativeOp::Div => running_spec(op, args),
        NativeOp::Eq => eq_spec(args),
    }
}

fn step(op: NativeOp, acc: i64, x: i64) -> (r: Result<i64, Fault>)
    ensures
        r == int_step(op, acc, x),
{
    let c = match op {
        NativeOp::Add => acc.checked_add(x),
        NativeOp::Sub => acc.checked_sub(x),
        NativeOp::Mul => acc.checked_mul(x),
        _ => {
            if x == 0 {
                return Err(Fault::DivideByZero);
            }
            acc.checked_div(x)
        },
    };
    match c {
        Some(r) => Ok(r),
        None => Err(Fault::Overflow),
    }
}

fn fold_values(op: NativeOp, init: i64, values: &[Value]) -> (r: Result<i64, Fault>)
    ensures
        r == fold_ints(op, init, data_of(values@), values@.len() as int),
{
    proof {
        lemma_data_of(values@);
    }
    let mut acc = init;
    let mut i: usize = 0;
    while i < values.len()
        invariant
            i <= values@.len(),
            data_of(values@).len() == values@.len(),
            forall|k: int| 0 <= k < values@.len() ==> #[trigger] data_of(values@)[k] == values@[k]@,
            fold_ints(op, init, data_of(values@), i as int) == Ok::<i64, Fault>(acc),
        decreases values.len() - i,
    {
        assert(data_of(values@)[i as int] == values@[i as int]@);
        match &values[i] {
            Value::Int(x) => {
                match step(op, acc, *x) {
                    Ok(n) => {
                        acc = n;
                    },
                    Err(e) => {
                        proof {
                            lemma_fold_stays_failed(op, init, data_of(values@), i + 1, values@.len() as int);
                        }
                        return Err(e);
                    },
                }
            },
            _ => {
                proof {
                    lemma_fold_stays_failed(op, init, data_of(values@), i + 1, values@.len() as int);
                }
                return Err(Fault::TypeMismatch);
            },
        }
        i = i + 1;
    }
    Ok(acc)
}

proof fn lemma_fold_stays_failed(op: NativeOp, init: i64, args: Seq<Datum>, n: int, m: int)
    requires
        0 <= n <= m,
        fold_ints(op, init, args, n) is Err,
    ensures
        fold_ints(op, init, args, m) == fold_ints(op, init, args, n),
    decreases m - n,
{
    if m > n {
        lemma_fold_stays_failed(op, init, args, n, m - 1);
    }
}

proof fn lemma_eq_stays_settled(args: Seq<Datum>, n: int, m: int)
    requires
        0 <= n <= m,
        eq_upto(args, n) != Ok::<bool, Fault>(true),
    ensures
        eq_upto(args, m) == eq_upto(args, n),
    decreases m - n,
{
    if m > n {
        lemma_eq_stays_settled(args, n, m - 1);
    }
}

fn int_value(r: Result<i64, Fault>) -> (v: Result<Value, Fault>)
    ensures
        outcome(v) == int_result(r),
{
    match r {
        Ok(n) => Ok(Value::Int(n)),
        Err(e) => Err(e),
    }
}

/// `+`: the sum of all arguments; 0 for none.
pub fn func_builtin_add(values: &[Value]) -> (r: Result<Value, Fault>)
    ensures
        outcome(r) == add_spec(data_of(values@)),
{
    proof {
        lemma_data_of(values@);
    }
    int_value(fold_values(NativeOp::Add, 0, values))
}

/// `*`: the product of all arguments; 1 for none.
pub fn func_builtin_mul(values: &[Value]) -> (r: Result<Value, Fault>)
    ensures
        outcome(r) == mul_spec(data_of(values@)),
{
    proof {
        lemma_data_of(values@);
    }
    int_value(fold_values(NativeOp::Mul, 1, values))
}

fn running(op: NativeOp, values: &[Value]) -> (r: Result<Value, Fault>)
    ensures
        outcome(r) == running_spec(op, data_of(values@)),
{
    proof {
        lemma_data_of(values@);
    }
    if values.len() == 0 {
        return Err(Fault::ArityFault);
    }
    assert(data_of(values@)[0] == values@[0]@);
    match &values[0] {
        Value::Int(first) => int_value(fold_values(op, *first, values)),
        _ => Err(Fault::TypeMismatch),
    }
}

/// `-`: starts from the first argument and subtracts every argument from it,
/// the first one included.
pub fn func_builtin_sub(values: &[Value]) -> (r: Result<Value, Fault>)
    ensures
        outcome(r) == running_spec(NativeOp::Sub, data_of(values@)),
{
    running(NativeOp::Sub, values)
}

/// `/`: starts from the first argument and divides it by every argument, the
/// first one included.
pub fn func_builtin_div(values: &[Value]) -> (r: Result<Value, Fault>)
    ensures
        outcome(r) == running_spec(NativeOp::Div, data_of(values@)),
{
    running(NativeOp::Div, values)
}

/// `eq?`: true for no or one argument; else whether every argument equals the
/// first. Comparing two native functions is a fault.
pub fn func_builtin_eq(values: &[Value]) -> (r: Result<Value, Fault>)
    ensures
        outcome(r) == eq_spec(data_of(values@)),
{
    proof {
        lemma_data_of(values@);
    }
    if values.len() <= 1 {
        return Ok(Value::Bool(true));
    }
    let mut i: usize = 0;
    while i < values.len()
        invariant
            2 <= values@.len(),
            i <= values@.len(),
            data_of(values@).len() == values@.len(),
            forall|k: int| 0 <= k < values@.len() ==> #[trigger] data_of(values@)[k] == values@[k]@,
            eq_upto(data_of(values@), i as int) == Ok::<bool, Fault>(true),
        decreases values.len() - i,
    {
        assert(data_of(values@)[0] == values@[0]@);
        assert(data_of(values@)[i as int] == values@[i as int]@);
        match values_equal(&values[0], &values[i]) {
            Ok(true) => {},
            other => {
                proof {
                    lemma_eq_stays_settled(data_of(values@), i + 1, values@.len() as int);
                }
                return match other {
                    Ok(_) => Ok(Value::Bool(false)),
                    Err(e) => Err(e),
                };
            },
        }
        i = i + 1;
    }
    Ok(Value::Bool(true))
}

/// Applies a builtin to fully evaluated arguments.
pub fn apply_native(f: NativeFn, values: &[Value]) -> (r: Result<Value, Fault>)
    ensures
        outcome(r) == apply_spec(f.op, data_of(values@)),
{
    match f.op {
        NativeOp::Add => func_builtin_add(values),
        NativeOp::Sub => func_builtin_sub(values),
        NativeOp::Mul => func_builtin_mul(values),
        NativeOp::Div => func_builtin_div(values),
        NativeOp::Eq => func_builtin_eq(values),
    }
}

} // verus!
