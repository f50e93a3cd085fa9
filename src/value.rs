use vstd::prelude::*;

use crate::fault::Fault;

verus! {

/// Which builtin a native function is.
#[derive(Clone, Copy, Debug, PartialEq, Eq, Structural)]
pub enum NativeOp {
    Add,
    Sub,
    Mul,
    Div,
    Eq,
}

/// A handle to a builtin. The language's `eq?` never compares two of them:
/// doing so is the `Incomparable` fault.
#[derive(Clone, Copy, Debug, PartialEq, Eq)]
pub struct NativeFn {
    pub op: NativeOp,
}

/// An expression, as the parser builds it, and a value, as evaluation yields it.
#[derive(Debug, PartialEq, Eq)]
pub enum Value {
    List(Vec<Value>),
    Int(i64),
    Str(String),
    Bool(bool),
    Ident(String),
    Builtin(NativeFn),
    Nil,
}

/// The mathematical content of a `Value`.
pub enum Datum {
    List(Seq<Datum>),
    Int(i64),
    Str(Seq<char>),
    Bool(bool),
    Ident(Seq<char>),
    Builtin(NativeOp),
    Nil,
}

pub open spec fn datum_of(v: Value) -> Datum
    decreases v,
{
    match v {
        Value::List(items) => Datum::List(data_of(items@)),
        Value::Int(n) => Datum::Int(n),
        Value::Str(s) => Datum::Str(s@),
        Value::Bool(b) => Datum::Bool(b),
        Value::Ident(s) => Datum::Ident(s@),
        Value::Builtin(f) => Datum::Builtin(f.op),
        Value::Nil => Datum::Nil,
    }
}

/// The data of a sequence of values, element by element.
pub open spec fn data_of(vs: Seq<Value>) -> Seq<Datum>
    decreases vs,
{
    if vs.len() == 0 {
        Seq::empty()
    } else {
        data_of(vs.drop_last()).push(datum_of(vs.last()))
    }
}

impl View for Value {
    type V = Datum;

    open spec fn view(&self) -> Datum {
        datum_of(*self)
    }
}

pub broadcast proof fn lemma_data_of(vs: Seq<Value>)
    ensures
        #[trigger] data_of(vs).len() == vs.len(),
        forall|i: int| 0 <= i < vs.len() ==> #[trigger] data_of(vs)[i] == datum_of(vs[i]),
    decreases vs.len(),
{
    if vs.len() > 0 {
        lemma_data_of(vs.drop_last());
        assert forall|i: int| 0 <= i < vs.len() implies #[trigger] data_of(vs)[i] == datum_of(
            vs[i],
        ) by {
            if i < vs.len() - 1 {
                assert(vs.drop_last()[i] == vs[i]);
            }
        }
    }
}

pub proof fn lemma_data_of_ext(a: Seq<Value>, b: Seq<Value>)
    requires
        a.len() == b.len(),
        forall|i: int| 0 <= i < a.len() ==> datum_of(#[trigger] a[i]) == datum_of(b[i]),
    ensures
        data_of(a) == data_of(b),
{
    broadcast use lemma_data_of;

    assert(data_of(a) =~= data_of(b));
}

impl Value {
    /// A copy of this value, with the same content.
    pub fn deep_copy(&self) -> (r: Value)
        ensures
            r@ == self@,
        decreases self,
    {
        match self {
            Value::List(items) => {
                let mut out: Vec<Value> = Vec::new();
                let mut i: usize = 0;
                while i < items.len()
                    invariant
                        *self == Value::List(*items),
                        i <= items.len(),
                        out.len() == i,
                        forall|k: int| 0 <= k < i ==> datum_of(#[trigger] out@[k]) == datum_of(
                            items@[k],
                        ),
                    decreases items.len() - i,
                {
                    proof {
                        assert(decreases_to!(*self => self->List_0));
                        assert(decreases_to!(*items => items[i as int]));
                    }
                    let c = items[i].deep_copy();
                    out.push(c);
                    i = i + 1;
                }
                proof {
                    lemma_data_of_ext(out@, items@);
                }
                Value::List(out)
            },
            Value::Int(n) => Value::Int(*n),
            Value::Str(s) => Value::Str(s.clone()),
            Value::Bool(b) => Value::Bool(*b),
            Value::Ident(s) => Value::Ident(s.clone()),
            Value::Builtin(f) => Value::Builtin(NativeFn { op: f.op }),
            Value::Nil => Value::Nil,
        }
    }
}

/// Structural equality of two data, as `eq?` sees it: lists compare by
/// length, then element by element from the left, stopping at the first
/// difference; reaching two native functions is a fault.
pub open spec fn datum_eq(a: Datum, b: Datum) -> Result<bool, Fault>
    decreases a, 0int,
{
    match (a, b) {
        (Datum::Builtin(_), Datum::Builtin(_)) => Err(Fault::Incomparable),
        (Datum::List(xs), Datum::List(ys)) => {
            if xs.len() != ys.len() {
                Ok(false)
            } else {
                list_eq(xs, ys, 0)
            }
        },
        (Datum::Int(x), Datum::Int(y)) => Ok(x == y),
        (Datum::Str(x), Datum::Str(y)) => Ok(x == y),
        (Datum::Bool(x), Datum::Bool(y)) => Ok(x == y),
        (Datum::Ident(x), Datum::Ident(y)) => Ok(x == y),
        (Datum::Nil, Datum::Nil) => Ok(true),
        _ => Ok(false),
    }
}

/// Element-by-element comparison of `xs[i..]` and `ys[i..]`.
pub open spec fn list_eq(xs: Seq<Datum>, ys: Seq<Datum>, i: int) -> Result<bool, Fault>
    decreases xs, xs.len() - i,
{
    if 0 <= i < xs.len() && i < ys.len() {
        match datum_eq(xs[i], ys[i]) {
            Err(e) => Err(e),
            Ok(false) => Ok(false),
            Ok(true) => list_eq(xs, ys, i + 1),
        }
    } else {
        Ok(true)
    }
}

/// Compares two values as `eq?` does.
pub fn values_equal(a: &Value, b: &Value) -> (r: Result<bool, Fault>)
    ensures
        r == datum_eq(a@, b@),
    decreases a,
{
    match (a, b) {
        (Value::Builtin(_), Value::Builtin(_)) => Err(Fault::Incomparable),
        (Value::List(xs), Value::List(ys)) => {
            proof {
                lemma_data_of(xs@);
                lemma_data_of(ys@);
            }
            if xs.len() != ys.len() {
                return Ok(false);
            }
            let mut i: usize = 0;
            while i < xs.len()
                invariant
                    *a == Value::List(*xs),
                    *b == Value::List(*ys),
                    i <= xs.len() == ys.len(),
                    data_of(xs@).len() == xs.len(),
                    data_of(ys@).len() == ys.len(),
                    forall|k: int| 0 <= k < xs.len() ==> #[trigger] data_of(xs@)[k] == datum_of(xs@[k]),
                    forall|k: int| 0 <= k < ys.len() ==> #[trigger] data_of(ys@)[k] == datum_of(ys@[k]),
                    list_eq(data_of(xs@), data_of(ys@), 0) == list_eq(
                        data_of(xs@),
                        data_of(ys@),
                        i as int,
                    ),
                decreases xs.len() - i,
            {
                proof {
                    assert(decreases_to!(*a => a->List_0));
                    assert(decreases_to!(*xs => xs[i as int]));
                    assert(data_of(xs@)[i as int] == datum_of(xs@[i as int]));
                    assert(data_of(ys@)[i as int] == datum_of(ys@[i as int]));
                }
                match values_equal(&xs[i], &ys[i]) {
                    Err(e) => {
                        return Err(e);
                    },
                    Ok(false) => {
                        return Ok(false);
                    },
                    Ok(true) => {},
                }
                i = i + 1;
            }
            Ok(true)
        },
        (Value::Int(x), Value::Int(y)) => Ok(*x == *y),
        (Value::Str(x), Value::Str(y)) => Ok(*x == *y),
        (Value::Bool(x), Value::Bool(y)) => Ok(*x == *y),
        (Value::Ident(x), Value::Ident(y)) => Ok(*x == *y),
        (Value::Nil, Value::Nil) => Ok(true),
        _ => Ok(false),
    }
}

/// The content of an evaluation result.
pub open spec fn outcome(r: Result<Value, Fault>) -> Result<Datum, Fault> {
    match r {
        Ok(v) => Ok(v@),
        Err(e) => Err(e),
    }
}

} // verus!
