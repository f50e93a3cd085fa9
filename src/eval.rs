use vstd::prelude::*;

use crate::builtins::{apply_native, apply_spec};
use crate::env::Environment;
use crate::fault::Fault;
use crate::parser::{lemma_parse_form_advances, parse_form, Parser};
use crate::value::{data_of, lemma_data_of, outcome, Datum, Value};

verus! {

pub open spec fn name_if() -> Seq<char> {
    seq!['i', 'f']
}

pub open spec fn name_def() -> Seq<char> {
    seq!['d', 'e', 'f']
}

pub open spec fn name_do() -> Seq<char> {
    seq!['d', 'o']
}

pub open spec fn name_assert() -> Seq<char> {
    seq!['a', 's', 's', 'e', 'r', 't']
}

/// Evaluates `d` in the bindings `env`: the bindings afterwards and the result.
///
/// Numbers, strings, booleans, `Nil` and builtins stand for themselves; a name
/// stands for its binding. A list headed by `if`, `def`, `do` or `assert` is a
/// special form, which decides itself which operands it evaluates. Any other
/// list is a call: its head must evaluate to a builtin, and then every other
/// element is evaluated from the left and the builtin applied to the results.
pub open spec fn eval_datum(env: Map<Seq<char>, Datum>, d: Datum) -> (
    Map<Seq<char>, Datum>,
    Result<Datum, Fault>,
)
    decreases d, 0int,
{
    match d {
        Datum::Ident(n) => if env.contains_key(n) {
            (env, Ok(env[n]))
        } else {
            (env, Err(Fault::UnboundIdentifier))
        },
        Datum::List(items) => {
            let n = items.len();
            if n == 0 {
                (env, Err(Fault::NotApplicable))
            } else if items[0] == Datum::Ident(name_if()) {
                if n < 2 || n > 4 {
                    (env, Err(Fault::ArityFault))
                } else {
                    let (e1, c) = eval_datum(env, items[1]);
                    match c {
                        Err(e) => (e1, Err(e)),
                        Ok(Datum::Bool(true)) => if n >= 3 {
                            eval_datum(e1, items[2])
                        } else {
                            (e1, Err(Fault::MissingBranch))
                        },
                        Ok(Datum::Bool(false)) => if n >= 4 {
                            eval_datum(e1, items[3])
                        } else {
                            (e1, Err(Fault::MissingBranch))
                        },
                        Ok(_) => (e1, Err(Fault::TypeMismatch)),
                    }
                }
            } else if items[0] == Datum::Ident(name_def()) {
                if n != 3 {
                    (env, Err(Fault::ArityFault))
                } else {
                    match items[1] {
                        Datum::Ident(name) => {
                            let (e1, r) = eval_datum(env, items[2]);
                            match r {
                                Ok(v) => (e1.insert(name, v), Ok(v)),
                                Err(e) => (e1, Err(e)),
                            }
                        },
                        _ => (env, Err(Fault::TypeMismatch)),
                    }
                }
            } else if items[0] == Datum::Ident(name_do()) {
                let (e1, r) = eval_prefix(env, items, 1, n as int);
                match r {
                    Err(e) => (e1, Err(e)),
                    Ok(vs) => (e1, Ok(if vs.len() == 0 { Datum::Nil } else { vs.last() })),
                }
            } else if items[0] == Datum::Ident(name_assert()) {
                if n != 2 {
                    (env, Err(Fault::ArityFault))
                } else {
                    let (e1, r) = eval_datum(env, items[1]);
                    match r {
                        Err(e) => (e1, Err(e)),
                        Ok(Datum::Bool(true)) => (e1, Ok(Datum::Bool(true))),
                        Ok(_) => (e1, Err(Fault::AssertionFailed)),
                    }
                }
            } else {
                let (e1, h) = eval_datum(env, items[0]);
                match h {
                    Err(e) => (e1, Err(e)),
                    Ok(Datum::Builtin(op)) => {
                        let (e2, r) = eval_prefix(e1, items, 1, n as int);
                        match r {
                            Err(e) => (e2, Err(e)),
                            Ok(args) => (e2, apply_spec(op, args)),
                        }
                    },
                    Ok(_) => (e1, Err(Fault::NotApplicable)),
                }
            }
        },
        _ => (env, Ok(d)),
    }
}

/// Evaluates `ds[lo..hi]` from the left: the bindings afterwards and the
/// values, or the first fault.
pub open spec fn eval_prefix(env: Map<Seq<char>, Datum>, ds: Seq<Datum>, lo: int, hi: int) -> (
    Map<Seq<char>, Datum>,
    Result<Seq<Datum>, Fault>,
)
    decreases ds, hi,
{
    if 0 <= lo < hi <= ds.len() {
        let (e1, r) = eval_prefix(env, ds, lo, hi - 1);
        match r {
            Err(e) => (e1, Err(e)),
            Ok(vs) => {
                let (e2, r2) = eval_datum(e1, ds[hi - 1]);
                match r2 {
                    Err(e) => (e2, Err(e)),
                    Ok(v) => (e2, Ok(vs.push(v))),
                }
            },
        }
    } else {
        (env, Ok(Seq::empty()))
    }
}

proof fn lemma_prefix_stays_failed(
    env: Map<Seq<char>, Datum>,
    ds: Seq<Datum>,
    lo: int,
    n: int,
    m: int,
)
    requires
        0 <= lo < n <= m <= ds.len(),
        eval_prefix(env, ds, lo, n).1 is Err,
    ensures
        eval_prefix(env, ds, lo, m) == eval_prefix(env, ds, lo, n),
    decreases m - n,
{
    if m > n {
        lemma_prefix_stays_failed(env, ds, lo, n, m - 1);
    }
}

pub open spec fn values_result(r: Result<Vec<Value>, Fault>) -> Result<Seq<Datum>, Fault> {
    match r {
        Ok(vs) => Ok(data_of(vs@)),
        Err(e) => Err(e),
    }
}

/// Whether `v` is the name `w`.
fn is_name(v: &Value, w: &str) -> (r: bool)
    ensures
        r == (v@ == Datum::Ident(w@)),
{
    match v {
        Value::Ident(s) => {
            let t = String::from_str(w);
            *s == t
        },
        _ => false,
    }
}

/// Evaluates `items[lo..]` from the left, as `eval_prefix` says.
fn eval_range(env: &mut Environment, items: &Vec<Value>, lo: usize) -> (r: Result<Vec<Value>, Fault>)
    requires
        old(env).wf(),
        1 <= lo <= items.len(),
    ensures
        final(env).wf(),
        final(env)@ == eval_prefix(old(env)@, data_of(items@), lo as int, items.len() as int).0,
        values_result(r) == eval_prefix(old(env)@, data_of(items@), lo as int, items.len() as int).1,
    decreases items,
{
    proof {
        lemma_data_of(items@);
    }
    let ghost ds = data_of(items@);
    let mut vals: Vec<Value> = Vec::new();
    proof {
        lemma_data_of(vals@);
        assert(data_of(vals@) =~= Seq::<Datum>::empty());
    }
    let mut i = lo;
    while i < items.len()
        invariant
            env.wf(),
            ds == data_of(items@),
            ds.len() == items.len(),
            forall|k: int| 0 <= k < items.len() ==> #[trigger] ds[k] == items@[k]@,
            1 <= lo <= i <= items.len(),
            eval_prefix(old(env)@, ds, lo as int, i as int) == (env@, Ok::<Seq<Datum>, Fault>(data_of(vals@))),
        decreases items.len() - i,
    {
        proof {
            assert(decreases_to!(*items => items[i as int]));
        }
        let r = eval_value(env, &items[i]);
        assert(ds[i as int] == items@[i as int]@);
        match r {
            Ok(v) => {
                let ghost before = vals@;
                vals.push(v);
                proof {
                    lemma_data_of(before);
                    lemma_data_of(vals@);
                    assert(data_of(vals@) =~= data_of(before).push(v@));
                }
            },
            Err(e) => {
                proof {
                    lemma_prefix_stays_failed(old(env)@, ds, lo as int, i + 1, items.len() as int);
                }
                return Err(e);
            },
        }
        i = i + 1;
    }
    Ok(vals)
}

/// Evaluates one expression in `env`, as `eval_datum` says.
pub fn eval_value(env: &mut Environment, expr: &Value) -> (r: Result<Value, Fault>)
    requires
        old(env).wf(),
    ensures
        final(env).wf(),
        final(env)@ == eval_datum(old(env)@, expr@).0,
        outcome(r) == eval_datum(old(env)@, expr@).1,
    decreases expr,
{
    match expr {
        Value::Ident(name) => match env.lookup(name) {
            Some(v) => Ok(v),
            None => Err(Fault::UnboundIdentifier),
        },
        Value::List(items) => {
            proof {
                lemma_data_of(items@);
                assert(decreases_to!(*expr => expr->List_0));
                reveal_strlit("if");
                reveal_strlit("def");
                reveal_strlit("do");
                reveal_strlit("assert");
                assert("if"@ =~= name_if());
                assert("def"@ =~= name_def());
                assert("do"@ =~= name_do());
                assert("assert"@ =~= name_assert());
            }
            let ghost ds = data_of(items@);
            assert(expr@ == Datum::List(ds));
            let n = items.len();
            if n == 0 {
                return Err(Fault::NotApplicable);
            }
            assert(ds[0] == items@[0]@);
            if is_name(&items[0], "if") {
                if n < 2 || n > 4 {
                    return Err(Fault::ArityFault);
                }
                assert(decreases_to!(*items => items[1]));
                assert(ds[1] == items@[1]@);
                match eval_value(env, &items[1]) {
                    Err(e) => Err(e),
                    Ok(Value::Bool(true)) => {
                        if n >= 3 {
                            assert(decreases_to!(*items => items[2]));
                            assert(ds[2] == items@[2]@);
                            eval_value(env, &items[2])
                        } else {
                            Err(Fault::MissingBranch)
                        }
                    },
                    Ok(Value::Bool(false)) => {
                        if n >= 4 {
                            assert(decreases_to!(*items => items[3]));
                            assert(ds[3] == items@[3]@);
                            eval_value(env, &items[3])
                        } else {
                            Err(Fault::MissingBranch)
                        }
                    },
                    Ok(_) => Err(Fault::TypeMismatch),
                }
            } else if is_name(&items[0], "def") {
                if n != 3 {
                    return Err(Fault::ArityFault);
                }
                assert(ds[1] == items@[1]@);
                match &items[1] {
                    Value::Ident(name) => {
                        assert(decreases_to!(*items => items[2]));
                        assert(ds[2] == items@[2]@);
                        match eval_value(env, &items[2]) {
                            Ok(v) => {
                                let stored = v.deep_copy();
                                env.define(name.clone(), stored);
                                Ok(v)
                            },
                            Err(e) => Err(e),
                        }
                    },
                    _ => Err(Fault::TypeMismatch),
                }
            } else if is_name(&items[0], "do") {
                match eval_range(env, items, 1) {
                    Err(e) => Err(e),
                    Ok(mut vals) => {
                        proof {
                            lemma_data_of(vals@);
                        }
                        let ghost vs = vals@;
                        match vals.pop() {
                            Some(v) => {
                                assert(data_of(vs)[vs.len() - 1] == vs[vs.len() - 1]@);
                                Ok(v)
                            },
                            None => Ok(Value::Nil),
                        }
                    },
                }
            } else if is_name(&items[0], "assert") {
                if n != 2 {
                    return Err(Fault::ArityFault);
                }
                assert(decreases_to!(*items => items[1]));
                assert(ds[1] == items@[1]@);
                match eval_value(env, &items[1]) {
                    Err(e) => Err(e),
                    Ok(Value::Bool(true)) => Ok(Value::Bool(true)),
                    Ok(_) => Err(Fault::AssertionFailed),
                }
            } else {
                assert(decreases_to!(*items => items[0]));
                match eval_value(env, &items[0]) {
                    Err(e) => Err(e),
                    Ok(Value::Builtin(f)) => match eval_range(env, items, 1) {
                        Err(e) => Err(e),
                        Ok(vals) => apply_native(f, vals.as_slice()),
                    },
                    Ok(_) => Err(Fault::NotApplicable),
                }
            }
        },
        Value::Int(n) => Ok(Value::Int(*n)),
        Value::Str(s) => Ok(Value::Str(s.clone())),
        Value::Bool(b) => Ok(Value::Bool(*b)),
        Value::Builtin(f) => Ok(Value::Builtin(*f)),
        Value::Nil => Ok(Value::Nil),
    }
}

/// Reads and evaluates the forms of `s` from index `i` on, one after the
/// other, until the text ends or a form faults.
pub open spec fn eval_forms(env: Map<Seq<char>, Datum>, s: Seq<char>, i: int) -> (
    Map<Seq<char>, Datum>,
    Result<Seq<Datum>, Fault>,
)
    decreases s.len() - i,
    when 0 <= i
{
    match parse_form(s, i, 0) {
        None => (env, Ok(Seq::empty())),
        Some((Err(e), _)) => (env, Err(e)),
        Some((Ok(d), k)) => {
            proof {
                lemma_parse_form_advances(s, i, 0);
            }
            let (e1, r) = eval_datum(env, d);
            match r {
                Err(e) => (e1, Err(e)),
                Ok(v) => {
                    let (e2, rest) = eval_forms(e1, s, k);
                    (e2, glue_values(seq![v], rest))
                },
            }
        },
    }
}

pub open spec fn glue_values(vs: Seq<Datum>, r: Result<Seq<Datum>, Fault>) -> Result<Seq<Datum>, Fault> {
    match r {
        Ok(rest) => Ok(vs + rest),
        Err(e) => Err(e),
    }
}

/// Evaluates every form that `forms` has left, in order, and returns their
/// values; the first fault, of reading or of evaluation, ends the work.
pub fn eval(env: &mut Environment, forms: &mut Parser) -> (r: Result<Vec<Value>, Fault>)
    requires
        old(env).wf(),
        old(forms).wf(),
    ensures
        final(env).wf(),
        old(forms).stopped() ==> values_result(r) == Ok::<Seq<Datum>, Fault>(Seq::empty()) && final(env)@ == old(env)@,
        !old(forms).stopped() ==> {
            &&& final(env)@ == eval_forms(old(env)@, old(forms).text(), old(forms).position()).0
            &&& values_result(r) == eval_forms(old(env)@, old(forms).text(), old(forms).position()).1
        },
{
    let ghost s = forms.text();
    let ghost p0 = forms.position();
    let mut out: Vec<Value> = Vec::new();
    proof {
        forms.lemma_position_bounds();
        lemma_data_of(out@);
        assert(data_of(out@) =~= Seq::<Datum>::empty());
        match eval_forms(env@, s, p0).1 {
            Ok(rest) => {
                assert(Seq::<Datum>::empty() + rest =~= rest);
            },
            Err(_) => {},
        }
    }
    if forms.is_stopped() {
        return Ok(out);
    }
    loop
        invariant
            env.wf(),
            forms.wf(),
            !forms.stopped(),
            forms.text() == s,
            s == old(forms).text(),
            p0 == old(forms).position(),
            !old(forms).stopped(),
            0 <= p0 <= forms.position() <= s.len(),
            eval_forms(old(env)@, s, p0).0 == eval_forms(env@, s, forms.position()).0,
            eval_forms(old(env)@, s, p0).1 == glue_values(
                data_of(out@),
                eval_forms(env@, s, forms.position()).1,
            ),
        decreases s.len() - forms.position(),
    {
        let ghost p = forms.position();
        proof {
            lemma_parse_form_advances(s, p, 0);
        }
        match forms.next_form() {
            None => {
                proof {
                    assert(data_of(out@) + Seq::<Datum>::empty() =~= data_of(out@));
                }
                return Ok(out);
            },
            Some(Err(e)) => {
                return Err(e);
            },
            Some(Ok(form)) => {
                let ghost e0 = env@;
                match eval_value(env, &form) {
                    Err(e) => {
                        return Err(e);
                    },
                    Ok(v) => {
                        let ghost before = out@;
                        out.push(v);
                        proof {
                            forms.lemma_position_bounds();
                            lemma_data_of(before);
                            lemma_data_of(out@);
                            assert(data_of(out@) =~= data_of(before).push(v@));
                            match eval_forms(env@, s, forms.position()).1 {
                                Ok(rest) => {
                                    assert(data_of(before) + (seq![v@] + rest) =~= data_of(out@)
                                        + rest);
                                },
                                Err(_) => {},
                            }
                        }
                    },
                }
            },
        }
    }
}

/// What evaluating one top-level form does: on a fault the bindings are left
/// as they were before the form.
pub open spec fn eval_toplevel(env: Map<Seq<char>, Datum>, d: Datum) -> (
    Map<Seq<char>, Datum>,
    Result<Datum, Fault>,
) {
    let (e1, r) = eval_datum(env, d);
    if r is Err {
        (env, r)
    } else {
        (e1, r)
    }
}

/// Reads the forms of `s` from index `i` on and evaluates each in turn: one
/// result per form. A fault in evaluating a form ends that form only; a fault
/// in reading ends the text.
pub open spec fn run_forms(env: Map<Seq<char>, Datum>, s: Seq<char>, i: int) -> (
    Map<Seq<char>, Datum>,
    Seq<Result<Datum, Fault>>,
)
    decreases s.len() - i,
    when 0 <= i
{
    match parse_form(s, i, 0) {
        None => (env, Seq::empty()),
        Some((Err(e), _)) => (env, seq![Err(e)]),
        Some((Ok(d), k)) => {
            proof {
                lemma_parse_form_advances(s, i, 0);
            }
            let (e1, r) = eval_toplevel(env, d);
            let (e2, rest) = run_forms(e1, s, k);
            (e2, seq![r] + rest)
        },
    }
}

pub open spec fn outcomes(rs: Seq<Result<Value, Fault>>) -> Seq<Result<Datum, Fault>> {
    rs.map_values(|r: Result<Value, Fault>| outcome(r))
}

/// Evaluates each top-level form of `line` in turn and returns one result per
/// form. A form that faults leaves `env` as it was and the next form is
/// evaluated all the same; a fault in reading the text is the last result.
pub fn parse_toplevel(env: &mut Environment, line: &str) -> (r: Vec<Result<Value, Fault>>)
    requires
        old(env).wf(),
    ensures
        final(env).wf(),
        final(env)@ == run_forms(old(env)@, line@, 0).0,
        outcomes(r@) == run_forms(old(env)@, line@, 0).1,
{
    let mut parser = Parser::new(line);
    let mut out: Vec<Result<Value, Fault>> = Vec::new();
    proof {
        assert(outcomes(out@) + run_forms(env@, line@, 0).1 =~= run_forms(env@, line@, 0).1);
    }
    loop
        invariant
            env.wf(),
            parser.wf(),
            !parser.stopped(),
            parser.text() == line@,
            0 <= parser.position() <= line@.len(),
            run_forms(old(env)@, line@, 0).0 == run_forms(env@, line@, parser.position()).0,
            run_forms(old(env)@, line@, 0).1 == outcomes(out@) + run_forms(
                env@,
                line@,
                parser.position(),
            ).1,
        decreases line@.len() - parser.position(),
    {
        let ghost p = parser.position();
        proof {
            lemma_parse_form_advances(line@, p, 0);
        }
        let ghost before = out@;
        match parser.next_form() {
            None => {
                assert(outcomes(out@) + Seq::<Result<Datum, Fault>>::empty() =~= outcomes(out@));
                return out;
            },
            Some(Err(e)) => {
                out.push(Err(e));
                assert(outcomes(out@) =~= outcomes(before) + seq![Err::<Datum, Fault>(e)]);
                return out;
            },
            Some(Ok(form)) => {
                let saved = env.snapshot();
                let r = eval_value(env, &form);
                if r.is_err() {
                    *env = saved;
                }
                out.push(r);
                proof {
                    parser.lemma_position_bounds();
                    assert(outcomes(out@) =~= outcomes(before).push(outcome(r)));
                    let rest = run_forms(env@, line@, parser.position()).1;
                    assert(outcomes(before) + (seq![outcome(r)] + rest) =~= outcomes(out@) + rest);
                }
            },
        }
    }
}

/// The form `(def name x)`.
pub open spec fn def_form(name: Seq<char>, x: Datum) -> Datum {
    Datum::List(seq![Datum::Ident(name_def()), Datum::Ident(name), x])
}

/// Binding, then lookup: when `(def name x)` succeeds with a value, the name
/// evaluates to that value in the bindings that follow, whatever it was bound
/// to before; the binding is the only change that the form itself makes.
pub proof fn lemma_def_then_lookup(env: Map<Seq<char>, Datum>, name: Seq<char>, x: Datum)
    ensures
        ({
            let (e1, r) = eval_datum(env, def_form(name, x));
            match r {
                Ok(v) => {
                    &&& eval_datum(env, x) == (eval_datum(env, x).0, Ok::<Datum, Fault>(v))
                    &&& e1 == eval_datum(env, x).0.insert(name, v)
                    &&& eval_datum(e1, Datum::Ident(name)) == (e1, Ok::<Datum, Fault>(v))
                },
                Err(e) => eval_datum(env, x) == (e1, Err::<Datum, Fault>(e)),
            }
        }),
{
    let items = seq![Datum::Ident(name_def()), Datum::Ident(name), x];
    assert(items[0] != Datum::Ident(name_if())) by {
        assert(name_def().len() != name_if().len());
    }
    assert(items[1] == Datum::Ident(name));
    assert(items[2] == x);
}

/// A name with no binding evaluates to the `UnboundIdentifier` fault and
/// changes nothing.
pub proof fn lemma_unbound_identifier(env: Map<Seq<char>, Datum>, name: Seq<char>)
    requires
        !env.contains_key(name),
    ensures
        eval_datum(env, Datum::Ident(name)) == (env, Err::<Datum, Fault>(Fault::UnboundIdentifier)),
{
}

/// A list headed by an integer is no call: it evaluates to the `NotApplicable`
/// fault, and none of its other elements is evaluated.
pub proof fn lemma_integer_head_not_applicable(
    env: Map<Seq<char>, Datum>,
    n: i64,
    rest: Seq<Datum>,
)
    ensures
        eval_datum(env, Datum::List(seq![Datum::Int(n)] + rest)) == (env, Err::<Datum, Fault>(
            Fault::NotApplicable,
        )),
{
    let items = seq![Datum::Int(n)] + rest;
    assert(items[0] == Datum::Int(n));
    assert(items.len() > 0);
    assert(eval_datum(env, Datum::Int(n)) == (env, Ok::<Datum, Fault>(Datum::Int(n))));
}

/// A top-level form that faults leaves the bindings as they were.
pub proof fn lemma_fault_keeps_bindings(env: Map<Seq<char>, Datum>, d: Datum)
    ensures
        eval_toplevel(env, d).1 is Err ==> eval_toplevel(env, d).0 == env,
{
}

} // verus!
