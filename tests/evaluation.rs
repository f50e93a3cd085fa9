use asgard::builtins::apply_native;
use asgard::value::values_equal;
use asgard::{
    add_default_funcs, eval, eval_value, func_builtin_add, func_builtin_div, func_builtin_eq,
    func_builtin_mul, func_builtin_sub, parse_toplevel, Environment, Fault, NativeFn, NativeOp,
    Parser, Value,
};

fn run_in(env: &mut Environment, src: &str) -> Result<Value, Fault> {
    let mut p = Parser::new(src);
    let form = p.next_form().expect("a form").expect("a well-formed form");
    eval_value(env, &form)
}

fn run(src: &str) -> Result<Value, Fault> {
    let mut env = Environment::new();
    run_in(&mut env, src)
}

#[test]
fn eval_basic_form() {
    let mut env = Environment::empty();
    add_default_funcs(&mut env);

    let s = "(+ (+ 1 1) (+ 2 3) 13 22)";

    let mut parser = Parser::new(s);

    let expected = Ok(vec![Value::Int(42)]);
    let actual = eval(&mut env, &mut parser);

    assert_eq!(expected, actual);
}

#[test]
fn add_two_numbers() {
    assert_eq!(run("(+ 1 2)"), Ok(Value::Int(3)));
}

#[test]
fn equality_builtin() {
    assert_eq!(run("(eq? 1 1 1)"), Ok(Value::Bool(true)));
    assert_eq!(run("(eq? 1 2)"), Ok(Value::Bool(false)));
    assert_eq!(run("(eq? 5)"), Ok(Value::Bool(true)));
    assert_eq!(run("(eq?)"), Ok(Value::Bool(true)));
    assert_eq!(run("(eq? \"a\" \"a\")"), Ok(Value::Bool(true)));
    assert_eq!(run("(eq? 1 \"1\")"), Ok(Value::Bool(false)));
}

#[test]
fn comparing_functions_faults() {
    assert_eq!(run("(eq? + +)"), Err(Fault::Incomparable));
    assert_eq!(run("(eq? + 1)"), Err(Fault::Incomparable));
    assert_eq!(run("(eq? 1 +)"), Ok(Value::Bool(false)));
    assert_eq!(run("(eq? +)"), Ok(Value::Bool(true)));
}

#[test]
fn conditional_picks_branch() {
    assert_eq!(run("(if (eq? 1 1) 10 20)"), Ok(Value::Int(10)));
    assert_eq!(run("(if (eq? 1 2) 10 20)"), Ok(Value::Int(20)));
    assert_eq!(run("(if true 10)"), Ok(Value::Int(10)));
    assert_eq!(run("(if false 10 20)"), Ok(Value::Int(20)));
}

#[test]
fn conditional_faults() {
    assert_eq!(run("(if (eq? 1 2) 10)"), Err(Fault::MissingBranch));
    assert_eq!(run("(if true)"), Err(Fault::MissingBranch));
    assert_eq!(run("(if 1 2 3)"), Err(Fault::TypeMismatch));
    assert_eq!(run("(if)"), Err(Fault::ArityFault));
    assert_eq!(run("(if true 1 2 3)"), Err(Fault::ArityFault));
}

#[test]
fn def_binds_and_overwrites() {
    let mut env = Environment::new();
    assert_eq!(run_in(&mut env, "(def x 5)"), Ok(Value::Int(5)));
    assert_eq!(run_in(&mut env, "x"), Ok(Value::Int(5)));
    assert_eq!(run_in(&mut env, "(def x 6)"), Ok(Value::Int(6)));
    assert_eq!(run_in(&mut env, "x"), Ok(Value::Int(6)));
}

#[test]
fn def_faults() {
    assert_eq!(run("(def 5 5)"), Err(Fault::TypeMismatch));
    assert_eq!(run("(def x)"), Err(Fault::ArityFault));
    let mut env = Environment::new();
    assert_eq!(run_in(&mut env, "(def y zzz)"), Err(Fault::UnboundIdentifier));
    assert_eq!(run_in(&mut env, "y"), Err(Fault::UnboundIdentifier));
}

#[test]
fn assertion_form() {
    assert_eq!(run("(assert (eq? 1 1))"), Ok(Value::Bool(true)));
    assert_eq!(run("(assert (eq? 1 2))"), Err(Fault::AssertionFailed));
    assert_eq!(run("(assert 1)"), Err(Fault::AssertionFailed));
    assert_eq!(run("(assert)"), Err(Fault::ArityFault));
}

#[test]
fn unbound_identifier_faults() {
    assert_eq!(run("zzz"), Err(Fault::UnboundIdentifier));
    assert_eq!(run("(+ 1 zzz)"), Err(Fault::UnboundIdentifier));
}

#[test]
fn head_not_a_function_faults() {
    assert_eq!(run("(1 2 3)"), Err(Fault::NotApplicable));
    assert_eq!(run("(\"f\" 1)"), Err(Fault::NotApplicable));
    assert_eq!(run("()"), Err(Fault::NotApplicable));
}

#[test]
fn head_checked_before_arguments() {
    let mut env = Environment::new();
    assert_eq!(run_in(&mut env, "(1 (def z 3))"), Err(Fault::NotApplicable));
    assert_eq!(run_in(&mut env, "z"), Err(Fault::UnboundIdentifier));
}

#[test]
fn sequence_form() {
    assert_eq!(run("(do)"), Ok(Value::Nil));
    assert_eq!(run("(do (def y 2) (+ y 1))"), Ok(Value::Int(3)));
    assert_eq!(run("(do 1 zzz 3)"), Err(Fault::UnboundIdentifier));
}

#[test]
fn subtraction_takes_first_twice() {
    assert_eq!(run("(- 10 3)"), Ok(Value::Int(-3)));
    assert_eq!(run("(- 5)"), Ok(Value::Int(0)));
    assert_eq!(run("(-)"), Err(Fault::ArityFault));
    assert_eq!(run("(- \"a\")"), Err(Fault::TypeMismatch));
}

#[test]
fn division_takes_first_twice() {
    assert_eq!(run("(/ 100 5)"), Ok(Value::Int(0)));
    assert_eq!(run("(/ 7)"), Ok(Value::Int(1)));
    assert_eq!(run("(/ 0 1)"), Err(Fault::DivideByZero));
    assert_eq!(run("(/ 5 0)"), Err(Fault::DivideByZero));
    assert_eq!(run("(/)"), Err(Fault::ArityFault));
}

#[test]
fn sums_and_products() {
    assert_eq!(run("(+)"), Ok(Value::Int(0)));
    assert_eq!(run("(*)"), Ok(Value::Int(1)));
    assert_eq!(run("(* 2 3 4)"), Ok(Value::Int(24)));
    assert_eq!(run("(+ 1 \"a\")"), Err(Fault::TypeMismatch));
    assert_eq!(run("(* true 2)"), Err(Fault::TypeMismatch));
}

#[test]
fn arithmetic_overflow_faults() {
    assert_eq!(run("(+ 9223372036854775807 1)"), Err(Fault::Overflow));
    assert_eq!(run("(* 9223372036854775807 2)"), Err(Fault::Overflow));
    let min = Value::Int(i64::MIN);
    assert_eq!(func_builtin_sub(&[Value::Int(0), Value::Int(i64::MIN)]), Err(Fault::Overflow));
    assert_eq!(func_builtin_mul(&[min, Value::Int(-1)]), Err(Fault::Overflow));
    assert_eq!(func_builtin_div(&[Value::Int(i64::MIN), Value::Int(-1)]), Ok(Value::Int(-1)));
}

#[test]
fn builtins_called_directly() {
    assert_eq!(func_builtin_add(&[Value::Int(2), Value::Int(3)]), Ok(Value::Int(5)));
    assert_eq!(func_builtin_mul(&[Value::Int(2), Value::Int(3)]), Ok(Value::Int(6)));
    assert_eq!(func_builtin_sub(&[Value::Int(2), Value::Int(3)]), Ok(Value::Int(-3)));
    assert_eq!(func_builtin_div(&[Value::Int(-7), Value::Int(2)]), Ok(Value::Int(0)));
    assert_eq!(func_builtin_div(&[Value::Int(-8)]), Ok(Value::Int(1)));
    assert_eq!(func_builtin_eq(&[Value::Nil, Value::Nil]), Ok(Value::Bool(true)));
    assert_eq!(
        apply_native(NativeFn { op: NativeOp::Mul }, &[Value::Int(-4), Value::Int(5)]),
        Ok(Value::Int(-20))
    );
}

#[test]
fn list_equality_is_structural() {
    let a = Value::List(vec![Value::Int(1), Value::Str("x".to_string())]);
    let b = Value::List(vec![Value::Int(1), Value::Str("x".to_string())]);
    let c = Value::List(vec![Value::Int(1)]);
    let f = Value::List(vec![Value::Builtin(NativeFn { op: NativeOp::Add })]);
    assert_eq!(values_equal(&a, &b), Ok(true));
    assert_eq!(values_equal(&a, &c), Ok(false));
    assert_eq!(values_equal(&f, &f), Err(Fault::Incomparable));
    assert_eq!(a.deep_copy(), a);
}

#[test]
fn eval_stops_at_first_fault() {
    let mut env = Environment::new();
    let mut parser = Parser::new("(def a 1) zzz (def b 2)");
    assert_eq!(eval(&mut env, &mut parser), Err(Fault::UnboundIdentifier));
    assert_eq!(run_in(&mut env, "a"), Ok(Value::Int(1)));
    assert_eq!(run_in(&mut env, "b"), Err(Fault::UnboundIdentifier));
}

#[test]
fn toplevel_reports_each_form() {
    let mut env = Environment::new();
    let results = parse_toplevel(&mut env, "(def a 1) (+ a zzz) a");
    assert_eq!(
        results,
        vec![Ok(Value::Int(1)), Err(Fault::UnboundIdentifier), Ok(Value::Int(1))]
    );
}

#[test]
fn toplevel_fault_keeps_environment() {
    let mut env = Environment::new();
    let results = parse_toplevel(&mut env, "(do (def q 1) (assert false)) q");
    assert_eq!(results, vec![Err(Fault::AssertionFailed), Err(Fault::UnboundIdentifier)]);
}

#[test]
fn toplevel_read_fault_ends_line() {
    let mut env = Environment::new();
    let results = parse_toplevel(&mut env, "1 (+ 2 3");
    assert_eq!(results, vec![Ok(Value::Int(1)), Err(Fault::ParseFault)]);
    assert_eq!(parse_toplevel(&mut env, ""), vec![]);
}

#[test]
fn environment_bindings() {
    let mut env = Environment::empty();
    assert_eq!(env.lookup(&"+".to_string()), None);
    add_default_funcs(&mut env);
    assert_eq!(
        env.lookup(&"+".to_string()),
        Some(Value::Builtin(NativeFn { op: NativeOp::Add }))
    );
    assert_eq!(
        env.lookup(&"eq?".to_string()),
        Some(Value::Builtin(NativeFn { op: NativeOp::Eq }))
    );
    env.define("a".to_string(), Value::Int(123));
    env.define("a".to_string(), Value::Int(456));
    assert_eq!(env.lookup(&"a".to_string()), Some(Value::Int(456)));
    let copy = env.snapshot();
    env.define("a".to_string(), Value::Int(1));
    assert_eq!(copy.lookup(&"a".to_string()), Some(Value::Int(456)));
    let d = Environment::default();
    assert_eq!(d.lookup(&"/".to_string()), Some(Value::Builtin(NativeFn { op: NativeOp::Div })));
}

#[test]
fn string_and_boolean_literals() {
    assert_eq!(run("\"hi there\""), Ok(Value::Str("hi there".to_string())));
    assert_eq!(run("true"), Ok(Value::Bool(true)));
    assert_eq!(run("false"), Ok(Value::Bool(false)));
    assert_eq!(run("-"), Ok(Value::Builtin(NativeFn { op: NativeOp::Sub })));
}

#[test]
fn deeply_nested_sum_evaluates() {
    let n = 200;
    let src = format!("{}1{}", "(+ 1 ".repeat(n), ")".repeat(n));
    assert_eq!(run(&src), Ok(Value::Int(201)));
}
