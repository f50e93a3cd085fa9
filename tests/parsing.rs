use asgard::parser::MAX_NESTING;
use asgard::{Fault, Parser, Value};

#[test]
fn parser_basic_form() {
    let s = "(+ 1 2)";

    let expected = Value::List(vec![
        Value::Ident(String::from("+")),
        Value::Int(1),
        Value::Int(2),
    ]);

    let mut actual = Parser::new(s);
    assert_eq!(Some(Ok(expected)), actual.next_form());
}

#[test]
fn nested_lists_and_atoms() {
    let mut p = Parser::new("(a (b \"s\") true false def) 7");
    assert_eq!(
        p.next_form(),
        Some(Ok(Value::List(vec![
            Value::Ident("a".to_string()),
            Value::List(vec![Value::Ident("b".to_string()), Value::Str("s".to_string())]),
            Value::Bool(true),
            Value::Bool(false),
            Value::Ident("def".to_string()),
        ])))
    );
    assert_eq!(p.next_form(), Some(Ok(Value::Int(7))));
    assert_eq!(p.next_form(), None);
}

#[test]
fn empty_list_parses() {
    let mut p = Parser::new("()");
    assert_eq!(p.next_form(), Some(Ok(Value::List(vec![]))));
}

#[test]
fn missing_close_paren_faults() {
    let mut p = Parser::new("(+ 1 (2 3)");
    assert_eq!(p.next_form(), Some(Err(Fault::ParseFault)));
    assert!(p.is_stopped());
    assert_eq!(p.next_form(), None);
}

#[test]
fn function_literal_faults() {
    let mut p = Parser::new("(fn (x) x)");
    assert_eq!(p.next_form(), Some(Err(Fault::ParseFault)));
    let mut q = Parser::new("(a fn)");
    assert_eq!(q.next_form(), Some(Err(Fault::ParseFault)));
}

#[test]
fn stray_close_paren_faults() {
    let mut p = Parser::new(") 1");
    assert_eq!(p.next_form(), Some(Err(Fault::ParseFault)));
    assert_eq!(p.next_form(), None);
}

#[test]
fn bad_literal_inside_form_faults() {
    let mut p = Parser::new("(+ 1 2) (+ 3x 4)");
    assert_eq!(
        p.next_form(),
        Some(Ok(Value::List(vec![Value::Ident("+".to_string()), Value::Int(1), Value::Int(2)])))
    );
    assert_eq!(p.next_form(), Some(Err(Fault::TokenizeFault)));
    assert_eq!(p.next_form(), None);
}

#[test]
fn deep_nesting_faults() {
    let deep = format!("{}{}", "(".repeat(100_000), ")".repeat(100_000));
    let mut p = Parser::new(&deep);
    assert_eq!(p.next_form(), Some(Err(Fault::NestingTooDeep)));
    assert_eq!(p.next_form(), None);
}

#[test]
fn nesting_up_to_the_bound_parses() {
    let ok = format!("{}{}", "(".repeat(MAX_NESTING), ")".repeat(MAX_NESTING));
    let mut p = Parser::new(&ok);
    assert!(matches!(p.next_form(), Some(Ok(Value::List(_)))));
    let over = format!("{}{}", "(".repeat(MAX_NESTING + 1), ")".repeat(MAX_NESTING + 1));
    let mut q = Parser::new(&over);
    assert_eq!(q.next_form(), Some(Err(Fault::NestingTooDeep)));
}
