//! A small evaluator for a parenthesised, prefix-notation expression language:
//! a tokenizer, a recursive-descent parser and a tree-walking evaluator over a
//! caller-owned global environment.
pub mod fault;
pub mod lexer;

pub use fault::Fault;
pub use lexer::{Lexeme, Lexer};
pub mod value;

pub use value::{NativeFn, NativeOp, Value};
pub mod env;

pub use env::{add_default_funcs, Environment};
pub mod builtins;

pub use builtins::{
    func_builtin_add, func_builtin_div, func_builtin_eq, func_builtin_mul, func_builtin_sub,
};
pub mod parser;

pub use parser::Parser;
pub mod eval;

pub use eval::{eval, eval_value, parse_toplevel};
