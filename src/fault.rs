use vstd::prelude::*;

verus! {

/// Every way in which reading or evaluating a form can fail. A fault ends the
/// form that raised it and is handed back to the caller as a value.
#[derive(Clone, Copy, Debug, PartialEq, Eq, Structural)]
pub enum Fault {
    /// A word that starts with a digit is not a decimal `i64`.
    TokenizeFault,
    /// Unbalanced parentheses, or the unimplemented `(fn ...)` form.
    ParseFault,
    /// A name with no binding in the environment.
    UnboundIdentifier,
    /// The head of a call does not evaluate to a native function.
    NotApplicable,
    /// A value of the wrong kind was handed to a builtin or a special form.
    TypeMismatch,
    /// A builtin or special form was given the wrong number of operands.
    ArityFault,
    /// Division by zero.
    DivideByZero,
    /// An integer result does not fit in an `i64`.
    Overflow,
    /// The condition of an `assert` form was not `true`.
    AssertionFailed,
    /// An `if` form lacks the branch that its condition selected.
    MissingBranch,
    /// Two native functions were compared for equality.
    Incomparable,
    /// Lists nest deeper than the parser accepts.
    NestingTooDeep,
}

} // verus!
