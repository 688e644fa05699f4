use vstd::prelude::*;

verus! {

/// Every fatal condition the pipeline can report. A failure aborts the whole
/// run: there is no recovery and no partial result.
#[derive(Clone, Copy, Debug, PartialEq, Eq, Structural)]
pub enum Error {
    /// An expression was required but the token sequence was empty.
    NoTokens,
    /// A parenthesized application was opened but cannot be closed with the
    /// tokens that remain.
    TooFewTokens,
    /// A token that cannot start or continue the expected construct, such as a
    /// closing parenthesis where an expression is required, or a non-symbol
    /// where a function name is required.
    UnexpectedToken,
    /// A symbol with no binding in the environment.
    UnresolvedSymbol,
    /// A `define` with fewer than two arguments, or whose first argument is
    /// not a symbol.
    MalformedDefine,
    /// An application naming an operator outside the five known ones.
    UnknownFunction,
    /// A division with zero arguments, or by a zero divisor mid-fold.
    ArithmeticFault,
    /// Symbol resolution chained through more bindings than the evaluator's
    /// depth budget allows.
    RecursionLimit,
}

} // verus!
