//! The one error type shared by every stage of the interpreter.

use vstd::prelude::*;

verus! {

/// Why a stage of the interpreter refused its input.
#[derive(Debug, Clone, Copy, PartialEq, Eq, Structural)]
pub enum Error {
    /// A character lies outside the alphabet it was looked up in.
    Alphabet,
    /// A token with an unrecognised indicator reached the parser.
    Tokenize,
    /// The token stream ended in the middle of a production.
    Parse,
    /// An operator met operands outside its domain.
    Type,
    /// Division or remainder by zero.
    Division,
    /// A number lies outside the range in which it can be represented: a
    /// numeral too large for a machine word, or a negative number, which has
    /// no numeral.
    Range,
    /// The reduction budget ran out before a value was reached.
    Exhausted,
}

} // verus!
