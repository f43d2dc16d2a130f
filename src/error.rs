// The errors of the library.

use vstd::prelude::*;

verus! {

/// Every way in which evaluating an expression or building an exercise can fail.
#[derive(Debug, Clone, Copy, PartialEq, Eq, Structural)]
pub enum Error {
    /// Two operands, or a value and a declared unit, carry different units.
    UnitMismatch,
    /// A variable is read that no dictionary binds.
    UnboundReference,
    /// A variable is defined, directly or indirectly, in terms of itself.
    CyclicReference,
    /// A name is bound again to a value that differs from the one it has.
    BindingConflict,
    /// An expression does not leave exactly one value on the stack, or an
    /// operator finds fewer operands than it takes.
    StackImbalance,
    /// An operator that takes a name (`!`, `@`, `:`) got something else.
    NotAName,
    /// Macro bodies expand into each other without end.
    MacroCycle,
    /// No file of the given name is found.
    NotFound,
    /// The input file does not have the extension `yaml`.
    NotYaml,
    /// A document does not have the shape of an exercise.
    Malformed,
    /// A division by a value equal to zero.
    DivisionByZero,
    /// The square root of a negative value.
    NegativeRoot,
    /// A value whose numerator or denominator does not fit in 63 bits.
    Overflow,
}

} // verus!
