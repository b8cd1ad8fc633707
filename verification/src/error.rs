use vstd::prelude::*;

verus! {

/// The ways in which a field operation can be refused.
#[derive(Clone, Copy, Debug, PartialEq, Eq, Structural)]
pub enum FieldError {
    /// Division by the zero element.
    DivisionByZero,
    /// No candidate generated the whole multiplicative group, so the
    /// modulus does not define a field.
    PrimitiveSearchExhausted,
    /// A coefficient vector of the wrong length.
    InvalidConstruction,
    /// The discrete logarithm of the zero element was asked for.
    PrimitivePowerOfZero,
}

} // verus!
