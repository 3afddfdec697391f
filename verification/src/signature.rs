//! What a function takes and how far its results depend on more.
use vstd::prelude::*;

verus! {

/// How far the results of a function depend on more than its arguments.
#[derive(Clone, Copy, Debug, PartialEq, Eq, Hash, Structural)]
pub enum Volatility {
    /// Equal arguments give equal results.
    Immutable,
    /// Equal arguments give equal results within one query.
    Stable,
    /// Results may differ from call to call.
    Volatile,
}

/// The arguments that a function takes.
#[derive(Clone, Copy, Debug, PartialEq, Eq, Hash, Structural)]
pub enum TypeSignature {
    /// The function coerces its arguments itself.
    UserDefined,
    /// This many arguments of any type.
    Any(usize),
}

/// The arguments that a function takes and how far its results depend on more.
#[derive(Clone, Copy, Debug, PartialEq, Eq, Hash, Structural)]
pub struct Signature {
    pub type_signature: TypeSignature,
    pub volatility: Volatility,
}

} // verus!
