use vstd::prelude::*;

verus! {

/// The ways in which decoding can fail.
#[derive(Debug, Clone, Copy, PartialEq, Eq, Structural)]
pub enum JsonParseError {
    /// A character or token does not fit the grammar where it stands.
    InvalidValue,
    /// The input ended while a value, a key or a closing token was still due.
    ExpectedValue,
    /// Several tokens stand at the top level and they do not open a container.
    RootNotSingular,
}

} // verus!
