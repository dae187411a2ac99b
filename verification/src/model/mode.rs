use vstd::prelude::*;

verus! {

/// The status of an attempt to convert a map to another mode.
#[derive(Copy, Clone, Debug, PartialEq, Eq, Structural)]
pub enum ConvertStatus {
    /// Conversion was not necessary.
    Noop,
    /// Conversion was successful.
    Done,
    /// Conversion was not possible.
    Incompatible,
}

} // verus!
