//! The ways a configuration can be refused.

use vstd::prelude::*;

verus! {

/// Why a configuration or a batch was refused. Each of these is a mistake
/// of the caller, found before any work is done.
#[derive(Clone, Copy, Debug, PartialEq, Eq, Structural)]
pub enum ConfigError {
    /// The field order is below two.
    FieldOrder,
    /// The state width has no linear layer.
    UnsupportedWidth,
    /// The linear layer was built for another width than the state has.
    WidthMismatch,
    /// The S-box degree is not one of 3, 5, 7 and 11.
    UnsupportedDegree,
    /// The register count is not the one the S-box degree calls for.
    RegisterCount,
    /// A row would have more cells than can be counted.
    TooLarge,
    /// A table of constants has the wrong number of entries.
    ConstantsShape,
    /// A constant or an input is not a canonical field element.
    NotCanonical,
    /// An input has the wrong number of cells.
    InputShape,
    /// The number of inputs is not a power of two.
    BatchSize,
}

} // verus!
