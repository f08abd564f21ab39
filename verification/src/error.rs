//! The errors of the table.

use vstd::prelude::*;

verus! {

/// Why an operation of the table could not be carried out.
#[derive(Debug, Clone, Copy, PartialEq, Eq, Structural)]
pub enum MapError {
    /// No entry of the table has the key that was to be removed.
    KeyNotFound,
    /// A table was asked for with no slots.
    InvalidConfiguration,
}

} // verus!
