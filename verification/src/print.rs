//! How query results are rendered, as far as the graph engine decides it.

use vstd::prelude::*;

verus! {

/// How to print a package on one line.
#[derive(Debug, Copy, Clone, PartialEq, Eq, Structural)]
pub enum PrintOneLine {
    /// Only print the name.
    NameOnly,
    /// Print name and version.
    WithVersion,
}

} // verus!
