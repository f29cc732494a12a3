//! The command surface the tool supports.
//!
//! These types carry the parsed choices only; reading the command line is the
//! caller's business.

use vstd::prelude::*;

use crate::print::PrintOneLine;

verus! {

/// The parsed command line.
#[derive(Debug, Clone)]
pub struct CliArgs {
    /// The chosen subcommand.
    pub command: Command,
}

/// The subcommands.
#[derive(Debug, Clone)]
pub enum Command {
    /// List orphan packages.
    Orphans(Orphans),
    /// List the packages that transitively depend on one package.
    Dependents(Dependents),
}

/// Options for listing orphan packages.
#[derive(Debug, Copy, Clone, PartialEq, Eq, Structural)]
pub struct Orphans {
    /// Show less information.
    pub quiet: bool,
    /// Ignore optional dependencies.
    pub ignore_optdepends: bool,
}

/// Options for listing the dependents of a package.
#[derive(Debug, Clone)]
pub struct Dependents {
    /// The name of the package to start from.
    pub package: String,
    /// Show less information.
    pub quiet: bool,
    /// Ignore optional dependencies.
    pub ignore_optdepends: bool,
    /// Print the result as a graph document instead of one line per package.
    pub dot: bool,
}

impl Orphans {
    /// The one-line style the options ask for.
    pub fn oneline_style(&self) -> (r: PrintOneLine)
        ensures
            r == if self.quiet {
                PrintOneLine::NameOnly
            } else {
                PrintOneLine::WithVersion
            },
    {
        if self.quiet {
            PrintOneLine::NameOnly
        } else {
            PrintOneLine::WithVersion
        }
    }
}

impl Dependents {
    /// The one-line style the options ask for.
    pub fn oneline_style(&self) -> (r: PrintOneLine)
        ensures
            r == if self.quiet {
                PrintOneLine::NameOnly
            } else {
                PrintOneLine::WithVersion
            },
    {
        if self.quiet {
            PrintOneLine::NameOnly
        } else {
            PrintOneLine::WithVersion
        }
    }
}

} // verus!
