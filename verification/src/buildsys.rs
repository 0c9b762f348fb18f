//! The build systems the expander can fall back to for the single-letter
//! build/run/test/watch buffers. Detecting which one a directory uses is
//! file-system work and lives outside the library; the expansion chosen for
//! each system is library logic.

use vstd::prelude::*;

verus! {

/// A build system recognized around the working directory.
#[derive(Clone, Copy, Debug, PartialEq, Eq, Structural)]
pub enum System {
    Cabal,
    Cargo,
    Make,
}

} // verus!
