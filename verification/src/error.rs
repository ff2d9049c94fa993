//! Errors reported while constructing a world.
//!
//! These are the only error values in the library: once a world is built,
//! infeasibility during scheduling is an expected outcome (`None`), not an
//! error.

use vstd::prelude::*;

verus! {

/// A defect in the world description that makes construction fail.
#[derive(Debug, Clone, Copy, PartialEq, Eq, Structural)]
pub enum WorldError {
    /// Two sites carry the same name.
    DuplicateSiteName,
    /// A ride refers to a site name that does not exist.
    UnknownSiteName,
    /// A duty window whose end does not lie strictly after its start.
    EmptyTimeWindow,
}

} // verus!
