//! The logging sink the tree reports node lifetimes to.

use vstd::prelude::*;

verus! {

/// A sink notified when a node record is created or destroyed.
///
/// The identifier handed to both methods is the stable arena index of the
/// node record; it is never reused within one tree. Implementations must not
/// panic.
pub trait Log {
    /// Called once when a node record is allocated.
    fn log_new(id: usize);

    /// Called once when a node record is destroyed.
    fn log_drop(id: usize);
}

/// A logger that doesn't actually log anything.
pub struct NoopLogger;

impl Log for NoopLogger {
    fn log_new(_id: usize) {
    }

    fn log_drop(_id: usize) {
    }
}

} // verus!
