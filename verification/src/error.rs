//! The ways in which an operation of this crate can fail.

use vstd::prelude::*;

verus! {

/// Why an operation was refused.
#[derive(Clone, Copy, Debug, PartialEq, Eq, Structural)]
pub enum Error {
    /// An index does not name a bit, a shape or a node of the structure it was used on.
    IndexOutOfRange,
    /// A scene that is to be played from packed states holds a group of shapes; or an
    /// animation, or the trigger of a set of animations, is a group or a shape that the
    /// scene never declared.
    UnsupportedTarget,
    /// The timeline holds something that the graph compiler has no meaning for: a click
    /// boundary inside the global context, or a slide-out that stops half way.
    UnsupportedAnimation,
    /// A click landed off every shape after the global context had played its last batch.
    ExhaustedGlobalContext,
    /// The set mask and the unset mask of an action overlap.
    MalformedAction,
    /// A node of the graph has no parent with a smaller id than its own.
    GraphCycle,
    /// The structure would outgrow what its ids or the machine can address.
    CapacityExceeded,
}

} // verus!
