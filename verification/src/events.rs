//! What the reader thread tells the viewer.

use vstd::prelude::*;

verus! {

/// A new frame has been published.
pub struct NewFrame;

/// The reader met a USB error and has ended.
pub struct Disconnected {
    pub msg: String,
}

} // verus!
