//! A fixed-capacity, priority-ordered queue of bus frames awaiting transmission.
//!
//! Frames are ordered by their arbitration identifier (standard identifiers
//! before extended ones, lower values first) and, among equal identifiers, by
//! insertion order. When the queue is full, a higher-priority frame evicts the
//! lowest-priority occupant together with every other frame of its group.
use vstd::prelude::*;

pub mod id;
pub mod frame;
pub mod entry;
pub mod heap;
mod slots;
pub mod laws;

pub use id::FrameId;
pub use frame::{Frame, FrameRef};

verus! {

/// A payload whose length does not fit.
#[derive(Debug, Clone, Copy, PartialEq, Eq, Structural)]
pub enum Error {
    WrongLength,
}

/// Every bit that an extended (29-bit) identifier may have set.
pub const EXTENDED_ID_ALL_BITS: u32 = 0x1FFFFFFF;

/// Every bit that a standard (11-bit) identifier may have set.
pub const STANDARD_ID_ALL_BITS: u16 = 0x7FF;

} // verus!
