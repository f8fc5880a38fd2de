//! Fixed-capacity circular (ring) buffers: a bounded FIFO over one contiguous
//! allocation, with a head index for the next write and a tail index for the
//! next read. Capacities are powers of two of at least 2, so the indices wrap
//! with a bitmask instead of a modulo; one slot is always left unused to tell
//! a full buffer from an empty one.
//!
//! Two element-handling disciplines are provided:
//! - [`copying::CircBuf`] copies elements in and out, for types that can be
//!   duplicated freely;
//! - [`moving::CircBuf`] transfers ownership through `Option` holders, for
//!   types that must not be duplicated.

pub mod capacity;
pub mod copying;
pub mod moving;
