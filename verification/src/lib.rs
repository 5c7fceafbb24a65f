//! Guest-side memory-exchange protocol for a sandboxed module that hands
//! variable-length byte buffers to an external host across a raw boundary.
//!
//! The host only ever sees a bare address (or a single packed scalar), so every
//! buffer handed out is tagged with an 8-byte capacity header that lets the
//! guest later reconstruct and release the exact original region.

pub mod key;
pub mod memory;
