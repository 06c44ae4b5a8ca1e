//! User-space streaming over QDMA character devices.
//!
//! The host-to-card (H2C) path batches user writes into a page-aligned
//! accumulation buffer and drains it to the device as one aligned bulk write
//! plus an optional unaligned remainder.  The card-to-host (C2H) path decodes
//! the framed QAXIS beat protocol with a one-beat look-behind, so that
//! end-of-frame markers can be attributed to the beat they describe.
//!
//! Device handles, the external queue administration tool and the clock are
//! reached through narrow interfaces (`device::ByteSink`, `device::ByteSource`,
//! argument vectors, millisecond timestamps), which keeps every rule of the
//! protocol itself in verified code.

use vstd::prelude::*;

pub mod c2h;
pub mod c2h_async;
pub mod ctl;
pub mod device;
pub mod errors;
pub mod h2c;

pub use c2h::CardToHostStream;
pub use errors::StreamError;
pub use h2c::HostToCardStream;

verus! {

/// Size in bytes of one DMA beat on the stream.
pub const PACKET_SIZE: usize = 4096;

/// Required base alignment and size granularity of DMA buffers.
pub const ALIGN: usize = 4096;

/// Size in bytes of a QAXIS control word.
pub const CTRL_SIZE: usize = 4;

} // verus!
