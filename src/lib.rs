//! Fixed-size, forward-error-corrected framing of UDP datagrams.
//!
//! Datagrams are coalesced into frames of `FRAME_LEN` bytes. Each frame
//! carries a sequence number, length-prefixed packets and a CRC-32, and is
//! protected block by block with Reed-Solomon parity.
use vstd::prelude::*;

pub mod bytes;
pub mod fec;
pub mod wire;
pub mod encoder;
pub mod decoder;
pub mod laws;
pub mod relay;
pub mod image;

verus! {

/// Length of every frame on the byte channel.
pub const FRAME_LEN: usize = 10240;

} // verus!
