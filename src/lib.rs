//! Container demux/mux engine core: EBML codec, byte ropes, pooled memory,
//! a partial-consumption reader, H.264 NAL reframing and the Matroska
//! demuxer and muxer state machines.
use vstd::prelude::*;

pub mod buffer;
pub mod demux;
pub mod ebml;
pub mod media;
pub mod memory;
pub mod mkv;
pub mod mux;
pub mod nal;
pub mod pipeline;
pub mod span;

verus! {

} // verus!
