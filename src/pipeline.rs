//! The decisions of the pipeline around the demuxer and the muxer: what to do on
//! each signal they give. The caller performs the actions (reads, seeks, writes).
use crate::buffer::SeekFrom;
use crate::demux::DemuxerError;
use crate::mkv::MkvError;
use crate::mux::MuxerError;
use crate::span::Span;
use vstd::prelude::*;

verus! {

/// The most bytes one request for more input asks the buffer to make room for.
pub const MAX_FILL_REQUEST: usize = 0x4000_0000;

/// What the demux loop does next on a demuxer signal.
#[derive(Clone, Copy, Debug, PartialEq, Eq, Structural)]
pub enum DemuxAction {
    /// Make room for this many more bytes, then read once.
    Fill(usize),
    /// Seek the source, then call again.
    Seek(SeekFrom),
    /// The stream ended normally: no more packets.
    Finish,
    /// Stop with this error.
    Fail(MkvError),
}

/// The demux loop's table: more bytes are asked for (capped), seeks are followed,
/// the end of the stream finishes packet reading but fails header reading, and
/// other errors fail.
pub open spec fn spec_demux_action(e: DemuxerError, reading_packets: bool) -> DemuxAction {
    match e {
        DemuxerError::NeedMore(n) => DemuxAction::Fill(
            if n <= MAX_FILL_REQUEST {
                n
            } else {
                MAX_FILL_REQUEST
            },
        ),
        DemuxerError::Seek(p) => DemuxAction::Seek(p),
        DemuxerError::EndOfStream => if reading_packets {
            DemuxAction::Finish
        } else {
            DemuxAction::Fail(MkvError::UnexpectedEnd)
        },
        DemuxerError::Misc(m) => DemuxAction::Fail(m),
    }
}

/// What to do on a demuxer signal.
pub fn demux_action(e: DemuxerError, reading_packets: bool) -> (a: DemuxAction)
    ensures
        a == spec_demux_action(e, reading_packets),
{
    match e {
        DemuxerError::NeedMore(n) => DemuxAction::Fill(
            if n <= MAX_FILL_REQUEST {
                n
            } else {
                MAX_FILL_REQUEST
            },
        ),
        DemuxerError::Seek(p) => DemuxAction::Seek(p),
        DemuxerError::EndOfStream => if reading_packets {
            DemuxAction::Finish
        } else {
            DemuxAction::Fail(MkvError::UnexpectedEnd)
        },
        DemuxerError::Misc(m) => DemuxAction::Fail(m),
    }
}

/// What a fill means: go on after a read that delivered bytes; at the end of the
/// input, no more packets while reading packets, an error while reading headers.
pub fn after_fill(eof: bool, reading_packets: bool) -> (r: Result<bool, MkvError>)
    ensures
        r == (if !eof {
            Ok::<bool, MkvError>(true)
        } else if reading_packets {
            Ok::<bool, MkvError>(false)
        } else {
            Err::<bool, MkvError>(MkvError::UnexpectedEnd)
        }),
{
    if !eof {
        Ok(true)
    } else if reading_packets {
        Ok(false)
    } else {
        Err(MkvError::UnexpectedEnd)
    }
}

/// What the mux loop does next after a muxer step.
#[derive(Clone, Copy, Debug, PartialEq, Eq, Structural)]
pub enum MuxAction {
    /// Bind the span to the scratch memory and write it out.
    Emit,
    /// Run the step again with scratch memory of this size.
    Retry(usize),
    /// Seek the output, then run the step again.
    Seek(SeekFrom),
    /// Stop with the muxer's error.
    Fail,
}

/// The mux loop's table: output is emitted, a shortfall retries with scratch
/// memory grown by it (saturating), seeks are followed, other errors fail.
pub open spec fn spec_mux_next(r: Result<Span, MuxerError>, size: usize) -> MuxAction {
    match r {
        Ok(_) => MuxAction::Emit,
        Err(MuxerError::NeedMore(more)) => MuxAction::Retry(
            if size + more <= usize::MAX {
                (size + more) as usize
            } else {
                usize::MAX
            },
        ),
        Err(MuxerError::Seek(p)) => MuxAction::Seek(p),
        Err(_) => MuxAction::Fail,
    }
}

/// What to do after a muxer step that ran with scratch memory of `size` bytes.
pub fn mux_next(r: &Result<Span, MuxerError>, size: usize) -> (a: MuxAction)
    ensures
        a == spec_mux_next(*r, size),
{
    match r {
        Ok(_) => MuxAction::Emit,
        Err(MuxerError::NeedMore(more)) => MuxAction::Retry(
            if *more <= usize::MAX - size {
                size + *more
            } else {
                usize::MAX
            },
        ),
        Err(MuxerError::Seek(p)) => MuxAction::Seek(*p),
        Err(_) => MuxAction::Fail,
    }
}

} // verus!
