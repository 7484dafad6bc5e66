//! Decisions of the compressor's main loop: what to do with a frame, what to report of it, and
//! the totals.
use vstd::prelude::*;

use crate::ingest::Frame;
use crate::lpc::DEFAULT_ORDER;

verus! {

/// What becomes of a frame.
#[derive(Debug, Clone, Copy, PartialEq, Eq, Structural)]
pub enum FrameStep {
    /// Float samples: the predictor takes 16-bit samples only.
    FloatUnsupported,
    /// No more samples than the prediction order.
    TooShort,
    /// To be analyzed and coded.
    Analyze,
}

/// What becomes of `frame` at the default prediction order.
pub fn frame_step(frame: &Frame) -> (r: FrameStep)
    ensures
        r == match *frame {
            Frame::F32(_) => FrameStep::FloatUnsupported,
            Frame::I16(s) => if s@.len() <= DEFAULT_ORDER {
                FrameStep::TooShort
            } else {
                FrameStep::Analyze
            },
        },
{
    match frame {
        Frame::F32(_) => FrameStep::FloatUnsupported,
        Frame::I16(s) => if s.len() <= DEFAULT_ORDER {
            FrameStep::TooShort
        } else {
            FrameStep::Analyze
        },
    }
}

/// What is printed of a frame.
#[derive(Debug, Clone, Copy, PartialEq, Eq, Structural)]
pub enum FrameReport {
    /// A line of its own.
    Line,
    /// An ellipsis, for the frames in between.
    Ellipsis,
    /// Nothing.
    Nothing,
}

/// The first three frames and the last one get a line. The fourth, if it was coded, stands
/// for those in between.
pub fn frame_report(index: usize, frame_count: usize, coded: bool) -> (r: FrameReport)
    ensures
        r == if index < 3 || index == frame_count - 1 {
            FrameReport::Line
        } else if coded && index == 3 {
            FrameReport::Ellipsis
        } else {
            FrameReport::Nothing
        },
{
    if index < 3 || (frame_count > 0 && index == frame_count - 1) {
        FrameReport::Line
    } else if coded && index == 3 {
        FrameReport::Ellipsis
    } else {
        FrameReport::Nothing
    }
}

/// Totals over all coded frames.
#[derive(Debug, Clone, Copy, PartialEq, Eq, Structural)]
pub struct Totals {
    pub analyzed: usize,
    pub uncompressed_bits: usize,
    pub compressed_bits: usize,
}

impl Totals {
    /// Nothing coded yet.
    pub fn new() -> (t: Self)
        ensures
            t == (Totals { analyzed: 0, uncompressed_bits: 0, compressed_bits: 0 }),
    {
        Totals { analyzed: 0, uncompressed_bits: 0, compressed_bits: 0 }
    }

    /// Counts a frame of `samples` 16-bit samples that was coded in `bits` bits.
    pub fn record(&mut self, samples: usize, bits: usize)
        requires
            old(self).analyzed < usize::MAX,
            old(self).uncompressed_bits + 16 * samples <= usize::MAX,
            old(self).compressed_bits + bits <= usize::MAX,
        ensures
            *final(self) == (Totals {
                analyzed: (old(self).analyzed + 1) as usize,
                uncompressed_bits: (old(self).uncompressed_bits + 16 * samples) as usize,
                compressed_bits: (old(self).compressed_bits + bits) as usize,
            }),
    {
        self.analyzed = self.analyzed + 1;
        self.uncompressed_bits = self.uncompressed_bits + samples * 16;
        self.compressed_bits = self.compressed_bits + bits;
    }
}

} // verus!
