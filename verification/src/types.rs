//! The planner's data model: pins, candidate lines, runs and their results.
use vstd::prelude::*;

verus! {

/// A pin: an index into a window's ordered point list.
#[derive(Clone, Copy, Debug, PartialEq, Eq, Structural)]
pub struct PolygonPoint(pub usize);

/// A channel's class descriptor: `of` classes in all, this channel holding
/// class `idx`.  Candidate lines whose pin-index sum falls in another class
/// are discouraged, never forbidden.
pub struct LineClass {
    pub of: usize,
    pub idx: usize,
}

/// The candidate graph of one window: for every origin pin, a contiguous
/// range of legal target pins with their physical length weights.  Weights
/// are pixel distances at a scale of 256 per pixel.
pub struct Lines {
    pub idx_vec: Vec<PolygonPoint>,
    /// Weights of the lines in `idx_vec` (a coverage metric).
    pub weight_vec: Vec<u64>,
    pub ranges: Vec<(usize, usize)>,
    pub iter_limit: u32,
}

/// Why a run stopped.
#[derive(Clone, Copy, Debug, PartialEq, Eq, Structural)]
pub enum BreakReason {
    EndOfIteration,
    Covered,
    LocalOptimum,
}

/// The result of one run: the visited pins in order, the total length used
/// (at the weight scale of 256 per pixel), and why the run stopped.
#[derive(Clone)]
pub struct Sequence {
    pub break_reason: BreakReason,
    pub sequence: Vec<PolygonPoint>,
    pub yarn_length: u64,
}

/// The runs of up to four channels over one window.
#[derive(Clone)]
pub struct RgbSequence {
    pub r: Sequence,
    pub g: Sequence,
    pub b: Sequence,
    pub black: Sequence,
}

/// A window: its pin positions in a normalized space where 2^16 stands for
/// one unit, its iteration cap, and a display name per pin.
#[derive(Debug)]
pub struct Polygon {
    pub points: Vec<(i64, i64)>,
    pub iter_limit: u32,
    pub names: Vec<String>,
}

impl Default for BreakReason {
    /// A run that never stops early ends with the iteration cap.
    fn default() -> (r: BreakReason)
        ensures
            r == BreakReason::EndOfIteration,
    {
        BreakReason::EndOfIteration
    }
}

impl Default for Sequence {
    /// An empty run: no pins visited, nothing spent.
    fn default() -> (r: Sequence)
        ensures
            r.break_reason == BreakReason::EndOfIteration,
            r.sequence@.len() == 0,
            r.yarn_length == 0,
    {
        Sequence { break_reason: BreakReason::EndOfIteration, sequence: Vec::new(), yarn_length: 0 }
    }
}

impl Default for RgbSequence {
    /// Four empty runs.
    fn default() -> (r: RgbSequence)
        ensures
            r.r.sequence@.len() == 0,
            r.g.sequence@.len() == 0,
            r.b.sequence@.len() == 0,
            r.black.sequence@.len() == 0,
    {
        RgbSequence {
            r: Sequence::default(),
            g: Sequence::default(),
            b: Sequence::default(),
            black: Sequence::default(),
        }
    }
}

impl RgbSequence {
    /// The run of the color channel `idx`: red, green or blue.
    pub fn channel(&mut self, idx: usize) -> (s: &mut Sequence)
        requires
            idx < 3,
        ensures
            idx == 0 ==> *s == old(self).r && *final(self) == (RgbSequence {
                r: *final(s),
                ..*old(self)
            }),
            idx == 1 ==> *s == old(self).g && *final(self) == (RgbSequence {
                g: *final(s),
                ..*old(self)
            }),
            idx == 2 ==> *s == old(self).b && *final(self) == (RgbSequence {
                b: *final(s),
                ..*old(self)
            }),
    {
        match idx {
            0 => &mut self.r,
            1 => &mut self.g,
            _ => &mut self.b,
        }
    }
}

} // verus!
