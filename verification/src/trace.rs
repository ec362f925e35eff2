//! One captured call stack: a fixed buffer of instruction pointers, filled by
//! the platform's unwinder, of which the capture's own frames are cut away.
use vstd::prelude::*;
use vstd::slice::slice_subrange;

verus! {

/// How many frames a capture holds at most.
pub const MAX_SIZE: usize = 64;

/// Frames to cut from the end of a capture taken by an unoptimised agent.
pub const BACKTRACE_TAIL_DEBUG: usize = 4;

/// Frames to cut from the end of a capture taken by an optimised agent.
pub const BACKTRACE_TAIL_RELEASE: usize = 1;

/// Where the kept frames end in a capture of `captured` frames with `tail`
/// frames cut from its end: never before index 1, never beyond the buffer.
pub open spec fn kept_end(captured: int, tail: int) -> int {
    let filled = if captured > MAX_SIZE as int {
        MAX_SIZE as int
    } else {
        captured
    };
    if filled - tail >= 1 {
        filled - tail
    } else {
        1
    }
}

/// The frames that are kept of a capture: the first, which is the capture's
/// own, and the last `tail` are dropped.
pub open spec fn kept_frames(buffer: Seq<usize>, captured: int, tail: int) -> Seq<usize> {
    buffer.subrange(1, kept_end(captured, tail))
}

pub struct Trace {
    stack: [usize; MAX_SIZE],
    len: usize,
}

impl Trace {
    #[verifier::type_invariant]
    spec fn inv(self) -> bool {
        1 <= self.len <= MAX_SIZE
    }

    /// The kept frames in the order of capture, innermost call first.
    pub closed spec fn frames(&self) -> Seq<usize> {
        self.stack@.subrange(1, self.len as int)
    }

    /// The kept frames from the outermost caller to the innermost callee.
    pub open spec fn stack(&self) -> Seq<usize> {
        self.frames().reverse()
    }

    /// Takes over a capture: `buffer` as the unwinder filled it, `captured`
    /// the number of frames it reported, `tail` the number to cut at the end.
    pub fn new(buffer: [usize; MAX_SIZE], captured: usize, tail: usize) -> (trace: Self)
        ensures
            trace.frames() == kept_frames(buffer@, captured as int, tail as int),
    {
        let filled = if captured > MAX_SIZE {
            MAX_SIZE
        } else {
            captured
        };
        let len = if filled > tail {
            filled - tail
        } else {
            1
        };
        Trace { stack: buffer, len }
    }

    pub fn as_slice(&self) -> (frames: &[usize])
        ensures
            frames@ == self.frames(),
    {
        proof {
            use_type_invariant(self);
        }
        slice_subrange(self.stack.as_slice(), 1, self.len)
    }
}

} // verus!
