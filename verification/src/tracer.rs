//! A call stack gathered frame by frame, as an unwinder that calls back once
//! per frame delivers it.
use vstd::prelude::*;
use vstd::slice::slice_subrange;

verus! {

/// How many frames a tracer holds at most; what comes later is dropped.
pub const MAX_SIZE: usize = 64;

pub struct Tracer {
    stack: [u64; MAX_SIZE],
    len: usize,
}

/// `frames` with `ip` behind it, unless `frames` is full.
pub open spec fn pushed(frames: Seq<u64>, ip: u64) -> Seq<u64> {
    if frames.len() >= MAX_SIZE {
        frames
    } else {
        frames.push(ip)
    }
}

impl Tracer {
    #[verifier::type_invariant]
    spec fn inv(self) -> bool {
        self.len <= MAX_SIZE
    }

    /// The frames gathered so far, in the order of arrival.
    pub closed spec fn frames(&self) -> Seq<u64> {
        self.stack@.subrange(0, self.len as int)
    }

    pub fn new() -> (tracer: Self)
        ensures
            tracer.frames() == Seq::<u64>::empty(),
    {
        Tracer { stack: [0; MAX_SIZE], len: 0 }
    }

    pub fn push(&mut self, ip: u64)
        ensures
            final(self).frames() == pushed(old(self).frames(), ip),
    {
        proof {
            use_type_invariant(&*self);
        }
        if self.len >= MAX_SIZE {
            return ;
        }
        self.stack[self.len] = ip;
        self.len += 1;
        proof {
            assert(self.frames() == old(self).frames().push(ip));
        }
    }

    /// What the unwinder's callback does with the program counter of one
    /// frame: a frame without one is passed over.
    pub fn on_frame(&mut self, pc: u64)
        ensures
            final(self).frames() == if pc > 0 {
                pushed(old(self).frames(), pc)
            } else {
                old(self).frames()
            },
    {
        if pc > 0 {
            self.push(pc);
        }
    }

    pub fn as_slice(&self) -> (frames: &[u64])
        ensures
            frames@ == self.frames(),
    {
        proof {
            use_type_invariant(self);
        }
        slice_subrange(self.stack.as_slice(), 0, self.len)
    }
}

} // verus!
