//! The decisions of a loop that fills a buffer from a reader: stop when the
//! buffer is full or the input ends, try again after an interruption, give up
//! on any other failure.
use vstd::prelude::*;

verus! {

/// What one read reported.
#[derive(Debug, Clone, Copy, PartialEq, Eq)]
pub enum ReadEvent {
    /// This many bytes were read.
    Got(usize),
    /// The input has ended.
    End,
    /// The read was interrupted before anything was read.
    Interrupted,
    /// The read failed.
    Failed,
}

/// What the loop does next.
#[derive(Debug, Clone, Copy, PartialEq, Eq)]
pub enum ReadAction {
    /// Read again, into the buffer from this position on.
    Continue(usize),
    /// Stop: this many bytes were read.
    Done(usize),
    /// Stop and report the failure.
    Fail,
}

/// One step of the loop, with `pos` bytes of a buffer of `cap` bytes filled:
/// bytes read move the position on, and the loop stops when the buffer is
/// full; a read of nothing, or the end of the input, stops it where it is; an
/// interruption leaves it where it is; a failure ends it.
pub fn read_step(pos: usize, cap: usize, ev: ReadEvent) -> (r: ReadAction)
    requires
        pos < cap,
        ev matches ReadEvent::Got(n) ==> n <= cap - pos,
    ensures
        match ev {
            ReadEvent::Got(n) => if n == 0 {
                r == ReadAction::Done(pos)
            } else if pos + n == cap {
                r == ReadAction::Done(cap)
            } else {
                r == ReadAction::Continue((pos + n) as usize)
            },
            ReadEvent::End => r == ReadAction::Done(pos),
            ReadEvent::Interrupted => r == ReadAction::Continue(pos),
            ReadEvent::Failed => r == ReadAction::Fail,
        },
{
    match ev {
        ReadEvent::Got(n) => {
            if n == 0 {
                ReadAction::Done(pos)
            } else if n == cap - pos {
                ReadAction::Done(cap)
            } else {
                ReadAction::Continue(pos + n)
            }
        },
        ReadEvent::End => ReadAction::Done(pos),
        ReadEvent::Interrupted => ReadAction::Continue(pos),
        ReadEvent::Failed => ReadAction::Fail,
    }
}

} // verus!
