//! The sliding window: the most recent output, for back-references to read.
use crate::deflate::format::WINDOW_SIZE;
use crate::error::InflateError;
use std::collections::VecDeque;
use vstd::prelude::*;

verus! {

/// The last bytes that came out, up to `WINDOW_SIZE` of them, the most
/// recent one first.
pub struct Window {
    recent: VecDeque<u8>,
}

impl View for Window {
    type V = Seq<u8>;

    closed spec fn view(&self) -> Seq<u8> {
        self.recent@
    }
}

/// `recent` with `byte` before it, the oldest byte dropped where there would
/// be more than `WINDOW_SIZE`.
pub open spec fn pushed(recent: Seq<u8>, byte: u8) -> Seq<u8> {
    if recent.len() < WINDOW_SIZE {
        seq![byte] + recent
    } else {
        seq![byte] + recent.subrange(0, WINDOW_SIZE - 1)
    }
}

/// `recent` is the window of the output `out`: it holds the last bytes of
/// it, as many as a back-reference can reach, and the byte `i + 1` places
/// back at index `i`.
pub open spec fn shows(recent: Seq<u8>, out: Seq<u8>) -> bool {
    &&& recent.len() == if out.len() < WINDOW_SIZE {
        out.len()
    } else {
        WINDOW_SIZE as nat
    }
    &&& forall|i: int| 0 <= i < recent.len() ==> #[trigger] recent[i] == out[out.len() - 1 - i]
}

/// The window follows the output byte by byte.
pub proof fn lemma_pushed_shows(recent: Seq<u8>, out: Seq<u8>, byte: u8)
    requires
        shows(recent, out),
    ensures
        shows(pushed(recent, byte), out.push(byte)),
{
    let next = pushed(recent, byte);
    let more = out.push(byte);
    assert forall|i: int| 0 <= i < next.len() implies #[trigger] next[i] == more[more.len() - 1
        - i] by {
        if i > 0 {
            assert(next[i] == recent[i - 1]);
        }
    }
}

impl Window {
    /// An empty window.
    pub fn new() -> (w: Self)
        ensures
            w@ == Seq::<u8>::empty(),
    {
        Window { recent: VecDeque::with_capacity(WINDOW_SIZE) }
    }

    /// The number of bytes in the window.
    pub fn len(&self) -> (n: usize)
        ensures
            n == self@.len(),
    {
        self.recent.len()
    }

    /// Puts `byte` before the others and drops the oldest one where the
    /// window is full.
    pub fn push(&mut self, byte: u8)
        ensures
            final(self)@ == pushed(old(self)@, byte),
    {
        self.recent.truncate(WINDOW_SIZE - 1);
        self.recent.push_front(byte);
    }

    /// The byte `distance` places back, 1 being the most recent one.
    pub fn at(&self, distance: usize) -> (r: Result<u8, InflateError>)
        ensures
            1 <= distance <= self@.len() ==> r == Ok::<u8, InflateError>(self@[distance - 1]),
            !(1 <= distance <= self@.len()) ==> r == Err::<u8, InflateError>(
                InflateError::DistanceOutOfRange,
            ),
    {
        if distance == 0 || distance > self.recent.len() {
            return Err(InflateError::DistanceOutOfRange);
        }
        Ok(self.recent[distance - 1])
    }
}

} // verus!
