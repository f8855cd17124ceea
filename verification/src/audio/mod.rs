use vstd::prelude::*;

verus! {

/// Audio chunks that may wait in the output queue before the feeder
/// pauses.
pub const MAX_QUEUED_CHUNKS: usize = 3;

/// The decisions of the audio feeder: when to set the playback clock to a
/// chunk's time, and when to wait for the output queue to drain.
pub struct AudioPacer {
    playback_started: bool,
}

impl AudioPacer {
    /// Whether a chunk has been handed to the output yet.
    pub closed spec fn started(&self) -> bool {
        self.playback_started
    }

    /// A pacer before the first chunk.
    pub fn new() -> (p: Self)
        ensures
            !p.started(),
    {
        AudioPacer { playback_started: false }
    }

    /// A chunk is being queued for output; `queue_empty` tells whether the
    /// output had run dry before it. Returns whether the playback clock is
    /// to be set to the chunk's time: for the first chunk, and whenever the
    /// output had run dry.
    pub fn on_chunk(&mut self, queue_empty: bool) -> (reset_clock: bool)
        ensures
            reset_clock == (!old(self).started() || queue_empty),
            final(self).started(),
    {
        let reset_clock = !self.playback_started || queue_empty;
        if reset_clock {
            self.playback_started = true;
        }
        reset_clock
    }

    /// Whether the feeder waits before queueing more: while more than
    /// `MAX_QUEUED_CHUNKS` chunks are waiting.
    pub fn must_wait(queued: usize) -> (r: bool)
        ensures
            r == (queued > MAX_QUEUED_CHUNKS),
    {
        queued > MAX_QUEUED_CHUNKS
    }
}

} // verus!
