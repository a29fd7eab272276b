//! The stream pump: the state machine that drives transport chunks through
//! the frame buffer and decoder.
//!
//! The caller's loop reads a chunk while [`Pump::wants_read`] says so, hands
//! it to [`Pump::process_chunk`], and forwards the returned events to the
//! consumer one by one; when the consumer is gone it reports that through
//! [`Pump::consumer_closed`], after which the pump asks for no further read.
//! A transport error on one chunk is simply not handed in: the chunk is
//! skipped and the loop goes on reading.
use vstd::prelude::*;

use crate::events::{decode_frame, events_of, lemma_events_of_concat};
use crate::frames::{
    concat_chunks, frames_of, has_delim, lemma_absorb_split, lemma_rest_no_delim, rest_of,
    views_of, FrameBuffer,
};

verus! {

/// What String::from_utf8_lossy returns for the given bytes, as bytes.
pub uninterp spec fn lossy_of(b: Seq<u8>) -> Seq<u8>;

/// Relies on String::from_utf8_lossy: the result is a function of the input
/// bytes alone; valid UTF-8 passes through unchanged (so all-ASCII input
/// comes back as it was) and invalid sequences are replaced, never an error.
#[verifier::external_body]
fn lossy_utf8(chunk: &[u8]) -> (r: Vec<u8>)
    ensures
        r@ == lossy_of(chunk@),
        (forall|i: int| 0 <= i < chunk@.len() ==> chunk@[i] < 128) ==> r@ == chunk@,
{
    String::from_utf8_lossy(chunk).into_owned().into_bytes()
}

/// The stream pump's state: the frame buffer, and whether the consumer's
/// disappearance has been observed.
pub struct Pump {
    buffer: FrameBuffer,
    stopped: bool,
}

impl Pump {
    /// Bytes of the decoded stream not yet part of a complete frame.
    pub closed spec fn pending(self) -> Seq<u8> {
        self.buffer.pending()
    }

    /// Whether the pump has observed that the consumer is gone.
    pub closed spec fn is_stopped(self) -> bool {
        self.stopped
    }

    /// The frame buffer never retains a complete frame.
    pub closed spec fn wf(self) -> bool {
        self.buffer.wf()
    }

    /// A fresh pump with an empty buffer.
    pub fn new() -> (r: Self)
        ensures
            r.wf(),
            !r.is_stopped(),
            r.pending() == Seq::<u8>::empty(),
    {
        Pump { buffer: FrameBuffer::new(), stopped: false }
    }

    /// Processes one transport chunk: decodes it leniently as UTF-8, absorbs
    /// it into the frame buffer, and returns the decoded events of every
    /// frame the chunk completed, in arrival order. Processing a chunk never
    /// stops the pump.
    pub fn process_chunk(&mut self, chunk: &[u8]) -> (events: Vec<serde_json::Value>)
        requires
            old(self).wf(),
            !old(self).is_stopped(),
        ensures
            final(self).wf(),
            !final(self).is_stopped(),
            events@ == events_of(frames_of(old(self).pending() + lossy_of(chunk@))),
            final(self).pending() == rest_of(old(self).pending() + lossy_of(chunk@)),
    {
        let text = lossy_utf8(chunk);
        let frames = self.buffer.absorb(text.as_slice());
        let ghost fviews = views_of(frames@);
        let mut events: Vec<serde_json::Value> = Vec::new();
        let mut i: usize = 0;
        proof {
            assert(fviews.skip(0) =~= fviews);
        }
        while i < frames.len()
            invariant
                i <= frames@.len(),
                fviews == views_of(frames@),
                events_of(fviews) == events@ + events_of(fviews.skip(i as int)),
            decreases frames@.len() - i,
        {
            let ghost rem = fviews.skip(i as int);
            proof {
                assert(rem.first() == fviews[i as int]);
                assert(rem.drop_first() =~= fviews.skip(i as int + 1));
            }
            let ghost prev_events = events@;
            match decode_frame(&frames[i]) {
                Some(v) => {
                    events.push(v);
                    proof {
                        assert(events@ =~= prev_events.push(v));
                        assert(events@ + events_of(fviews.skip(i as int + 1)) =~= prev_events
                            + events_of(rem));
                    }
                }
                None => {
                }
            }
            i = i + 1;
        }
        proof {
            assert(fviews.skip(fviews.len() as int) =~= Seq::<Seq<u8>>::empty());
            assert(events@ + events_of(fviews.skip(fviews.len() as int)) =~= events@);
        }
        events
    }

    /// Records that the consumer end of the event channel is gone. This is
    /// the sole cancellation signal: from here on the pump asks for no
    /// further transport read.
    pub fn consumer_closed(&mut self)
        ensures
            final(self).is_stopped(),
            final(self).pending() == old(self).pending(),
            final(self).wf() == old(self).wf(),
    {
        self.stopped = true;
    }

    /// Whether the pump still wants the next transport chunk: exactly until
    /// the consumer is gone.
    pub fn wants_read(&self) -> (r: bool)
        ensures
            r == !self.is_stopped(),
    {
        !self.stopped
    }
}

/// The events a pump emits when, starting from leftover `buf`, it processes
/// each of the given (already decoded) chunks in turn.
pub open spec fn pump_events(buf: Seq<u8>, chunks: Seq<Seq<u8>>) -> Seq<serde_json::Value>
    decreases chunks.len(),
{
    if chunks.len() == 0 {
        Seq::empty()
    } else {
        events_of(frames_of(buf + chunks.first())) + pump_events(
            rest_of(buf + chunks.first()),
            chunks.drop_first(),
        )
    }
}

/// Chunking invariance for events: feeding a byte stream chunk by chunk
/// emits exactly the events of the stream's complete frames, in order, no
/// matter where the chunk boundaries fall.
pub proof fn lemma_pump_event_stream(buf: Seq<u8>, chunks: Seq<Seq<u8>>)
    requires
        !has_delim(buf),
    ensures
        pump_events(buf, chunks) == events_of(frames_of(buf + concat_chunks(chunks))),
    decreases chunks.len(),
{
    if chunks.len() == 0 {
        crate::frames::lemma_no_delim_no_frames(buf);
        assert(buf + Seq::<u8>::empty() =~= buf);
    } else {
        let c0 = chunks.first();
        let rest = chunks.drop_first();
        lemma_rest_no_delim(buf + c0);
        lemma_pump_event_stream(rest_of(buf + c0), rest);
        lemma_absorb_split(buf + c0, concat_chunks(rest));
        lemma_events_of_concat(
            frames_of(buf + c0),
            frames_of(rest_of(buf + c0) + concat_chunks(rest)),
        );
        assert((buf + c0) + concat_chunks(rest) =~= buf + concat_chunks(chunks));
    }
}

} // verus!
