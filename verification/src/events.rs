//! Decoded events: parsing a frame's payload as schema-free JSON.
//!
//! A frame decodes to at most one event. Frames without data lines, and
//! frames whose joined payload is not valid JSON, decode to nothing and are
//! dropped silently: malformed upstream data never stops the pipeline.
use vstd::prelude::*;

use crate::decoder::{extract_payload, frame_payload};

verus! {

#[verifier::external_type_specification]
#[verifier::external_body]
pub struct ExValue(serde_json::Value);

/// What serde_json's parser returns for the given payload bytes: a value
/// when they are valid JSON, nothing otherwise.
pub uninterp spec fn json_of(payload: Seq<u8>) -> Option<serde_json::Value>;

/// Relies on serde_json::from_slice::<serde_json::Value>: the outcome is a
/// function of the input bytes alone; a parse error is mapped to `None`.
#[verifier::external_body]
fn parse_json(payload: &Vec<u8>) -> (r: Option<serde_json::Value>)
    ensures
        r == json_of(payload@),
{
    serde_json::from_slice::<serde_json::Value>(payload.as_slice()).ok()
}

/// The event a frame decodes to: the parse of its payload, or nothing when
/// the frame has no data lines or its payload is not valid JSON.
pub open spec fn spec_decode(f: Seq<u8>) -> Option<serde_json::Value> {
    match frame_payload(f) {
        Some(p) => json_of(p),
        None => None,
    }
}

/// Decodes one frame: collects its data lines and parses the joined payload.
pub fn decode_frame(frame: &Vec<u8>) -> (r: Option<serde_json::Value>)
    ensures
        r == spec_decode(frame@),
{
    match extract_payload(frame) {
        Some(p) => parse_json(&p),
        None => None,
    }
}

/// A frame none of whose lines is a data line produces no event.
pub proof fn lemma_no_data_lines_no_event(f: Seq<u8>)
    requires
        forall|i: int|
            0 <= i < crate::decoder::lines_of(f).len() ==> !crate::decoder::is_data_line(
                crate::decoder::lines_of(f)[i],
            ),
    ensures
        spec_decode(f) is None,
{
    crate::decoder::lemma_frame_without_data_lines(f);
}

/// A frame whose joined payload is not parseable produces no event: the
/// frame is dropped and decoding goes on with the next frame.
pub proof fn lemma_unparseable_payload_no_event(f: Seq<u8>, p: Seq<u8>)
    requires
        frame_payload(f) == Some(p),
        json_of(p) is None,
    ensures
        spec_decode(f) is None,
{
}

/// The events of a sequence of frames, in frame order: each frame's decoded
/// event, with frames that decode to nothing left out.
pub open spec fn events_of(frames: Seq<Seq<u8>>) -> Seq<serde_json::Value>
    decreases frames.len(),
{
    if frames.len() == 0 {
        Seq::empty()
    } else {
        match spec_decode(frames.first()) {
            Some(v) => seq![v] + events_of(frames.drop_first()),
            None => events_of(frames.drop_first()),
        }
    }
}

/// Decoding frames is per-frame: the events of concatenated frame sequences
/// are the concatenated events.
pub proof fn lemma_events_of_concat(a: Seq<Seq<u8>>, b: Seq<Seq<u8>>)
    ensures
        events_of(a + b) == events_of(a) + events_of(b),
    decreases a.len(),
{
    if a.len() == 0 {
        assert(a + b =~= b);
        assert(events_of(a) + events_of(b) =~= events_of(b));
    } else {
        assert((a + b).drop_first() =~= a.drop_first() + b);
        assert((a + b).first() == a.first());
        lemma_events_of_concat(a.drop_first(), b);
        match spec_decode(a.first()) {
            Some(v) => {
                assert(events_of(a + b) =~= events_of(a) + events_of(b));
            }
            None => {}
        }
    }
}

} // verus!
