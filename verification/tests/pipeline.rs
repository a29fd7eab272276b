use sse_pipeline::decoder::extract_payload;
use sse_pipeline::events::decode_frame;
use sse_pipeline::frames::FrameBuffer;
use sse_pipeline::pump::Pump;

fn json(s: &str) -> serde_json::Value {
    serde_json::from_str(s).expect("test value must parse")
}

#[test]
fn single_event_single_chunk() {
    let mut pump = Pump::new();
    let events = pump.process_chunk(b"data: {\"type\":\"a\"}\n\n");
    assert_eq!(events.len(), 1);
    assert_eq!(events[0], json("{\"type\":\"a\"}"));
}

#[test]
fn split_mid_payload() {
    let mut pump = Pump::new();
    let first = pump.process_chunk(b"data: {\"ty");
    assert_eq!(first.len(), 0);
    let second = pump.process_chunk(b"pe\":\"a\"}\n\n");
    assert_eq!(second.len(), 1);
    assert_eq!(second[0], json("{\"type\":\"a\"}"));
}

#[test]
fn multi_data_lines_joined() {
    let frame = b"data: line1\ndata: line2".to_vec();
    let payload = extract_payload(&frame).expect("two data lines give a payload");
    assert_eq!(payload, b"line1\nline2".to_vec());
    // The joined payload is not valid JSON, so no event comes out of it.
    assert!(decode_frame(&frame).is_none());
    let mut pump = Pump::new();
    let events = pump.process_chunk(b"data: line1\ndata: line2\n\n");
    assert_eq!(events.len(), 0);
}

#[test]
fn comment_frame_gives_no_event() {
    let mut pump = Pump::new();
    let events = pump.process_chunk(b": comment\n\n");
    assert_eq!(events.len(), 0);
}

#[test]
fn two_frames_one_chunk_in_order() {
    let mut pump = Pump::new();
    let events = pump.process_chunk(b"data:{\"a\":1}\n\ndata:{\"a\":2}\n\n");
    assert_eq!(events.len(), 2);
    assert_eq!(events[0], json("{\"a\":1}"));
    assert_eq!(events[1], json("{\"a\":2}"));
}

#[test]
fn frame_without_data_lines_gives_no_event() {
    assert!(extract_payload(&b"event: ping".to_vec()).is_none());
    assert!(extract_payload(&b"".to_vec()).is_none());
    let mut pump = Pump::new();
    let events = pump.process_chunk(b"event: ping\n\n");
    assert_eq!(events.len(), 0);
}

#[test]
fn unparseable_payload_is_dropped_and_pump_continues() {
    let mut pump = Pump::new();
    let events = pump.process_chunk(b"data: not json\n\n");
    assert_eq!(events.len(), 0);
    let later = pump.process_chunk(b"data: true\n\n");
    assert_eq!(later.len(), 1);
    assert_eq!(later[0], json("true"));
}

#[test]
fn partial_frame_is_retained_across_chunks() {
    let mut pump = Pump::new();
    assert_eq!(pump.process_chunk(b"data: {\"a\":1}").len(), 0);
    let events = pump.process_chunk(b"\n\n");
    assert_eq!(events.len(), 1);
    assert_eq!(events[0], json("{\"a\":1}"));
}

#[test]
fn consumer_closed_stops_reads() {
    let mut pump = Pump::new();
    assert!(pump.wants_read());
    let _ = pump.process_chunk(b"data: {\"a\":1}\n\n");
    assert!(pump.wants_read());
    pump.consumer_closed();
    assert!(!pump.wants_read());
}

#[test]
fn invalid_utf8_is_replaced_not_fatal() {
    // A lone 0xFF inside a JSON string: lenient decoding replaces it with
    // the replacement character, and the frame still parses as JSON.
    let mut pump = Pump::new();
    let mut chunk: Vec<u8> = b"data: \"".to_vec();
    chunk.push(0xFF);
    chunk.extend_from_slice(b"\"\n\n");
    let events = pump.process_chunk(&chunk);
    assert_eq!(events.len(), 1);
    assert_eq!(events[0], serde_json::Value::String("\u{FFFD}".to_string()));
}

#[test]
fn chunking_is_invariant_byte_by_byte() {
    let stream = b"data:{\"a\":1}\n\ndata:{\"a\":2}\n\n";
    let mut pump = Pump::new();
    let mut events = Vec::new();
    for b in stream.iter() {
        events.extend(pump.process_chunk(&[*b]));
    }
    assert_eq!(events.len(), 2);
    assert_eq!(events[0], json("{\"a\":1}"));
    assert_eq!(events[1], json("{\"a\":2}"));
}

#[test]
fn frame_buffer_splits_and_retains() {
    let mut buffer = FrameBuffer::new();
    let frames = buffer.absorb(b"a\n\nb\n\nc");
    assert_eq!(frames, vec![b"a".to_vec(), b"b".to_vec()]);
    let more = buffer.absorb(b"\n\n");
    assert_eq!(more, vec![b"c".to_vec()]);
}

#[test]
fn data_marker_without_space_is_accepted() {
    let frame = b"data:{\"a\":1}".to_vec();
    assert_eq!(decode_frame(&frame), Some(json("{\"a\":1}")));
}

#[test]
fn empty_chunk_changes_nothing() {
    let mut pump = Pump::new();
    assert_eq!(pump.process_chunk(b"data: {\"a\"").len(), 0);
    assert_eq!(pump.process_chunk(b"").len(), 0);
    let events = pump.process_chunk(b":1}\n\n");
    assert_eq!(events.len(), 1);
    assert_eq!(events[0], json("{\"a\":1}"));
}

#[test]
fn carriage_return_is_trimmed_from_line_ends() {
    let mut pump = Pump::new();
    let events = pump.process_chunk(b"data: true\r\n\n");
    assert_eq!(events.len(), 1);
    assert_eq!(events[0], json("true"));
}

#[test]
fn bare_data_marker_gives_empty_payload_and_no_event() {
    let frame = b"data:".to_vec();
    assert_eq!(extract_payload(&frame), Some(Vec::new()));
    assert!(decode_frame(&frame).is_none());
}

#[test]
fn data_content_is_trimmed() {
    let frame = b"data: \t spaced \t ".to_vec();
    let payload = extract_payload(&frame).expect("a data line gives a payload");
    assert_eq!(payload, b"spaced".to_vec());
}
