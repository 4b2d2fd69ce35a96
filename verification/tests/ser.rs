use tagtools::ser::{append_frame, chunk_tags, decode_stream, flatten_tags};
use tagtools::Tag;

fn t(time: i64, channel: u8) -> Tag {
    Tag { time, channel }
}

#[test]
fn chunking_round_trips() {
    let tags: Vec<Tag> = (0..1000).map(|i| t(i * 3, (i % 16 + 1) as u8)).collect();
    let chunks = chunk_tags(&tags);
    // Well under one list's capacity: a single chunk.
    assert_eq!(chunks.len(), 1);
    let back = flatten_tags(&chunks);
    assert_eq!(back, tags);
}

#[test]
fn chunking_of_nothing() {
    let tags: Vec<Tag> = Vec::new();
    let chunks = chunk_tags(&tags);
    assert_eq!(chunks.len(), 0);
    assert_eq!(flatten_tags(&chunks), tags);
}

#[test]
fn flattening_joins_in_order() {
    let chunks = vec![vec![t(1, 1), t(2, 2)], vec![t(3, 3)], vec![], vec![t(4, 4)]];
    let back = flatten_tags(&chunks);
    assert_eq!(back, vec![t(1, 1), t(2, 2), t(3, 3), t(4, 4)]);
}

#[test]
fn container_round_trips_one_frame() {
    let payload: Vec<u8> = (0u16..2000).flat_map(|i| i.to_le_bytes()).collect();
    let mut container: Vec<u8> = Vec::new();
    append_frame(&mut container, &payload);
    // The frame is a real compressed rendering, not the payload itself.
    assert_ne!(container, payload);
    let back = decode_stream(&container).expect("a complete frame decodes");
    assert_eq!(back, payload);
}

#[test]
fn container_concatenation_is_linear() {
    let p1: Vec<u8> = vec![1, 2, 3, 4, 5];
    let p2: Vec<u8> = (0u8..200).collect();
    let mut container: Vec<u8> = Vec::new();
    append_frame(&mut container, &p1);
    append_frame(&mut container, &p2);
    let back = decode_stream(&container).expect("appended frames decode");
    let mut joined = p1.clone();
    joined.extend_from_slice(&p2);
    assert_eq!(back, joined);
}

#[test]
fn garbage_streams_do_not_decode() {
    let garbage: Vec<u8> = vec![0xde, 0xad, 0xbe, 0xef, 1, 2, 3];
    assert_eq!(decode_stream(&garbage), None);
}

#[test]
fn empty_streams_hold_no_complete_frame() {
    // Zero bytes are an incomplete frame to the decompressor, not a stream
    // of zero frames.
    assert_eq!(decode_stream(&Vec::new()), None);
    // An empty payload still compresses to one complete, decodable frame.
    let mut container: Vec<u8> = Vec::new();
    append_frame(&mut container, &Vec::new());
    assert!(!container.is_empty());
    assert_eq!(decode_stream(&container), Some(Vec::new()));
}
