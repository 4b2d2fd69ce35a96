use tagtools::ser::chunk_tags;
use tagtools::wire::{message, record};
use tagtools::Tag;

#[test]
fn message_round_trips_chunked_tags() {
    let tags: Vec<Tag> = (0..100).map(|i| Tag { time: i, channel: (i % 4 + 1) as u8 }).collect();
    let mut b = message::Builder::new();
    assert!(!b.has_tags());
    b.set_tags(chunk_tags(&tags));
    assert!(b.has_tags());
    assert_eq!(b.total_size(), 100);
    let r = b.into_reader();
    assert!(r.has_tags());
    assert_eq!(r.total_size(), 100);
    let back = tagtools::ser::flatten_tags(r.get_tags());
    assert_eq!(back, tags);
}

#[test]
fn message_init_makes_empty_lists() {
    let mut b = message::Builder::new();
    b.init_tags(3);
    assert_eq!(b.get_tags().len(), 3);
    assert!(b.get_tags().iter().all(|c| c.is_empty()));
    assert_eq!(b.total_size(), 0);
}

#[test]
fn records_hold_time_and_channel() {
    let mut b = record::Builder::new();
    b.set_time(-42);
    b.set_channel(7);
    assert_eq!(b.get_time(), -42);
    assert_eq!(b.get_channel(), 7);
    let r = b.into_reader();
    assert_eq!(r.get_time(), -42);
    assert_eq!(r.get_channel(), 7);
}
