//! Builder and reader for one tag record of the wire message: a time in
//! device ticks and a 1-indexed channel.

use crate::Tag;
use vstd::prelude::*;

verus! {

/// One tag record under construction.
pub struct Builder {
    pub tag: Tag,
}

/// One finished tag record.
pub struct Reader {
    pub tag: Tag,
}

impl Builder {
    /// A record of the zero tag.
    pub fn new() -> (b: Builder)
        ensures
            b.tag == (Tag { time: 0, channel: 0 }),
    {
        Builder { tag: Tag { time: 0, channel: 0 } }
    }

    /// Set the record's time.
    pub fn set_time(&mut self, time: i64)
        ensures
            final(self).tag.time == time,
            final(self).tag.channel == old(self).tag.channel,
    {
        self.tag.time = time;
    }

    /// Read the record's time.
    pub fn get_time(&self) -> (t: i64)
        ensures
            t == self.tag.time,
    {
        self.tag.time
    }

    /// Set the record's channel.
    pub fn set_channel(&mut self, channel: u8)
        ensures
            final(self).tag.channel == channel,
            final(self).tag.time == old(self).tag.time,
    {
        self.tag.channel = channel;
    }

    /// Read the record's channel.
    pub fn get_channel(&self) -> (c: u8)
        ensures
            c == self.tag.channel,
    {
        self.tag.channel
    }

    /// Borrow the record again for another round of edits.
    pub fn reborrow(&mut self) -> (r: &mut Builder)
        ensures
            *r == *old(self),
            *final(self) == *final(r),
    {
        self
    }

    /// Freeze the record for reading.
    pub fn into_reader(self) -> (r: Reader)
        ensures
            r.tag == self.tag,
    {
        Reader { tag: self.tag }
    }
}

impl Reader {
    /// Read the record's time.
    pub fn get_time(&self) -> (t: i64)
        ensures
            t == self.tag.time,
    {
        self.tag.time
    }

    /// Read the record's channel.
    pub fn get_channel(&self) -> (c: u8)
        ensures
            c == self.tag.channel,
    {
        self.tag.channel
    }
}

} // verus!
