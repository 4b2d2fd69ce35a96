//! Builder and reader for the tags message: a list of tag lists, so that
//! arbitrarily long streams fit under the wire's per-list size cap.

use crate::ser::concat_chunks;
use crate::Tag;
use vstd::prelude::*;

verus! {

/// A tags message under construction.
pub struct Builder {
    pub tags: Vec<Vec<Tag>>,
}

/// A finished tags message being read.
pub struct Reader {
    pub tags: Vec<Vec<Tag>>,
}

/// A prefix of the chunk list carries no more tags than the whole.
proof fn lemma_concat_take_le(cs: Seq<Seq<Tag>>, i: int)
    requires
        0 <= i <= cs.len(),
    ensures
        concat_chunks(cs.take(i)).len() <= concat_chunks(cs).len(),
    decreases cs.len() - i,
{
    if i < cs.len() {
        lemma_concat_take_le(cs, i + 1);
        assert(cs.take(i + 1).drop_last() =~= cs.take(i));
        assert(cs.take(i + 1).last() == cs[i]);
    } else {
        assert(cs.take(i) =~= cs);
    }
}

/// Count the tags a chunk list carries in all.
fn count_all(tags: &Vec<Vec<Tag>>) -> (n: u64)
    requires
        concat_chunks(tags@.map_values(|c: Vec<Tag>| c@)).len() <= u64::MAX,
    ensures
        n == concat_chunks(tags@.map_values(|c: Vec<Tag>| c@)).len(),
{
    let ghost cs = tags@.map_values(|c: Vec<Tag>| c@);
    let mut n: u64 = 0;
    let mut i: usize = 0;
    while i < tags.len()
        invariant
            0 <= i <= tags@.len(),
            cs == tags@.map_values(|c: Vec<Tag>| c@),
            concat_chunks(cs).len() <= u64::MAX,
            n == concat_chunks(cs.take(i as int)).len(),
        decreases tags@.len() - i,
    {
        proof {
            assert(cs.take(i + 1).drop_last() =~= cs.take(i as int));
            assert(cs.take(i + 1).last() == cs[i as int]);
            lemma_concat_take_le(cs, i + 1);
        }
        let c = tags[i].len();
        n = n + c as u64;
        i = i + 1;
    }
    proof {
        assert(cs.take(cs.len() as int) =~= cs);
    }
    n
}

impl Builder {
    /// An empty message.
    pub fn new() -> (b: Builder)
        ensures
            b.tags@.len() == 0,
    {
        Builder { tags: Vec::new() }
    }

    /// Start the tag payload over with `n` empty lists.
    pub fn init_tags(&mut self, n: u32)
        ensures
            final(self).tags@.len() == n,
            forall|i: int| 0 <= i < n ==> (#[trigger] final(self).tags@[i])@.len() == 0,
    {
        let mut fresh: Vec<Vec<Tag>> = Vec::new();
        let mut i: u32 = 0;
        while i < n
            invariant
                0 <= i <= n,
                fresh@.len() == i,
                forall|t: int| 0 <= t < i ==> (#[trigger] fresh@[t])@.len() == 0,
            decreases n - i,
        {
            fresh.push(Vec::new());
            i = i + 1;
        }
        self.tags = fresh;
    }

    /// Replace the tag payload.
    pub fn set_tags(&mut self, chunks: Vec<Vec<Tag>>)
        ensures
            final(self).tags == chunks,
    {
        self.tags = chunks;
    }

    /// Read the tag payload back.
    pub fn get_tags(&self) -> (r: &Vec<Vec<Tag>>)
        ensures
            r == &self.tags,
    {
        &self.tags
    }

    /// Whether the message holds any tag lists.
    pub fn has_tags(&self) -> (r: bool)
        ensures
            r == (self.tags@.len() > 0),
    {
        self.tags.len() > 0
    }

    /// The number of tags the message carries in all.
    pub fn total_size(&self) -> (n: u64)
        requires
            concat_chunks(self.tags@.map_values(|c: Vec<Tag>| c@)).len() <= u64::MAX,
        ensures
            n == concat_chunks(self.tags@.map_values(|c: Vec<Tag>| c@)).len(),
    {
        count_all(&self.tags)
    }

    /// Borrow the builder again for another round of edits.
    pub fn reborrow(&mut self) -> (r: &mut Builder)
        ensures
            *r == *old(self),
            *final(self) == *final(r),
    {
        self
    }

    /// Freeze the message for reading.
    pub fn into_reader(self) -> (r: Reader)
        ensures
            r.tags == self.tags,
    {
        Reader { tags: self.tags }
    }

    /// Read the message under construction without freezing it.
    pub fn reborrow_as_reader(&self) -> (r: &Vec<Vec<Tag>>)
        ensures
            r == &self.tags,
    {
        &self.tags
    }
}

impl Reader {
    /// Read the tag payload.
    pub fn get_tags(&self) -> (r: &Vec<Vec<Tag>>)
        ensures
            r == &self.tags,
    {
        &self.tags
    }

    /// Whether the message holds any tag lists.
    pub fn has_tags(&self) -> (r: bool)
        ensures
            r == (self.tags@.len() > 0),
    {
        self.tags.len() > 0
    }

    /// The number of tags the message carries in all.
    pub fn total_size(&self) -> (n: u64)
        requires
            concat_chunks(self.tags@.map_values(|c: Vec<Tag>| c@)).len() <= u64::MAX,
        ensures
            n == concat_chunks(self.tags@.map_values(|c: Vec<Tag>| c@)).len(),
    {
        count_all(&self.tags)
    }

    /// Borrow the reader again.
    pub fn reborrow(&self) -> (r: &Reader)
        ensures
            r == self,
    {
        self
    }
}

} // verus!
