//! Framing of tag streams for the on-disk container.
//!
//! A serialized message holds its tags as a list of lists: the wire library
//! caps one structure list at `2^29` words, so tags are split into chunks of
//! at most `2^28 - 1` and re-joined on the way in. The chunking and the
//! flattening are verified inverses. The container bytes themselves are
//! compressed one frame per message; the compressor is linear under
//! concatenation, so a file of appended frames decodes as one stream.

use crate::Tag;
use vstd::prelude::*;

verus! {

/// The most tags one serialized structure list may hold: `2^28 - 1`, since
/// each tag is two words and one structure list holds under `2^29` words.
pub const MAX_TAGS_PER_LIST: usize = 0x0FFF_FFFF;

/// All chunks joined back into one tag stream.
pub open spec fn concat_chunks(chunks: Seq<Seq<Tag>>) -> Seq<Tag>
    decreases chunks.len(),
{
    if chunks.len() == 0 {
        Seq::empty()
    } else {
        concat_chunks(chunks.drop_last()) + chunks.last()
    }
}

/// Split a tag stream into chunks for the wire's list-of-lists framing:
/// every chunk but the last is full, their concatenation is the input, and
/// no chunk exceeds the wire's list capacity.
pub fn chunk_tags(tags: &Vec<Tag>) -> (chunks: Vec<Vec<Tag>>)
    ensures
        concat_chunks(chunks@.map_values(|c: Vec<Tag>| c@)) == tags@,
        forall|i: int|
            0 <= i < chunks@.len() ==> (#[trigger] chunks@[i])@.len() <= MAX_TAGS_PER_LIST,
        forall|i: int|
            0 <= i < chunks@.len() - 1 ==> (#[trigger] chunks@[i])@.len() == MAX_TAGS_PER_LIST,
        chunks@.len() == (if (tags@.len() as int) % (MAX_TAGS_PER_LIST as int) == 0 {
            (tags@.len() as int) / (MAX_TAGS_PER_LIST as int)
        } else {
            (tags@.len() as int) / (MAX_TAGS_PER_LIST as int) + 1
        }),
{
    let mut chunks: Vec<Vec<Tag>> = Vec::new();
    let mut pos: usize = 0;
    let n = tags.len();
    while pos < n
        invariant
            0 <= pos <= n,
            n == tags@.len(),
            concat_chunks(chunks@.map_values(|c: Vec<Tag>| c@)) == tags@.take(pos as int),
            forall|i: int|
                0 <= i < chunks@.len() ==> (#[trigger] chunks@[i])@.len() <= MAX_TAGS_PER_LIST,
            forall|i: int|
                0 <= i < chunks@.len() ==> (#[trigger] chunks@[i])@.len() == MAX_TAGS_PER_LIST || (
                pos == n && i == chunks@.len() - 1),
            pos == chunks@.len() * (MAX_TAGS_PER_LIST as int) || (pos == n && chunks@.len() >= 1
                && pos > (chunks@.len() - 1) * (MAX_TAGS_PER_LIST as int)),
            chunks@.len() >= 1 ==> pos == (chunks@.len() - 1) * (MAX_TAGS_PER_LIST as int) + (
            chunks@.last())@.len(),
        decreases n - pos,
    {
        let ghost cs0 = chunks@.map_values(|c: Vec<Tag>| c@);
        let remaining = n - pos;
        let take_now = if remaining < MAX_TAGS_PER_LIST {
            remaining
        } else {
            MAX_TAGS_PER_LIST
        };
        let mut chunk: Vec<Tag> = Vec::new();
        let mut j: usize = 0;
        while j < take_now
            invariant
                0 <= j <= take_now,
                take_now <= n - pos,
                n == tags@.len(),
                chunk@ =~= tags@.subrange(pos as int, pos + j),
            decreases take_now - j,
        {
            chunk.push(tags[pos + j]);
            proof {
                assert(chunk@ =~= tags@.subrange(pos as int, pos + j + 1));
            }
            j = j + 1;
        }
        let ghost newpos = pos + take_now;
        chunks.push(chunk);
        proof {
            let cs = chunks@.map_values(|c: Vec<Tag>| c@);
            assert(cs =~= cs0.push(tags@.subrange(pos as int, newpos as int)));
            assert(cs.drop_last() =~= cs0);
            assert(concat_chunks(cs) == concat_chunks(cs0) + tags@.subrange(
                pos as int,
                newpos as int,
            ));
            assert(tags@.take(pos as int) + tags@.subrange(pos as int, newpos as int)
                =~= tags@.take(newpos as int));
            assert(chunks@.last()@.len() == take_now);
            if take_now == MAX_TAGS_PER_LIST {
                assert(newpos == cs.len() * (MAX_TAGS_PER_LIST as int)) by (nonlinear_arith)
                    requires
                        pos == (cs.len() - 1) * (MAX_TAGS_PER_LIST as int),
                        newpos == pos + MAX_TAGS_PER_LIST as int,
                ;
            }
        }
        pos = pos + take_now;
    }
    proof {
        assert(tags@.take(n as int) =~= tags@);
        let cs = chunks@.map_values(|c: Vec<Tag>| c@);
        let m = MAX_TAGS_PER_LIST as int;
        let ni = n as int;
        let cl = cs.len() as int;
        assert(cl == chunks@.len());
        if ni == 0 {
            if cl >= 1 {
                assert(pos == (cl - 1) * m + chunks@.last()@.len());
                assert((cl - 1) * m >= 0) by (nonlinear_arith)
                    requires
                        cl >= 1,
                        m > 0,
                ;
                assert(pos > (cl - 1) * m || pos == cl * m);
                assert(cl * m >= m) by (nonlinear_arith)
                    requires
                        cl >= 1,
                        m > 0,
                ;
                assert(false);
            }
        } else {
            assert(cl >= 1) by {
                if cl == 0 {
                    assert(pos == 0);
                }
            }
            let lastlen = chunks@.last()@.len() as int;
            assert(pos == (cl - 1) * m + lastlen);
            assert(lastlen <= m);
            if ni % m == 0 {
                assert(cl == ni / m) by (nonlinear_arith)
                    requires
                        m > 0,
                        ni % m == 0,
                        ni == (cl - 1) * m + lastlen,
                        0 < lastlen <= m,
                ;
            } else {
                assert(lastlen < m) by (nonlinear_arith)
                    requires
                        m > 0,
                        ni % m != 0,
                        ni == (cl - 1) * m + lastlen,
                        lastlen <= m,
                ;
                assert(cl == ni / m + 1) by (nonlinear_arith)
                    requires
                        m > 0,
                        ni % m != 0,
                        ni == (cl - 1) * m + lastlen,
                        0 < lastlen < m,
                ;
            }
            assert(lastlen > 0) by {
                if lastlen == 0 {
                    assert(pos == (cl - 1) * m);
                    assert(pos == cl * m || pos > (cl - 1) * m);
                    assert(cl * m == (cl - 1) * m + m) by (nonlinear_arith);
                }
            }
        }
    }
    chunks
}

/// Join decoded chunks back into one tag stream.
pub fn flatten_tags(chunks: &Vec<Vec<Tag>>) -> (tags: Vec<Tag>)
    ensures
        tags@ == concat_chunks(chunks@.map_values(|c: Vec<Tag>| c@)),
{
    let mut tags: Vec<Tag> = Vec::new();
    let mut i: usize = 0;
    while i < chunks.len()
        invariant
            0 <= i <= chunks@.len(),
            tags@ == concat_chunks(chunks@.map_values(|c: Vec<Tag>| c@).take(i as int)),
        decreases chunks@.len() - i,
    {
        let ghost cs = chunks@.map_values(|c: Vec<Tag>| c@);
        let mut j: usize = 0;
        let clen = chunks[i].len();
        while j < clen
            invariant
                0 <= j <= clen,
                0 <= i < chunks@.len(),
                cs == chunks@.map_values(|c: Vec<Tag>| c@),
                clen == cs[i as int].len(),
                tags@ =~= concat_chunks(cs.take(i as int)) + cs[i as int].take(j as int),
            decreases clen - j,
        {
            tags.push(chunks[i][j]);
            proof {
                assert(cs[i as int].take(j + 1) =~= cs[i as int].take(j as int).push(
                    cs[i as int][j as int],
                ));
            }
            j = j + 1;
        }
        proof {
            assert(cs.take(i + 1).drop_last() =~= cs.take(i as int));
            assert(cs.take(i + 1).last() == cs[i as int]);
            assert(cs[i as int].take(clen as int) =~= cs[i as int]);
            assert(tags@ =~= concat_chunks(cs.take(i + 1)));
        }
        i = i + 1;
    }
    proof {
        let cs = chunks@.map_values(|c: Vec<Tag>| c@);
        assert(cs.take(cs.len() as int) =~= cs);
    }
    tags
}

/// Concatenating two chunked streams concatenates the tag streams they
/// carry: the list-of-lists framing is linear under concatenation.
pub proof fn lemma_concat_chunks_append(cs1: Seq<Seq<Tag>>, cs2: Seq<Seq<Tag>>)
    ensures
        concat_chunks(cs1 + cs2) == concat_chunks(cs1) + concat_chunks(cs2),
    decreases cs2.len(),
{
    if cs2.len() == 0 {
        assert(cs1 + cs2 =~= cs1);
        assert(concat_chunks(cs1) + concat_chunks(cs2) =~= concat_chunks(cs1));
    } else {
        lemma_concat_chunks_append(cs1, cs2.drop_last());
        assert((cs1 + cs2).drop_last() =~= cs1 + cs2.drop_last());
        assert((cs1 + cs2).last() == cs2.last());
        assert(concat_chunks(cs1) + concat_chunks(cs2.drop_last()) + cs2.last() =~= concat_chunks(
            cs1,
        ) + (concat_chunks(cs2.drop_last()) + cs2.last()));
    }
}

/// The compressed frame the stream compressor emits for a payload. The
/// output depends on the payload bytes alone.
pub uninterp spec fn zstd_frame(payload: Seq<u8>) -> Seq<u8>;

/// The byte stream of several compressed frames, one per payload, appended.
pub open spec fn frames_concat(ps: Seq<Seq<u8>>) -> Seq<u8>
    decreases ps.len(),
{
    if ps.len() == 0 {
        Seq::empty()
    } else {
        frames_concat(ps.drop_last()) + zstd_frame(ps.last())
    }
}

/// The payloads of several frames, appended.
pub open spec fn payloads_concat(ps: Seq<Seq<u8>>) -> Seq<u8>
    decreases ps.len(),
{
    if ps.len() == 0 {
        Seq::empty()
    } else {
        payloads_concat(ps.drop_last()) + ps.last()
    }
}

/// Relies on zstd's `stream::encode_all`: one call compresses the payload
/// into one complete frame, a function of the payload bytes alone. Writing
/// into the in-memory result buffer cannot fail, so the call succeeds on
/// every payload, short of the allocator giving out.
#[verifier::external_body]
fn zstd_compress(payload: &Vec<u8>) -> (r: Vec<u8>)
    ensures
        r@ == zstd_frame(payload@),
{
    zstd::stream::encode_all(payload.as_slice(), 0).expect("compressing to memory cannot fail")
}

/// Relies on zstd's `stream::decode_all`: a nonempty stream of complete
/// frames decodes to their payloads appended, whatever split produced it.
/// An empty stream holds no complete frame and is refused as an incomplete
/// one, so nothing is promised of it.
#[verifier::external_body]
fn zstd_decompress(bytes: &Vec<u8>) -> (r: Option<Vec<u8>>)
    ensures
        forall|ps: Seq<Seq<u8>>|
            ps.len() > 0 && bytes@ == #[trigger] frames_concat(ps) ==> r is Some
                && r->Some_0@ == payloads_concat(ps),
{
    match zstd::stream::decode_all(bytes.as_slice()) {
        Ok(v) => Some(v),
        Err(_) => None,
    }
}

/// Append one serialized message to the container as a compressed frame:
/// the container grows by exactly the payload's frame.
pub fn append_frame(wtr: &mut Vec<u8>, payload: &Vec<u8>)
    ensures
        final(wtr)@ == old(wtr)@ + zstd_frame(payload@),
{
    let frame = zstd_compress(payload);
    let ghost w0 = wtr@;
    let mut i: usize = 0;
    while i < frame.len()
        invariant
            0 <= i <= frame@.len(),
            wtr@ =~= w0 + frame@.take(i as int),
        decreases frame@.len() - i,
    {
        wtr.push(frame[i]);
        proof {
            assert(frame@.take(i + 1) =~= frame@.take(i as int).push(frame@[i as int]));
            assert(w0 + frame@.take(i + 1) =~= (w0 + frame@.take(i as int)).push(
                frame@[i as int],
            ));
        }
        i = i + 1;
    }
    proof {
        assert(frame@.take(frame@.len() as int) =~= frame@);
    }
}

/// Decode a container stream back into the payloads it was built from: the
/// compressor is linear under concatenation, so however many frames were
/// appended — at least one — one decode yields their payloads appended.
pub fn decode_stream(bytes: &Vec<u8>) -> (r: Option<Vec<u8>>)
    ensures
        forall|ps: Seq<Seq<u8>>|
            ps.len() > 0 && bytes@ == #[trigger] frames_concat(ps) ==> r is Some
                && r->Some_0@ == payloads_concat(ps),
{
    zstd_decompress(bytes)
}

/// Appending frame streams concatenates both the frame bytes and their
/// payloads: with `decode_stream`'s guarantee, a container built from two
/// runs of appends decodes to the two payload streams appended.
pub proof fn lemma_frames_concat_append(ps1: Seq<Seq<u8>>, ps2: Seq<Seq<u8>>)
    ensures
        frames_concat(ps1 + ps2) == frames_concat(ps1) + frames_concat(ps2),
        payloads_concat(ps1 + ps2) == payloads_concat(ps1) + payloads_concat(ps2),
    decreases ps2.len(),
{
    if ps2.len() == 0 {
        assert(ps1 + ps2 =~= ps1);
        assert(frames_concat(ps1) + frames_concat(ps2) =~= frames_concat(ps1));
        assert(payloads_concat(ps1) + payloads_concat(ps2) =~= payloads_concat(ps1));
    } else {
        lemma_frames_concat_append(ps1, ps2.drop_last());
        assert((ps1 + ps2).drop_last() =~= ps1 + ps2.drop_last());
        assert((ps1 + ps2).last() == ps2.last());
        assert(frames_concat(ps1) + frames_concat(ps2.drop_last()) + zstd_frame(ps2.last())
            =~= frames_concat(ps1) + (frames_concat(ps2.drop_last()) + zstd_frame(ps2.last())));
        assert(payloads_concat(ps1) + payloads_concat(ps2.drop_last()) + ps2.last()
            =~= payloads_concat(ps1) + (payloads_concat(ps2.drop_last()) + ps2.last()));
    }
}

} // verus!
