//! Bitmask tools for working with patterns of channels.
//!
//! A pattern mask is a `u16` bitfield: bit `k` set means channel `k + 1` is a
//! member. `chans_to_mask` and `mask_to_chans` convert between masks and
//! ascending channel lists, and `lemma_mask_chans_roundtrip` proves that the
//! composition is the identity on every mask.

use vstd::prelude::*;

verus! {

/// Bit `b` of `m` is set.
pub open spec fn bit16(m: u16, b: u16) -> bool {
    m >> b & 1 == 1
}

/// The mask bit for a channel: bit `ch - 1`.
pub open spec fn chan_bit(ch: u8) -> u16 {
    1u16 << ((ch - 1) as u16)
}

/// Fold of `chan_bit` over a channel list.
pub open spec fn chans_mask(chs: Seq<u8>) -> u16
    decreases chs.len(),
{
    if chs.len() == 0 {
        0u16
    } else {
        chans_mask(chs.drop_last()) | chan_bit(chs.last())
    }
}

/// The ascending channel list of the bits of `m` at positions `b..16`.
pub open spec fn chans_of_mask_from(m: u16, b: u16) -> Seq<u8>
    decreases 16 - b,
{
    if b >= 16 {
        Seq::empty()
    } else if bit16(m, b) {
        seq![(b + 1) as u8] + chans_of_mask_from(m, (b + 1) as u16)
    } else {
        chans_of_mask_from(m, (b + 1) as u16)
    }
}

/// The ascending channel list of all bits of `m`.
pub open spec fn chans_of_mask(m: u16) -> Seq<u8> {
    chans_of_mask_from(m, 0)
}

/// Number of channels in a mask.
pub open spec fn popcount(m: u16) -> nat {
    chans_of_mask(m).len()
}

/// A list of channels valid for a 16-channel device.
pub open spec fn chans_in_range(chs: Seq<u8>) -> bool {
    forall|i: int| 0 <= i < chs.len() ==> 1 <= #[trigger] chs[i] <= 16
}

/// Convert channels into a bitmask.
pub fn chans_to_mask(chs: &Vec<u8>) -> (m: u16)
    requires
        chans_in_range(chs@),
    ensures
        m == chans_mask(chs@),
{
    let mut m: u16 = 0;
    let mut i: usize = 0;
    while i < chs.len()
        invariant
            0 <= i <= chs.len(),
            chans_in_range(chs@),
            m == chans_mask(chs@.take(i as int)),
        decreases chs.len() - i,
    {
        let ch = chs[i];
        proof {
            assert(chs@.take(i + 1).drop_last() =~= chs@.take(i as int));
            assert(chs@.take(i + 1).last() == ch);
        }
        m = m | (1u16 << ((ch - 1) as u16));
        i = i + 1;
    }
    proof {
        assert(chs@.take(chs@.len() as int) =~= chs@);
    }
    m
}

/// Returns all channels in the mask, in ascending order.
pub fn mask_to_chans(m: u16) -> (chs: Vec<u8>)
    ensures
        chs@ == chans_of_mask(m),
{
    let mut chs: Vec<u8> = Vec::new();
    let mut b: u16 = 0;
    while b < 16
        invariant
            0 <= b <= 16,
            chans_of_mask(m) == chs@ + chans_of_mask_from(m, b),
        decreases 16 - b,
    {
        if m >> b & 1 == 1 {
            // Channels are 1-indexed, bits are 0-indexed
            chs.push((b + 1) as u8);
        }
        proof {
            if bit16(m, b) {
                assert(chans_of_mask_from(m, b) =~= seq![(b + 1) as u8] + chans_of_mask_from(
                    m,
                    (b + 1) as u16,
                ));
                assert(chs@ =~= chs@.drop_last() + seq![(b + 1) as u8]);
                assert(chs@.drop_last() + (seq![(b + 1) as u8] + chans_of_mask_from(
                    m,
                    (b + 1) as u16,
                )) =~= chs@ + chans_of_mask_from(m, (b + 1) as u16));
            }
        }
        b = b + 1;
    }
    proof {
        assert(chs@ + chans_of_mask_from(m, 16) =~= chs@);
    }
    chs
}

/// Returns a single channel if the mask has only one channel.
pub fn mask_to_single(m: u16) -> (r: Option<u8>)
    ensures
        r is Some <==> popcount(m) == 1,
        r matches Some(ch) ==> ch == chans_of_mask(m)[0],
{
    let v = mask_to_chans(m);
    if v.len() == 1 {
        Some(v[0])
    } else {
        None
    }
}

/// Returns a pair of channels if the mask has only two channels.
pub fn mask_to_pair(m: u16) -> (r: Option<(u8, u8)>)
    ensures
        r is Some <==> popcount(m) == 2,
        r matches Some(p) ==> p.0 == chans_of_mask(m)[0] && p.1 == chans_of_mask(m)[1],
{
    let v = mask_to_chans(m);
    if v.len() == 2 {
        Some((v[0], v[1]))
    } else {
        None
    }
}

/// Every channel produced by `chans_of_mask_from` lies in `b + 1 ..= 16`, the
/// list is strictly ascending, and membership matches the bits of `m`.
pub proof fn lemma_chans_of_mask_from(m: u16, b: u16)
    requires
        b <= 16,
    ensures
        forall|ch: u8|
            #[trigger] chans_of_mask_from(m, b).contains(ch) <==> (b + 1 <= ch <= 16 && bit16(
                m,
                (ch - 1) as u16,
            )),
        forall|i: int, j: int|
            0 <= i < j < chans_of_mask_from(m, b).len() ==> chans_of_mask_from(m, b)[i]
                < chans_of_mask_from(m, b)[j],
    decreases 16 - b,
{
    if b < 16 {
        lemma_chans_of_mask_from(m, (b + 1) as u16);
        let rest = chans_of_mask_from(m, (b + 1) as u16);
        if bit16(m, b) {
            let s = chans_of_mask_from(m, b);
            assert(s == seq![(b + 1) as u8] + rest);
            assert forall|ch: u8| #[trigger]
                s.contains(ch) <==> (ch == (b + 1) as u8 || rest.contains(ch)) by {
                assert(s[0] == (b + 1) as u8);
                assert(forall|i: int| 0 <= i < rest.len() ==> s[i + 1] == #[trigger] rest[i]);
                if s.contains(ch) {
                    let i = choose|i: int| 0 <= i < s.len() && s[i] == ch;
                    if i > 0 {
                        assert(rest[i - 1] == ch);
                        assert(rest.contains(ch));
                    }
                }
                if rest.contains(ch) {
                    let i = choose|i: int| 0 <= i < rest.len() && rest[i] == ch;
                    assert(s[i + 1] == ch);
                }
            }
            assert(forall|i: int, j: int| 0 <= i < j < s.len() ==> s[i] < s[j]) by {
                assert(forall|j: int|
                    1 <= j < s.len() ==> rest.contains(#[trigger] s[j]) && s[j] == rest[j - 1]);
            }
        }
    }
}

/// Bit `k` of a fold of channel bits is set exactly when some listed channel
/// owns that bit.
pub proof fn lemma_chans_mask_bits(chs: Seq<u8>)
    requires
        chans_in_range(chs),
    ensures
        forall|k: u16| k < 16 ==> (#[trigger] bit16(chans_mask(chs), k) <==> chs.contains((k + 1) as u8)),
    decreases chs.len(),
{
    if chs.len() == 0 {
        assert(forall|k: u16| k < 16 ==> !bit16(0u16, k)) by {
            assert(forall|k: u16| k < 16 ==> 0u16 >> k & 1 == 0) by (bit_vector);
        }
    } else {
        let head = chs.drop_last();
        let ch = chs.last();
        lemma_chans_mask_bits(head);
        let x = chans_mask(head);
        let c = (ch - 1) as u16;
        assert forall|k: u16| k < 16 implies (#[trigger] bit16(x | (1u16 << c), k) <==> (bit16(x, k)
            || k == c)) by {
            assert((x | (1u16 << c)) >> k & 1 == 1 <==> (x >> k & 1 == 1 || k == c))
                by (bit_vector)
                requires
                    c < 16,
                    k < 16,
            ;
        }
        assert forall|k: u16|
            k < 16 implies (#[trigger] chs.contains((k + 1) as u8) <==> (head.contains((k + 1) as u8)
            || (k + 1) == ch)) by {
            assert(forall|v: u8| #[trigger]
                head.contains(v) ==> exists|i: int| 0 <= i < head.len() && chs[i] == v);
            assert(chs.contains(ch));
            assert(forall|v: u8| #[trigger]
                chs.contains(v) && v != ch ==> head.contains(v)) by {
                assert(forall|i: int|
                    0 <= i < chs.len() - 1 && #[trigger] chs[i] != ch ==> head[i] == chs[i]);
            }
        }
    }
}

/// Two masks with the same 16 bits are equal.
proof fn lemma_u16_bit_ext(x: u16, y: u16)
    requires
        forall|k: u16| k < 16 ==> (#[trigger] bit16(x, k) <==> #[trigger] bit16(y, k)),
    ensures
        x == y,
{
    assert(bit16(x, 0) == bit16(y, 0) && bit16(x, 1) == bit16(y, 1) && bit16(x, 2) == bit16(y, 2)
        && bit16(x, 3) == bit16(y, 3) && bit16(x, 4) == bit16(y, 4) && bit16(x, 5) == bit16(y, 5)
        && bit16(x, 6) == bit16(y, 6) && bit16(x, 7) == bit16(y, 7) && bit16(x, 8) == bit16(y, 8)
        && bit16(x, 9) == bit16(y, 9) && bit16(x, 10) == bit16(y, 10) && bit16(x, 11) == bit16(
        y,
        11,
    ) && bit16(x, 12) == bit16(y, 12) && bit16(x, 13) == bit16(y, 13) && bit16(x, 14) == bit16(
        y,
        14,
    ) && bit16(x, 15) == bit16(y, 15));
    assert(x == y) by (bit_vector)
        requires
            (x >> 0u16 & 1 == 1) == (y >> 0u16 & 1 == 1),
            (x >> 1u16 & 1 == 1) == (y >> 1u16 & 1 == 1),
            (x >> 2u16 & 1 == 1) == (y >> 2u16 & 1 == 1),
            (x >> 3u16 & 1 == 1) == (y >> 3u16 & 1 == 1),
            (x >> 4u16 & 1 == 1) == (y >> 4u16 & 1 == 1),
            (x >> 5u16 & 1 == 1) == (y >> 5u16 & 1 == 1),
            (x >> 6u16 & 1 == 1) == (y >> 6u16 & 1 == 1),
            (x >> 7u16 & 1 == 1) == (y >> 7u16 & 1 == 1),
            (x >> 8u16 & 1 == 1) == (y >> 8u16 & 1 == 1),
            (x >> 9u16 & 1 == 1) == (y >> 9u16 & 1 == 1),
            (x >> 10u16 & 1 == 1) == (y >> 10u16 & 1 == 1),
            (x >> 11u16 & 1 == 1) == (y >> 11u16 & 1 == 1),
            (x >> 12u16 & 1 == 1) == (y >> 12u16 & 1 == 1),
            (x >> 13u16 & 1 == 1) == (y >> 13u16 & 1 == 1),
            (x >> 14u16 & 1 == 1) == (y >> 14u16 & 1 == 1),
            (x >> 15u16 & 1 == 1) == (y >> 15u16 & 1 == 1),
    ;
}

/// Converting a mask to its channel list and back yields the mask again, for
/// every `u16` mask.
pub proof fn lemma_mask_chans_roundtrip(m: u16)
    ensures
        chans_mask(chans_of_mask(m)) == m,
{
    let chs = chans_of_mask(m);
    lemma_chans_of_mask_from(m, 0);
    assert(chans_in_range(chs)) by {
        assert(forall|i: int| 0 <= i < chs.len() ==> chs.contains(#[trigger] chs[i]));
    }
    lemma_chans_mask_bits(chs);
    assert forall|k: u16| k < 16 implies (#[trigger] bit16(chans_mask(chs), k) <==> #[trigger]
        bit16(m, k)) by {
        assert(chs.contains((k + 1) as u8) <==> bit16(m, k));
    }
    lemma_u16_bit_ext(chans_mask(chs), m);
}

/// Bitwise set/clear/toggle/check/change operations for unsigned integers.
///
/// Each implementing type gives the operations an exact meaning through its
/// spec functions, so callers reason about the results by value.
pub trait BitOps: Sized + Copy {
    /// Number of bits in the type.
    spec fn bit_width() -> nat;

    /// The value with bit `b` set.
    spec fn set_spec(self, b: usize) -> Self;

    /// The value with bit `b` cleared.
    spec fn clear_spec(self, b: usize) -> Self;

    /// The value with bit `b` flipped.
    spec fn toggle_spec(self, b: usize) -> Self;

    /// The value with bit `b` forced to `x`.
    spec fn change_spec(self, b: usize, x: bool) -> Self;

    /// Whether bit `b` is set.
    spec fn check_spec(self, b: usize) -> bool;

    fn set(&mut self, b: usize)
        requires
            b < Self::bit_width(),
        ensures
            *final(self) == old(self).set_spec(b),
    ;

    fn clear(&mut self, b: usize)
        requires
            b < Self::bit_width(),
        ensures
            *final(self) == old(self).clear_spec(b),
    ;

    fn toggle(&mut self, b: usize)
        requires
            b < Self::bit_width(),
        ensures
            *final(self) == old(self).toggle_spec(b),
    ;

    fn change(&mut self, b: usize, x: bool)
        requires
            b < Self::bit_width(),
        ensures
            *final(self) == old(self).change_spec(b, x),
    ;

    fn check(self, b: usize) -> (r: bool)
        requires
            b < Self::bit_width(),
        ensures
            r == self.check_spec(b),
    ;
}

impl BitOps for u8 {
    open spec fn bit_width() -> nat {
        8
    }

    open spec fn set_spec(self, b: usize) -> u8 {
        self | (1u8 << b)
    }

    open spec fn clear_spec(self, b: usize) -> u8 {
        self & !(1u8 << b)
    }

    open spec fn toggle_spec(self, b: usize) -> u8 {
        self ^ (1u8 << b)
    }

    open spec fn change_spec(self, b: usize, x: bool) -> u8 {
        (self & !(1u8 << b)) | ((x as u8) << b)
    }

    open spec fn check_spec(self, b: usize) -> bool {
        self >> b & 1 == 1
    }

    #[inline]
    fn set(&mut self, b: usize) {
        *self |= 1 << b;
    }

    #[inline]
    fn clear(&mut self, b: usize) {
        *self &= !(1 << b);
    }

    #[inline]
    fn toggle(&mut self, b: usize) {
        *self ^= 1 << b;
    }

    #[inline]
    fn change(&mut self, b: usize, x: bool) {
        *self = (*self & !(1 << b)) | ((x as u8) << b);
    }

    #[inline]
    fn check(self, b: usize) -> bool {
        return self >> b & 1 == 1;
    }
}

impl BitOps for u16 {
    open spec fn bit_width() -> nat {
        16
    }

    open spec fn set_spec(self, b: usize) -> u16 {
        self | (1u16 << b)
    }

    open spec fn clear_spec(self, b: usize) -> u16 {
        self & !(1u16 << b)
    }

    open spec fn toggle_spec(self, b: usize) -> u16 {
        self ^ (1u16 << b)
    }

    open spec fn change_spec(self, b: usize, x: bool) -> u16 {
        (self & !(1u16 << b)) | ((x as u16) << b)
    }

    open spec fn check_spec(self, b: usize) -> bool {
        self >> b & 1 == 1
    }

    #[inline]
    fn set(&mut self, b: usize) {
        *self |= 1 << b;
    }

    #[inline]
    fn clear(&mut self, b: usize) {
        *self &= !(1 << b);
    }

    #[inline]
    fn toggle(&mut self, b: usize) {
        *self ^= 1 << b;
    }

    #[inline]
    fn change(&mut self, b: usize, x: bool) {
        *self = (*self & !(1 << b)) | ((x as u16) << b);
    }

    #[inline]
    fn check(self, b: usize) -> bool {
        return self >> b & 1 == 1;
    }
}

impl BitOps for u32 {
    open spec fn bit_width() -> nat {
        32
    }

    open spec fn set_spec(self, b: usize) -> u32 {
        self | (1u32 << b)
    }

    open spec fn clear_spec(self, b: usize) -> u32 {
        self & !(1u32 << b)
    }

    open spec fn toggle_spec(self, b: usize) -> u32 {
        self ^ (1u32 << b)
    }

    open spec fn change_spec(self, b: usize, x: bool) -> u32 {
        (self & !(1u32 << b)) | ((x as u32) << b)
    }

    open spec fn check_spec(self, b: usize) -> bool {
        self >> b & 1 == 1
    }

    #[inline]
    fn set(&mut self, b: usize) {
        *self |= 1 << b;
    }

    #[inline]
    fn clear(&mut self, b: usize) {
        *self &= !(1 << b);
    }

    #[inline]
    fn toggle(&mut self, b: usize) {
        *self ^= 1 << b;
    }

    #[inline]
    fn change(&mut self, b: usize, x: bool) {
        *self = (*self & !(1 << b)) | ((x as u32) << b);
    }

    #[inline]
    fn check(self, b: usize) -> bool {
        return self >> b & 1 == 1;
    }
}

impl BitOps for u64 {
    open spec fn bit_width() -> nat {
        64
    }

    open spec fn set_spec(self, b: usize) -> u64 {
        self | (1u64 << b)
    }

    open spec fn clear_spec(self, b: usize) -> u64 {
        self & !(1u64 << b)
    }

    open spec fn toggle_spec(self, b: usize) -> u64 {
        self ^ (1u64 << b)
    }

    open spec fn change_spec(self, b: usize, x: bool) -> u64 {
        (self & !(1u64 << b)) | ((x as u64) << b)
    }

    open spec fn check_spec(self, b: usize) -> bool {
        self >> b & 1 == 1
    }

    #[inline]
    fn set(&mut self, b: usize) {
        *self |= 1 << b;
    }

    #[inline]
    fn clear(&mut self, b: usize) {
        *self &= !(1 << b);
    }

    #[inline]
    fn toggle(&mut self, b: usize) {
        *self ^= 1 << b;
    }

    #[inline]
    fn change(&mut self, b: usize, x: bool) {
        *self = (*self & !(1 << b)) | ((x as u64) << b);
    }

    #[inline]
    fn check(self, b: usize) -> bool {
        return self >> b & 1 == 1;
    }
}

impl BitOps for u128 {
    open spec fn bit_width() -> nat {
        128
    }

    open spec fn set_spec(self, b: usize) -> u128 {
        self | (1u128 << b)
    }

    open spec fn clear_spec(self, b: usize) -> u128 {
        self & !(1u128 << b)
    }

    open spec fn toggle_spec(self, b: usize) -> u128 {
        self ^ (1u128 << b)
    }

    open spec fn change_spec(self, b: usize, x: bool) -> u128 {
        (self & !(1u128 << b)) | ((x as u128) << b)
    }

    open spec fn check_spec(self, b: usize) -> bool {
        self >> b & 1 == 1
    }

    #[inline]
    fn set(&mut self, b: usize) {
        *self |= 1 << b;
    }

    #[inline]
    fn clear(&mut self, b: usize) {
        *self &= !(1 << b);
    }

    #[inline]
    fn toggle(&mut self, b: usize) {
        *self ^= 1 << b;
    }

    #[inline]
    fn change(&mut self, b: usize, x: bool) {
        *self = (*self & !(1 << b)) | ((x as u128) << b);
    }

    #[inline]
    fn check(self, b: usize) -> bool {
        return self >> b & 1 == 1;
    }
}

} // verus!
