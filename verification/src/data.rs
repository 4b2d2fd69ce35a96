//! Frame types passed along the acquisition pipeline, and batch counting of
//! pattern masks over a tag buffer.
//!
//! The controller emits a `RawData` frame per tick; the processor turns it
//! into a `PubData` frame, attaching the counts of every subscribed pattern
//! in tag mode and forwarding device counts unchanged in logic mode.

use crate::bit;
use crate::pat;
use crate::Tag;
use vstd::prelude::*;

verus! {

/// Window size in device ticks used when a pattern does not request one.
pub const WIN_DEFAULT: u32 = 1;

/// One tick's worth of raw tags.
pub struct RawTags {
    pub dur: u64,
    pub tags: Vec<Tag>,
}

/// One tick's worth of tags with the subscribed pattern counts.
pub struct TagData {
    pub dur: u64,
    pub tags: Vec<Tag>,
    pub counts: Vec<((u16, Option<u32>), u64)>,
}

/// One tick's worth of on-device counts in logic mode.
pub struct LogicData {
    pub dur: u64,
    pub counts: Vec<((u16, Option<u32>), u64)>,
}

/// Frame from the acquisition controller.
pub enum RawData {
    Tags(RawTags),
    Logic(LogicData),
}

/// Frame from the processor to the publisher.
pub enum PubData {
    Tags(TagData),
    Logic(LogicData),
}

/// The tag half of one decoded wire message.
pub struct TagPattern {
    pub tagmask: u16,
    pub duration: u64,
    pub tags: Vec<Tag>,
}

/// One pattern report of a decoded wire message.
#[derive(Clone, Copy, PartialEq, Eq, Structural, Debug)]
pub struct LogicPattern {
    pub patmask: u16,
    pub duration: u64,
    pub count: u64,
}

/// One decoded wire message, as a subscriber receives it.
pub struct StreamData {
    pub tagpat: TagPattern,
    pub pats: Vec<LogicPattern>,
}

/// The window size a pattern entry counts with: its own, or the default.
pub open spec fn eff_win(win: Option<u32>) -> int {
    match win {
        Option::Some(w) => w as int,
        Option::None => WIN_DEFAULT as int,
    }
}

/// A pattern list is countable when no entry requests the invalid window 0.
pub open spec fn wins_valid(pats: Seq<(u16, Option<u32>)>) -> bool {
    forall|i: int| 0 <= i < pats.len() ==> eff_win((#[trigger] pats[i]).1) >= 1
}

/// The count of one pattern over a tag buffer: singles for a weight-1 mask,
/// zero-delay coincidences for a weight-2 mask.
pub open spec fn pattern_count(tags: Seq<Tag>, pat: u16, win: Option<u32>) -> nat {
    if bit::popcount(pat) == 1 {
        pat::singles_count(tags, bit::chans_of_mask(pat)[0])
    } else {
        pat::coincidence_count(
            tags,
            bit::chans_of_mask(pat)[0],
            bit::chans_of_mask(pat)[1],
            eff_win(win),
            0,
        )
    }
}

/// The counts of a pattern list over a tag buffer, in list order. Only
/// weight-1 and weight-2 masks have count kernels; other weights contribute
/// no entry.
pub open spec fn counts_of(tags: Seq<Tag>, pats: Seq<(u16, Option<u32>)>) -> Seq<
    ((u16, Option<u32>), u64),
>
    decreases pats.len(),
{
    if pats.len() == 0 {
        Seq::empty()
    } else {
        counts_of(tags, pats.drop_last()) + if bit::popcount(pats.last().0) == 1 || bit::popcount(
            pats.last().0,
        ) == 2 {
            seq![(pats.last(), pattern_count(tags, pats.last().0, pats.last().1) as u64)]
        } else {
            Seq::empty()
        }
    }
}

/// Calculate the counts in a set of pattern masks.
pub fn count_patterns(tags: &Vec<Tag>, patmasks: &Vec<(u16, Option<u32>)>) -> (hm: Vec<
    ((u16, Option<u32>), u64),
>)
    requires
        tags@.len() < 0x1_0000_0000,
        pat::time_sorted(tags@),
        wins_valid(patmasks@),
    ensures
        hm@ == counts_of(tags@, patmasks@),
{
    let mut hm: Vec<((u16, Option<u32>), u64)> = Vec::new();
    let mut i: usize = 0;
    while i < patmasks.len()
        invariant
            0 <= i <= patmasks@.len(),
            tags@.len() < 0x1_0000_0000,
            pat::time_sorted(tags@),
            wins_valid(patmasks@),
            hm@ == counts_of(tags@, patmasks@.take(i as int)),
        decreases patmasks@.len() - i,
    {
        proof {
            pat::lemma_time_sorted_channels(tags@);
        }
        proof {
            assert(patmasks@.take(i + 1).drop_last() =~= patmasks@.take(i as int));
            assert(patmasks@[i as int] == patmasks@.take(i + 1).last());
        }
        let (pat, win) = patmasks[i];
        let chs = bit::mask_to_chans(pat);
        if chs.len() == 1 {
            let c = pat::singles(tags, chs[0]);
            hm.push(((pat, win), c));
        } else if chs.len() == 2 {
            let w: i64 = match win {
                Some(w) => w as i64,
                None => WIN_DEFAULT as i64,
            };
            let c = pat::coincidence(tags, chs[0], chs[1], w, 0);
            hm.push(((pat, win), c));
        } else {
            proof {
                assert(hm@ + Seq::<((u16, Option<u32>), u64)>::empty() =~= hm@);
            }
        }
        i = i + 1;
    }
    proof {
        assert(patmasks@.take(patmasks@.len() as int) =~= patmasks@);
    }
    hm
}

/// One processing step: in tag mode compute the subscribed pattern counts
/// over the frame's tags; in logic mode forward the frame unchanged.
pub fn process(raw: RawData, cur_patmasks: &Vec<(u16, Option<u32>)>) -> (out: PubData)
    requires
        raw matches RawData::Tags(rt) ==> rt.tags@.len() < 0x1_0000_0000 && pat::time_sorted(
            rt.tags@,
        ),
        wins_valid(cur_patmasks@),
    ensures
        old_raw_tags(raw) matches Option::Some(rt) ==> out matches PubData::Tags(td) && td.dur
            == rt.dur && td.tags == rt.tags && td.counts@ == counts_of(rt.tags@, cur_patmasks@),
        old_raw_logic(raw) matches Option::Some(ld) ==> out matches PubData::Logic(od) && od.dur
            == ld.dur && od.counts == ld.counts,
{
    match raw {
        RawData::Tags(rt) => {
            let counts = count_patterns(&rt.tags, cur_patmasks);
            PubData::Tags(TagData { dur: rt.dur, tags: rt.tags, counts })
        },
        RawData::Logic(ld) => PubData::Logic(ld),
    }
}

/// The tag variant of a raw frame, if that is what it holds.
pub open spec fn old_raw_tags(raw: RawData) -> Option<RawTags> {
    match raw {
        RawData::Tags(rt) => Option::Some(rt),
        RawData::Logic(_) => Option::None,
    }
}

/// The logic variant of a raw frame, if that is what it holds.
pub open spec fn old_raw_logic(raw: RawData) -> Option<LogicData> {
    match raw {
        RawData::Tags(_) => Option::None,
        RawData::Logic(ld) => Option::Some(ld),
    }
}

/// The pattern report entries of one outgoing message: for each of the
/// handle's subscribed patterns, the matching count from the frame, keyed
/// first by exact `(mask, window)` and otherwise by mask alone. Patterns
/// absent from the frame's counts contribute no entry.
pub open spec fn select_counts(
    pats: Seq<(u16, Option<u32>)>,
    counts: Seq<((u16, Option<u32>), u64)>,
) -> Seq<(u16, u64, u32)>
    decreases pats.len(),
{
    if pats.len() == 0 {
        Seq::empty()
    } else {
        select_counts(pats.drop_last(), counts) + match lookup_count(counts, pats.last()) {
            Option::Some(entry) => seq![entry],
            Option::None => Seq::empty(),
        }
    }
}

/// First entry of `counts` at or after `k` whose key matches `pat`, exactly
/// or (failing that anywhere) by mask alone.
pub open spec fn find_exact_from(
    counts: Seq<((u16, Option<u32>), u64)>,
    pat: (u16, Option<u32>),
    k: int,
) -> Option<int>
    decreases counts.len() - k,
{
    if k < 0 || k >= counts.len() {
        Option::None
    } else if counts[k].0 == pat {
        Option::Some(k)
    } else {
        find_exact_from(counts, pat, k + 1)
    }
}

/// First entry of `counts` at or after `k` whose mask matches.
pub open spec fn find_mask_from(
    counts: Seq<((u16, Option<u32>), u64)>,
    mask: u16,
    k: int,
) -> Option<int>
    decreases counts.len() - k,
{
    if k < 0 || k >= counts.len() {
        Option::None
    } else if counts[k].0.0 == mask {
        Option::Some(k)
    } else {
        find_mask_from(counts, mask, k + 1)
    }
}

/// The report entry for one subscribed pattern, if the frame counted it.
pub open spec fn lookup_count(
    counts: Seq<((u16, Option<u32>), u64)>,
    pat: (u16, Option<u32>),
) -> Option<(u16, u64, u32)> {
    match find_exact_from(counts, pat, 0) {
        Option::Some(k) => Option::Some((pat.0, counts[k].1, win_or_default(counts[k].0.1))),
        Option::None => match find_mask_from(counts, pat.0, 0) {
            Option::Some(k) => Option::Some((pat.0, counts[k].1, win_or_default(counts[k].0.1))),
            Option::None => Option::None,
        },
    }
}

/// A window to report on the wire: the entry's own, or the default.
pub open spec fn win_or_default(win: Option<u32>) -> u32 {
    match win {
        Option::Some(w) => w,
        Option::None => WIN_DEFAULT,
    }
}

/// Find the frame count for one subscribed pattern.
fn lookup_count_exec(counts: &Vec<((u16, Option<u32>), u64)>, pat: (u16, Option<u32>)) -> (r:
    Option<(u16, u64, u32)>)
    ensures
        r == lookup_count(counts@, pat),
{
    let mut k: usize = 0;
    while k < counts.len()
        invariant
            0 <= k <= counts@.len(),
            find_exact_from(counts@, pat, 0) == find_exact_from(counts@, pat, k as int),
        decreases counts@.len() - k,
    {
        let (key, c) = counts[k];
        if key.0 == pat.0 && ((key.1.is_none() && pat.1.is_none()) || (key.1.is_some()
            && pat.1.is_some() && key.1.unwrap() == pat.1.unwrap())) {
            let w = match key.1 {
                Some(w) => w,
                None => WIN_DEFAULT,
            };
            return Some((pat.0, c, w));
        }
        k = k + 1;
    }
    let mut k: usize = 0;
    while k < counts.len()
        invariant
            0 <= k <= counts@.len(),
            find_exact_from(counts@, pat, 0) is None,
            find_mask_from(counts@, pat.0, 0) == find_mask_from(counts@, pat.0, k as int),
        decreases counts@.len() - k,
    {
        let (key, c) = counts[k];
        if key.0 == pat.0 {
            let w = match key.1 {
                Some(w) => w,
                None => WIN_DEFAULT,
            };
            return Some((pat.0, c, w));
        }
        k = k + 1;
    }
    None
}

/// Build the pattern report for one subscriber from one frame's counts.
pub fn select_pattern_counts(
    pats: &Vec<(u16, Option<u32>)>,
    counts: &Vec<((u16, Option<u32>), u64)>,
) -> (r: Vec<(u16, u64, u32)>)
    ensures
        r@ == select_counts(pats@, counts@),
{
    let mut r: Vec<(u16, u64, u32)> = Vec::new();
    let mut i: usize = 0;
    while i < pats.len()
        invariant
            0 <= i <= pats@.len(),
            r@ == select_counts(pats@.take(i as int), counts@),
        decreases pats@.len() - i,
    {
        proof {
            assert(pats@.take(i + 1).drop_last() =~= pats@.take(i as int));
            assert(pats@[i as int] == pats@.take(i + 1).last());
        }
        match lookup_count_exec(counts, pats[i]) {
            Some(entry) => {
                r.push(entry);
            },
            None => {
                proof {
                    assert(r@ + Seq::<(u16, u64, u32)>::empty() =~= r@);
                }
            },
        }
        i = i + 1;
    }
    proof {
        assert(pats@.take(pats@.len() as int) =~= pats@);
    }
    r
}

/// The counts of a logic-mode frame: each union pattern's on-device count,
/// keyed with the global window it was measured at.
pub fn logic_counts(raw: &Vec<(u16, u64)>, w: u32) -> (counts: Vec<((u16, Option<u32>), u64)>)
    ensures
        counts@.len() == raw@.len(),
        forall|i: int|
            0 <= i < raw@.len() ==> counts@[i] == (((#[trigger] raw@[i]).0, Option::Some(w)),
            raw@[i].1),
{
    let mut counts: Vec<((u16, Option<u32>), u64)> = Vec::new();
    let mut i: usize = 0;
    while i < raw.len()
        invariant
            0 <= i <= raw@.len(),
            counts@.len() == i,
            forall|t: int|
                0 <= t < i ==> counts@[t] == (((#[trigger] raw@[t]).0, Option::Some(w)),
                raw@[t].1),
        decreases raw@.len() - i,
    {
        let (pat, c) = raw[i];
        counts.push(((pat, Some(w)), c));
        i = i + 1;
    }
    counts
}

} // verus!
