//! Pattern kernels: singles counting, coincidence counting at a fixed delay,
//! and the coincidence histogram over a delay range.
//!
//! Times are quantised by floor division into windows of `win` device ticks.
//! Two events on channels `a` and `b` form a coincidence at delay `d` when
//! `tb.time / win - ta.time / win == d / win`. All counting functions are
//! specified against `coincidence_count`, so the agreement of the fixed-delay
//! counters with the histogram is a theorem (`lemma_histogram_at_delay`).

use crate::Tag;
use vstd::arithmetic::div_mod::{
    lemma_div_multiples_vanish, lemma_fundamental_div_mod, lemma_fundamental_div_mod_converse,
};
use vstd::prelude::*;

verus! {

/// The window index of time `t` for window size `w`: floor division.
pub open spec fn win_of(t: int, w: int) -> int {
    t / w
}

/// Number of tags on channel `ch`.
pub open spec fn singles_count(tags: Seq<Tag>, ch: u8) -> nat
    decreases tags.len(),
{
    if tags.len() == 0 {
        0
    } else {
        singles_count(tags.drop_last(), ch) + if tags.last().channel == ch {
            1nat
        } else {
            0nat
        }
    }
}

/// Number of tags on channel `ch` whose window index is `qv`.
pub open spec fn count_ch_in_win(tags: Seq<Tag>, ch: u8, w: int, qv: int) -> nat
    decreases tags.len(),
{
    if tags.len() == 0 {
        0
    } else {
        count_ch_in_win(tags.drop_last(), ch, w, qv) + if tags.last().channel == ch && win_of(
            tags.last().time as int,
            w,
        ) == qv {
            1nat
        } else {
            0nat
        }
    }
}

/// Number of pairs `(ta, tb)` with `ta` drawn from `tags`, `tb` drawn from the
/// prefix `bs`, `ta.channel == a`, `tb.channel == b`, and window indices
/// differing by exactly `dq`.
pub open spec fn coinc_pairs_with(tags: Seq<Tag>, bs: Seq<Tag>, a: u8, b: u8, w: int, dq: int) -> nat
    decreases bs.len(),
{
    if bs.len() == 0 {
        0
    } else {
        coinc_pairs_with(tags, bs.drop_last(), a, b, w, dq) + if bs.last().channel == b {
            count_ch_in_win(tags, a, w, win_of(bs.last().time as int, w) - dq)
        } else {
            0nat
        }
    }
}

/// Number of pairs `(ta, tb)` of an `a`-channel tag and a `b`-channel tag in
/// `tags` whose window indices differ by exactly `dq` windows.
pub open spec fn coinc_pairs(tags: Seq<Tag>, a: u8, b: u8, w: int, dq: int) -> nat {
    coinc_pairs_with(tags, tags, a, b, w, dq)
}

/// Number of coincidences between channels `a` and `b` in window `w` at delay
/// `delay`: pairs with `tb.time / w - ta.time / w == delay / w`.
pub open spec fn coincidence_count(tags: Seq<Tag>, a: u8, b: u8, w: int, delay: int) -> nat {
    coinc_pairs(tags, a, b, w, win_of(delay, w))
}

/// The tags of one channel appear in nondecreasing time order. Device
/// buffers are time-sorted as a whole, and adding a delay to one channel
/// keeps each channel's own ordering, which is all the linear sweep needs.
pub open spec fn channel_sorted(tags: Seq<Tag>, ch: u8) -> bool {
    forall|i: int, j: int|
        0 <= i < j < tags.len() && (#[trigger] tags[i]).channel == ch && (#[trigger] tags[j]).channel
            == ch ==> tags[i].time <= tags[j].time
}

/// The whole buffer is in nondecreasing time order, as the device emits it.
pub open spec fn time_sorted(tags: Seq<Tag>) -> bool {
    forall|i: int, j: int|
        0 <= i < j < tags.len() ==> (#[trigger] tags[i]).time <= (#[trigger] tags[j]).time
}

/// A time-sorted buffer is sorted within every channel.
pub proof fn lemma_time_sorted_channels(tags: Seq<Tag>)
    requires
        time_sorted(tags),
    ensures
        forall|ch: u8| #[trigger] channel_sorted(tags, ch),
{
    assert forall|ch: u8| #[trigger] channel_sorted(tags, ch) by {
        assert forall|i: int, j: int|
            0 <= i < j < tags.len() && (#[trigger] tags[i]).channel == ch && (
            #[trigger] tags[j]).channel == ch implies tags[i].time <= tags[j].time by {}
    }
}

/// Number of entries equal to `v` in a list of window indices.
pub open spec fn count_eq(s: Seq<i64>, v: int) -> nat
    decreases s.len(),
{
    if s.len() == 0 {
        0
    } else {
        count_eq(s.drop_last(), v) + if s.last() == v {
            1nat
        } else {
            0nat
        }
    }
}

proof fn lemma_count_eq_le_len(s: Seq<i64>, v: int)
    ensures
        count_eq(s, v) <= s.len(),
    decreases s.len(),
{
    if s.len() > 0 {
        lemma_count_eq_le_len(s.drop_last(), v);
    }
}

proof fn lemma_count_eq_concat(s1: Seq<i64>, s2: Seq<i64>, v: int)
    ensures
        count_eq(s1 + s2, v) == count_eq(s1, v) + count_eq(s2, v),
    decreases s2.len(),
{
    if s2.len() == 0 {
        assert(s1 + s2 =~= s1);
    } else {
        lemma_count_eq_concat(s1, s2.drop_last(), v);
        assert((s1 + s2).drop_last() =~= s1 + s2.drop_last());
        assert((s1 + s2).last() == s2.last());
    }
}

proof fn lemma_count_eq_none(s: Seq<i64>, v: int)
    requires
        forall|t: int| 0 <= t < s.len() ==> #[trigger] s[t] != v,
    ensures
        count_eq(s, v) == 0,
    decreases s.len(),
{
    if s.len() > 0 {
        assert(forall|t: int| 0 <= t < s.len() - 1 ==> s.drop_last()[t] == #[trigger] s[t]);
        lemma_count_eq_none(s.drop_last(), v);
    }
}

proof fn lemma_count_eq_all(s: Seq<i64>, v: int)
    requires
        forall|t: int| 0 <= t < s.len() ==> #[trigger] s[t] == v,
    ensures
        count_eq(s, v) == s.len(),
    decreases s.len(),
{
    if s.len() > 0 {
        assert(forall|t: int| 0 <= t < s.len() - 1 ==> s.drop_last()[t] == #[trigger] s[t]);
        lemma_count_eq_all(s.drop_last(), v);
    }
}

/// The pair count as the sweep accumulates it: for each `b`-channel window
/// index, the number of `a`-channel indices exactly `dq` windows earlier.
pub open spec fn qb_pairs(qa: Seq<i64>, qb: Seq<i64>, dq: int) -> nat
    decreases qb.len(),
{
    if qb.len() == 0 {
        0
    } else {
        qb_pairs(qa, qb.drop_last(), dq) + count_eq(qa, qb.last() - dq)
    }
}

proof fn lemma_qb_pairs_bound(qa: Seq<i64>, qb: Seq<i64>, dq: int)
    ensures
        qb_pairs(qa, qb, dq) <= qb.len() * qa.len(),
    decreases qb.len(),
{
    if qb.len() > 0 {
        lemma_qb_pairs_bound(qa, qb.drop_last(), dq);
        lemma_count_eq_le_len(qa, qb.last() - dq);
        assert((qb.len() - 1) * qa.len() + qa.len() == qb.len() * qa.len()) by (nonlinear_arith);
    }
}

/// Floor division of a time by a positive window size.
///
/// Rust's `/` truncates toward zero; window quantisation floors instead, so
/// that quantisation commutes with shifting by whole windows on the negative
/// side of the epoch as well.
pub fn div_floor(t: i64, w: i64) -> (q: i64)
    requires
        1 <= w,
    ensures
        q == win_of(t as int, w as int),
{
    let qt = t / w;
    let r = t % w;
    proof {
        if t < 0 {
            let u = -(t as int);
            let wi = w as int;
            lemma_fundamental_div_mod(u, wi);
            assert(u == wi * (u / wi) + u % wi);
            if u % wi == 0 {
                assert(t as int == wi * (-(u / wi))) by {
                    assert(u == wi * (u / wi));
                    assert(wi * (-(u / wi)) == -(wi * (u / wi))) by (nonlinear_arith);
                }
                lemma_div_multiples_vanish(-(u / wi), wi);
                assert(t as int / wi == -(u / wi)) by {
                    assert((wi * (-(u / wi))) / wi == -(u / wi));
                }
            } else {
                assert(t as int == (-(u / wi) - 1) * wi + (wi - u % wi)) by {
                    assert((-(u / wi) - 1) * wi == -(wi * (u / wi)) - wi) by (nonlinear_arith);
                }
                lemma_fundamental_div_mod_converse(t as int, wi, -(u / wi) - 1, wi - u % wi);
                assert(t as int / wi == -(u / wi) - 1);
            }
            assert(t as int / wi >= t) by (nonlinear_arith)
                requires
                    t < 0,
                    wi >= 1,
            ;
        }
    }
    if r < 0 {
        qt - 1
    } else {
        qt
    }
}

/// A count of matching tags never exceeds the number of tags.
proof fn lemma_singles_count_le_len(tags: Seq<Tag>, ch: u8)
    ensures
        singles_count(tags, ch) <= tags.len(),
    decreases tags.len(),
{
    if tags.len() > 0 {
        lemma_singles_count_le_len(tags.drop_last(), ch);
    }
}

/// Count number of events in a given channel.
pub fn singles(tags: &Vec<Tag>, ch: u8) -> (n: u64)
    requires
        tags@.len() <= u64::MAX,
    ensures
        n == singles_count(tags@, ch),
{
    let mut n: u64 = 0;
    let mut i: usize = 0;
    while i < tags.len()
        invariant
            0 <= i <= tags@.len() <= u64::MAX,
            n == singles_count(tags@.take(i as int), ch),
        decreases tags@.len() - i,
    {
        proof {
            assert(tags@.take(i + 1).drop_last() =~= tags@.take(i as int));
            lemma_singles_count_le_len(tags@.take(i as int), ch);
        }
        if tags[i].channel == ch {
            n = n + 1;
        }
        i = i + 1;
    }
    proof {
        assert(tags@.take(tags@.len() as int) =~= tags@);
    }
    n
}

/// The window indices of one channel's tags, in order. Under the channel's
/// time ordering the result is nondecreasing, and it holds each window
/// index as often as the channel has tags in that window.
fn channel_windows(tags: &Vec<Tag>, ch: u8, w: i64) -> (q: Vec<i64>)
    requires
        1 <= w,
        channel_sorted(tags@, ch),
    ensures
        forall|u: int, v: int| 0 <= u < v < q@.len() ==> #[trigger] q@[u] <= #[trigger] q@[v],
        forall|qv: int| #[trigger] count_eq(q@, qv) == count_ch_in_win(tags@, ch, w as int, qv),
        q@.len() <= tags@.len(),
{
    let mut q: Vec<i64> = Vec::new();
    let ghost mut idxs: Seq<int> = Seq::empty();
    let mut i: usize = 0;
    let n = tags.len();
    while i < n
        invariant
            0 <= i <= n,
            n == tags@.len(),
            1 <= w,
            channel_sorted(tags@, ch),
            idxs.len() == q@.len(),
            q@.len() <= i,
            forall|u: int|
                0 <= u < idxs.len() ==> 0 <= #[trigger] idxs[u] < i && tags@[idxs[u]].channel == ch
                    && q@[u] == win_of(tags@[idxs[u]].time as int, w as int),
            forall|u: int, v: int| 0 <= u < v < idxs.len() ==> idxs[u] < idxs[v],
            forall|qv: int|
                #[trigger] count_eq(q@, qv) == count_ch_in_win(tags@.take(i as int), ch, w as int, qv),
        decreases n - i,
    {
        let ghost q0 = q@;
        let t = tags[i];
        if t.channel == ch {
            let qq = div_floor(t.time, w);
            q.push(qq);
            proof {
                idxs = idxs.push(i as int);
                assert(q@.drop_last() =~= q0);
                assert(q@.last() == qq);
            }
        }
        proof {
            assert(tags@.take(i + 1).drop_last() =~= tags@.take(i as int));
            assert(tags@.take(i + 1).last() == tags@[i as int]);
            assert forall|qv: int| #[trigger] count_eq(q@, qv) == count_ch_in_win(
                tags@.take(i + 1),
                ch,
                w as int,
                qv,
            ) by {
                if t.channel == ch {
                    assert(count_eq(q@, qv) == count_eq(q0, qv) + if q@.last() == qv {
                        1nat
                    } else {
                        0nat
                    });
                } else {
                    assert(q@ == q0);
                }
            }
        }
        i = i + 1;
    }
    proof {
        assert(tags@.take(n as int) =~= tags@);
        assert forall|u: int, v: int| 0 <= u < v < q@.len() implies #[trigger] q@[u]
            <= #[trigger] q@[v] by {
            assert(idxs[u] < idxs[v]);
            assert(tags@[idxs[u]].time <= tags@[idxs[v]].time);
            vstd::arithmetic::div_mod::lemma_div_is_ordered(
                tags@[idxs[u]].time as int,
                tags@[idxs[v]].time as int,
                w as int,
            );
        }
    }
    q
}

/// Count the coincidence pairs whose window indices differ by exactly `dq`,
/// by a linear sweep: both channels' window indices come out in sorted
/// order, so for each `b` index a pair of pointers brackets the block of
/// equal `a` indices, and neither pointer ever moves backwards.
fn count_pairs_at(tags: &Vec<Tag>, a: u8, b: u8, w: i64, dq: i64) -> (n: u64)
    requires
        1 <= w,
        tags@.len() < 0x1_0000_0000,
        channel_sorted(tags@, a),
        channel_sorted(tags@, b),
    ensures
        n == coinc_pairs(tags@, a, b, w as int, dq as int),
{
    let qa = channel_windows(tags, a, w);

    // Walk the b-channel tags once, so that the pair count over the tag
    // buffer becomes the sweep's sum over b window indices.
    let mut qb: Vec<i64> = Vec::new();
    let ghost mut bidxs: Seq<int> = Seq::empty();
    let mut i: usize = 0;
    let nt = tags.len();
    while i < nt
        invariant
            0 <= i <= nt,
            nt == tags@.len(),
            1 <= w,
            channel_sorted(tags@, b),
            forall|qv: int|
                #[trigger] count_eq(qa@, qv) == count_ch_in_win(tags@, a, w as int, qv),
            bidxs.len() == qb@.len(),
            qb@.len() <= i,
            forall|u: int|
                0 <= u < bidxs.len() ==> 0 <= #[trigger] bidxs[u] < i && tags@[bidxs[u]].channel
                    == b && qb@[u] == win_of(tags@[bidxs[u]].time as int, w as int),
            forall|u: int, v: int| 0 <= u < v < bidxs.len() ==> bidxs[u] < bidxs[v],
            coinc_pairs_with(tags@, tags@.take(i as int), a, b, w as int, dq as int) == qb_pairs(
                qa@,
                qb@,
                dq as int,
            ),
        decreases nt - i,
    {
        let ghost qb0 = qb@;
        let t = tags[i];
        if t.channel == b {
            let qq = div_floor(t.time, w);
            qb.push(qq);
            proof {
                bidxs = bidxs.push(i as int);
                assert(qb@.drop_last() =~= qb0);
                assert(qb@.last() == qq);
                assert(qb_pairs(qa@, qb@, dq as int) == qb_pairs(qa@, qb0, dq as int) + count_eq(
                    qa@,
                    qq - dq,
                ));
            }
        }
        proof {
            assert(tags@.take(i + 1).drop_last() =~= tags@.take(i as int));
            assert(tags@.take(i + 1).last() == tags@[i as int]);
            if t.channel == b {
                assert(count_ch_in_win(tags@, a, w as int, win_of(t.time as int, w as int) - dq)
                    == count_eq(qa@, win_of(t.time as int, w as int) - dq));
            } else {
                assert(qb@ == qb0);
            }
        }
        i = i + 1;
    }
    proof {
        assert(tags@.take(nt as int) =~= tags@);
        assert forall|u: int, v: int| 0 <= u < v < qb@.len() implies #[trigger] qb@[u]
            <= #[trigger] qb@[v] by {
            assert(bidxs[u] < bidxs[v]);
            assert(tags@[bidxs[u]].time <= tags@[bidxs[v]].time);
            vstd::arithmetic::div_mod::lemma_div_is_ordered(
                tags@[bidxs[u]].time as int,
                tags@[bidxs[v]].time as int,
                w as int,
            );
        }
    }

    // Sweep: for each b window index in order, bracket the equal block of
    // a indices with two pointers that only ever advance.
    let na = qa.len();
    let nb = qb.len();
    let mut n: u64 = 0;
    let mut lo: usize = 0;
    let mut hi: usize = 0;
    let mut j: usize = 0;
    while j < nb
        invariant
            0 <= j <= nb,
            na == qa@.len() <= tags@.len() < 0x1_0000_0000,
            nb == qb@.len() <= tags@.len(),
            0 <= lo <= na,
            0 <= hi <= na,
            forall|u: int, v: int| 0 <= u < v < qa@.len() ==> #[trigger] qa@[u] <= #[trigger] qa@[v],
            forall|u: int, v: int| 0 <= u < v < qb@.len() ==> #[trigger] qb@[u] <= #[trigger] qb@[v],
            n == qb_pairs(qa@, qb@.take(j as int), dq as int),
            n <= j * qa@.len(),
            j > 0 ==> (forall|t: int| 0 <= t < lo ==> #[trigger] qa@[t] < qb@[j - 1] - dq),
            j > 0 ==> (forall|t: int| 0 <= t < hi ==> #[trigger] qa@[t] <= qb@[j - 1] - dq),
            j == 0 ==> lo == 0 && hi == 0,
        decreases nb - j,
    {
        let ghost target = qb@[j as int] - dq;
        let tj: i128 = qb[j] as i128 - dq as i128;
        proof {
            assert forall|t: int| 0 <= t < lo implies #[trigger] qa@[t] < target by {
                if j > 0 {
                    assert(qb@[j - 1] <= qb@[j as int]);
                }
            }
            assert forall|t: int| 0 <= t < hi implies #[trigger] qa@[t] <= target by {
                if j > 0 {
                    assert(qb@[j - 1] <= qb@[j as int]);
                }
            }
        }
        while lo < na && (qa[lo] as i128) < tj
            invariant
                0 <= lo <= na == qa@.len(),
                target == qb@[j as int] - dq,
                tj == target,
                forall|t: int| 0 <= t < lo ==> #[trigger] qa@[t] < target,
            decreases na - lo,
        {
            lo = lo + 1;
        }
        if hi < lo {
            hi = lo;
        }
        while hi < na && (qa[hi] as i128) <= tj
            invariant
                0 <= lo <= hi <= na == qa@.len(),
                target == qb@[j as int] - dq,
                tj == target,
                forall|t: int| 0 <= t < hi ==> #[trigger] qa@[t] <= target,
            decreases na - hi,
        {
            hi = hi + 1;
        }
        let c = (hi - lo) as u64;
        proof {
            let qs = qa@;
            assert(qs =~= qs.take(lo as int) + qs.subrange(lo as int, hi as int) + qs.skip(
                hi as int,
            ));
            lemma_count_eq_concat(
                qs.take(lo as int) + qs.subrange(lo as int, hi as int),
                qs.skip(hi as int),
                target,
            );
            lemma_count_eq_concat(
                qs.take(lo as int),
                qs.subrange(lo as int, hi as int),
                target,
            );
            assert(count_eq(qs.take(lo as int), target) == 0) by {
                assert(forall|t: int|
                    0 <= t < lo ==> qs.take(lo as int)[t] == #[trigger] qs[t]);
                lemma_count_eq_none(qs.take(lo as int), target);
            }
            assert(count_eq(qs.subrange(lo as int, hi as int), target) == hi - lo) by {
                assert forall|t: int|
                    0 <= t < hi - lo implies #[trigger] qs.subrange(lo as int, hi as int)[t]
                    == target by {
                    assert(qs.subrange(lo as int, hi as int)[t] == qs[lo + t]);
                    assert(qs[lo + t] <= target);
                    if lo < na {
                        assert(qs[lo as int] <= qs[lo + t] || lo as int == lo + t);
                        assert(qs[lo as int] >= target);
                    }
                }
                lemma_count_eq_all(qs.subrange(lo as int, hi as int), target);
            }
            assert(count_eq(qs.skip(hi as int), target) == 0) by {
                assert forall|t: int|
                    0 <= t < qs.skip(hi as int).len() implies #[trigger] qs.skip(hi as int)[t]
                    != target by {
                    assert(qs.skip(hi as int)[t] == qs[hi + t]);
                    assert(qs[hi as int] <= qs[hi + t]);
                    assert(qs[hi as int] > target);
                }
                lemma_count_eq_none(qs.skip(hi as int), target);
            }
            assert(count_eq(qs, target) == hi - lo);
            assert(qb@.take(j + 1).drop_last() =~= qb@.take(j as int));
            assert(qb@.take(j + 1).last() == qb@[j as int]);
            lemma_qb_pairs_bound(qa@, qb@.take(j as int), dq as int);
            assert(j * qa@.len() + qa@.len() == (j + 1) * qa@.len()) by (nonlinear_arith);
            assert((j + 1) * qa@.len() <= tags@.len() * tags@.len()) by (nonlinear_arith)
                requires
                    j + 1 <= tags@.len(),
                    qa@.len() <= tags@.len(),
            ;
            assert(tags@.len() * tags@.len() < 0x1_0000_0000_0000_0000) by (nonlinear_arith)
                requires
                    tags@.len() < 0x1_0000_0000,
            ;
        }
        n = n + c;
        j = j + 1;
    }
    proof {
        assert(qb@.take(nb as int) =~= qb@);
    }
    n
}

/// Count coincidences using the sorted-set-intersection formulation: pairs of
/// an `a`-channel and a `b`-channel tag whose window indices differ by the
/// window index of `delay`.
pub fn coincidence_intersection(tags: &Vec<Tag>, ch_a: u8, ch_b: u8, win: i64, delay: i64) -> (n:
    u64)
    requires
        1 <= win,
        tags@.len() < 0x1_0000_0000,
        channel_sorted(tags@, ch_a),
        channel_sorted(tags@, ch_b),
    ensures
        n == coincidence_count(tags@, ch_a, ch_b, win as int, delay as int),
{
    let dq = div_floor(delay, win);
    count_pairs_at(tags, ch_a, ch_b, win, dq)
}

/// Count coincidences at a fixed delay.
///
/// The set-intersection counter and the single-bin histogram counter share
/// one specification, `coincidence_count`, so they agree on every input.
pub fn coincidence(tags: &Vec<Tag>, ch_a: u8, ch_b: u8, win: i64, delay: i64) -> (n: u64)
    requires
        1 <= win,
        tags@.len() < 0x1_0000_0000,
        channel_sorted(tags@, ch_a),
        channel_sorted(tags@, ch_b),
    ensures
        n == coincidence_count(tags@, ch_a, ch_b, win as int, delay as int),
{
    coincidence_intersection(tags, ch_a, ch_b, win, delay)
}

/// Count coincidences using the histogram algorithm at a single fixed delay.
pub fn coincidence_histogram_1(tags: &Vec<Tag>, ch_a: u8, ch_b: u8, win: i64, delay: i64) -> (n:
    u64)
    requires
        1 <= win,
        tags@.len() < 0x1_0000_0000,
        channel_sorted(tags@, ch_a),
        channel_sorted(tags@, ch_b),
    ensures
        n == coincidence_count(tags@, ch_a, ch_b, win as int, delay as int),
{
    let dq = div_floor(delay, win);
    count_pairs_at(tags, ch_a, ch_b, win, dq)
}

/// The raw coincidence histogram between `ch_a` and `ch_b` in window `w`, one
/// entry per window-sized delay bin from `min_delay` to `max_delay`: the
/// entry for bin `q` is `(q * w, count of pairs at window distance q)`.
pub open spec fn is_coincidence_histogram(
    hist: Seq<(i64, u64)>,
    tags: Seq<Tag>,
    a: u8,
    b: u8,
    w: int,
    min_delay: int,
    max_delay: int,
) -> bool {
    &&& hist.len() == if min_delay > max_delay {
        0int
    } else {
        win_of(max_delay, w) - win_of(min_delay, w) + 1
    }
    &&& forall|i: int|
        0 <= i < hist.len() ==> (#[trigger] hist[i]).0 == (win_of(min_delay, w) + i) * w
    &&& forall|i: int|
        0 <= i < hist.len() ==> (#[trigger] hist[i]).1 == coinc_pairs(
            tags,
            a,
            b,
            w,
            win_of(min_delay, w) + i,
        )
}

/// Calculate the raw coincidence histogram between `ch_a` and `ch_b` in a
/// given `win`, for delays inclusive of `min_delay` to `max_delay`.
///
/// Bins are keyed by delay in device ticks rounded down to a multiple of the
/// window, ascending; an empty delay range yields an empty histogram.
pub fn coincidence_histogram(
    tags: &Vec<Tag>,
    ch_a: u8,
    ch_b: u8,
    win: i64,
    min_delay: i64,
    max_delay: i64,
) -> (hist: Vec<(i64, u64)>)
    requires
        1 <= win,
        tags@.len() < 0x1_0000_0000,
        channel_sorted(tags@, ch_a),
        channel_sorted(tags@, ch_b),
        win_of(max_delay as int, win as int) - win_of(min_delay as int, win as int) < usize::MAX,
        win_of(max_delay as int, win as int) - win_of(min_delay as int, win as int) < i64::MAX,
        i64::MIN <= win_of(min_delay as int, win as int) * win,
    ensures
        is_coincidence_histogram(
            hist@,
            tags@,
            ch_a,
            ch_b,
            win as int,
            min_delay as int,
            max_delay as int,
        ),
{
    let mut hist: Vec<(i64, u64)> = Vec::new();
    if min_delay > max_delay {
        return hist;
    }
    let min_q = div_floor(min_delay, win);
    let max_q = div_floor(max_delay, win);
    proof {
        vstd::arithmetic::div_mod::lemma_div_is_ordered(min_delay as int, max_delay as int, win as int);
        lemma_fundamental_div_mod(max_delay as int, win as int);
        assert(max_q * win <= max_delay as int) by {
            assert(max_delay as int == (win as int) * (max_q as int) + max_delay as int % (win as int));
        }
    }
    let nbins: usize = ((max_q as i128 - min_q as i128) + 1) as usize;
    let mut i: usize = 0;
    while i < nbins
        invariant
            0 <= i <= nbins,
            1 <= win,
            tags@.len() < 0x1_0000_0000,
            channel_sorted(tags@, ch_a),
            channel_sorted(tags@, ch_b),
            min_q == win_of(min_delay as int, win as int),
            max_q == win_of(max_delay as int, win as int),
            min_q <= max_q,
            nbins == max_q - min_q + 1,
            max_q - min_q < i64::MAX,
            max_q * win <= max_delay,
            i64::MIN <= min_q * win,
            hist@.len() == i,
            forall|k: int| 0 <= k < i ==> (#[trigger] hist@[k]).0 == (min_q + k) * win,
            forall|k: int|
                0 <= k < i ==> (#[trigger] hist@[k]).1 == coinc_pairs(
                    tags@,
                    ch_a,
                    ch_b,
                    win as int,
                    min_q + k,
                ),
        decreases nbins - i,
    {
        let dq: i64 = min_q + i as i64;
        proof {
            assert(min_q <= dq <= max_q);
            vstd::arithmetic::mul::lemma_mul_inequality(min_q as int, dq as int, win as int);
            vstd::arithmetic::mul::lemma_mul_inequality(dq as int, max_q as int, win as int);
            assert(i64::MIN <= (dq as int) * (win as int) <= max_delay as int);
        }
        let key: i64 = (dq as i128 * win as i128) as i64;
        proof {
            assert(key == (min_q + i as int) * win);
        }
        let c = count_pairs_at(tags, ch_a, ch_b, win, dq);
        hist.push((key, c));
        i = i + 1;
    }
    hist
}

/// Agreement of the coincidence counters with the histogram: for every delay
/// `d` inside the histogram's range, the histogram bin holding `d` records
/// exactly `coincidence_count` at `d`.
pub proof fn lemma_histogram_at_delay(
    hist: Seq<(i64, u64)>,
    tags: Seq<Tag>,
    a: u8,
    b: u8,
    w: int,
    min_delay: int,
    max_delay: int,
    d: int,
)
    requires
        1 <= w,
        min_delay <= d <= max_delay,
        is_coincidence_histogram(hist, tags, a, b, w, min_delay, max_delay),
    ensures
        0 <= win_of(d, w) - win_of(min_delay, w) < hist.len(),
        hist[win_of(d, w) - win_of(min_delay, w)].0 == win_of(d, w) * w,
        hist[win_of(d, w) - win_of(min_delay, w)].1 == coincidence_count(tags, a, b, w, d),
{
    vstd::arithmetic::div_mod::lemma_div_is_ordered(min_delay, d, w);
    vstd::arithmetic::div_mod::lemma_div_is_ordered(d, max_delay, w);
    let i = win_of(d, w) - win_of(min_delay, w);
    assert(win_of(min_delay, w) + i == win_of(d, w));
}

/// The tag sequence with every tag on channel `ch` moved later by `delta`
/// device ticks.
pub open spec fn shift_channel(tags: Seq<Tag>, ch: u8, delta: int) -> Seq<Tag> {
    tags.map_values(
        |t: Tag|
            if t.channel == ch {
                Tag { time: (t.time + delta) as i64, channel: t.channel }
            } else {
                t
            },
    )
}

/// All shifted times stay representable.
pub open spec fn shift_in_range(tags: Seq<Tag>, ch: u8, delta: int) -> bool {
    forall|i: int|
        0 <= i < tags.len() && (#[trigger] tags[i]).channel == ch ==> i64::MIN <= tags[i].time
            + delta <= i64::MAX
}

proof fn lemma_count_ch_shift(tags: Seq<Tag>, a: u8, b: u8, w: int, delta: int, qv: int)
    requires
        1 <= w,
        a != b,
    ensures
        count_ch_in_win(shift_channel(tags, b, delta), a, w, qv) == count_ch_in_win(tags, a, w, qv),
    decreases tags.len(),
{
    let shifted = shift_channel(tags, b, delta);
    if tags.len() > 0 {
        lemma_count_ch_shift(tags.drop_last(), a, b, w, delta, qv);
        assert(shifted.drop_last() =~= shift_channel(tags.drop_last(), b, delta));
        assert(shifted.last() == if tags.last().channel == b {
            Tag { time: (tags.last().time + delta) as i64, channel: b }
        } else {
            tags.last()
        });
    }
}

/// Translation invariance of coincidence counting: shifting one channel's
/// times by a whole number of windows shifts every histogram delay by the
/// same amount. The count at delay `d + delta` between `a` and shifted `b`
/// equals the count at delay `d` between `a` and `b`.
pub proof fn lemma_coincidence_translation(
    tags: Seq<Tag>,
    a: u8,
    b: u8,
    w: int,
    d: int,
    delta: int,
)
    requires
        1 <= w,
        a != b,
        delta % w == 0,
        shift_in_range(tags, b, delta),
        i64::MIN <= d + delta <= i64::MAX,
    ensures
        coincidence_count(shift_channel(tags, b, delta), a, b, w, d + delta) == coincidence_count(
            tags,
            a,
            b,
            w,
            d,
        ),
{
    let m = delta / w;
    lemma_fundamental_div_mod(delta, w);
    assert(delta == m * w) by {
        assert(delta == w * (delta / w) + delta % w);
        assert(w * m == m * w) by (nonlinear_arith);
    }
    lemma_win_of_shift(d, w, m);
    lemma_coinc_pairs_shift(tags, tags, a, b, w, win_of(d, w), m);
}

/// Window quantisation commutes with shifts by whole windows.
proof fn lemma_win_of_shift(t: int, w: int, m: int)
    requires
        1 <= w,
    ensures
        win_of(t + m * w, w) == win_of(t, w) + m,
{
    lemma_fundamental_div_mod(t, w);
    assert(t + m * w == (t / w + m) * w + t % w) by {
        assert(t == w * (t / w) + t % w);
        assert((t / w + m) * w == w * (t / w) + m * w) by (nonlinear_arith);
    }
    lemma_fundamental_div_mod_converse(t + m * w, w, t / w + m, t % w);
}

proof fn lemma_coinc_pairs_shift(
    tags: Seq<Tag>,
    bs: Seq<Tag>,
    a: u8,
    b: u8,
    w: int,
    dq: int,
    m: int,
)
    requires
        1 <= w,
        a != b,
        shift_in_range(tags, b, m * w),
        shift_in_range(bs, b, m * w),
    ensures
        coinc_pairs_with(
            shift_channel(tags, b, m * w),
            shift_channel(bs, b, m * w),
            a,
            b,
            w,
            dq + m,
        ) == coinc_pairs_with(tags, bs, a, b, w, dq),
    decreases bs.len(),
{
    let delta = m * w;
    let stags = shift_channel(tags, b, delta);
    let sbs = shift_channel(bs, b, delta);
    if bs.len() > 0 {
        assert(shift_in_range(bs.drop_last(), b, delta));
        lemma_coinc_pairs_shift(tags, bs.drop_last(), a, b, w, dq, m);
        assert(sbs.drop_last() =~= shift_channel(bs.drop_last(), b, delta));
        let t = bs.last();
        if t.channel == b {
            assert(bs[bs.len() - 1].channel == b);
            assert(i64::MIN <= t.time + delta <= i64::MAX);
            assert(sbs.last() == Tag { time: (t.time + delta) as i64, channel: b });
            lemma_win_of_shift(t.time as int, w, m);
            assert(win_of(t.time + delta, w) - (dq + m) == win_of(t.time as int, w) - dq);
            lemma_count_ch_shift(tags, a, b, w, delta, win_of(t.time as int, w) - dq);
        } else {
            assert(sbs.last() == t);
            lemma_count_ch_shift(tags, a, b, w, delta, win_of(t.time as int, w) - dq);
        }
    }
}

} // verus!
