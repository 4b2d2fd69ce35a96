//! The subscriber registry: handles keyed by id, per-subscriber push
//! credits, and the union masks that drive the acquisition pipeline.
//!
//! The registry's well-formedness carries the union-mask property: the
//! union tagmask is the bitwise OR of every subscriber's tagmask, and the
//! union pattern list holds exactly the patterns some subscriber asked for,
//! each once. Flow control is a small credit per subscriber: a push may
//! begin only below `PUSH_CREDIT` credits in flight, so a subscriber that
//! never completes its pushes is skipped after `PUSH_CREDIT` frames while
//! every other subscriber is untouched (`lemma_flow_control`).

use vstd::prelude::*;

verus! {

/// The most pushes one subscriber may have in flight.
pub const PUSH_CREDIT: i32 = 5;

/// One subscriber's registry entry.
pub struct SubscriberHandle {
    /// Pushes issued to this subscriber and not yet resolved.
    pub requests_in_flight: i32,
    /// Channels whose raw tags the subscriber wants.
    pub tagmask: u16,
    /// Patterns the subscriber wants counted, each with an optional window.
    pub patmasks: Vec<(u16, Option<u32>)>,
}

/// Ghost mirror of a handle.
#[verifier::ext_equal]
pub struct HandleModel {
    pub requests_in_flight: i32,
    pub tagmask: u16,
    pub patmasks: Seq<(u16, Option<u32>)>,
}

impl View for SubscriberHandle {
    type V = HandleModel;

    open spec fn view(&self) -> HandleModel {
        HandleModel {
            requests_in_flight: self.requests_in_flight,
            tagmask: self.tagmask,
            patmasks: self.patmasks@,
        }
    }
}

/// Ghost mirror of the registry.
#[verifier::ext_equal]
pub struct MapModel {
    pub subscribers: Seq<(u64, HandleModel)>,
    pub next_id: u64,
    pub cur_tagmask: u16,
    pub cur_patmasks: Seq<(u16, Option<u32>)>,
}

/// The subscriber registry with its union-mask state.
pub struct SubscriberMap {
    pub subscribers: Vec<(u64, SubscriberHandle)>,
    pub next_id: u64,
    pub cur_tagmask: u16,
    pub cur_patmasks: Vec<(u16, Option<u32>)>,
}

impl View for SubscriberMap {
    type V = MapModel;

    open spec fn view(&self) -> MapModel {
        MapModel {
            subscribers: self.subscribers@.map_values(
                |p: (u64, SubscriberHandle)| (p.0, p.1@),
            ),
            next_id: self.next_id,
            cur_tagmask: self.cur_tagmask,
            cur_patmasks: self.cur_patmasks@,
        }
    }
}

/// First entry at or after `k` holding the id.
pub open spec fn find_sub_from(s: Seq<(u64, HandleModel)>, id: u64, k: int) -> Option<int>
    decreases s.len() - k,
{
    if k < 0 || k >= s.len() {
        Option::None
    } else if s[k].0 == id {
        Option::Some(k)
    } else {
        find_sub_from(s, id, k + 1)
    }
}

pub open spec fn sub_has(s: Seq<(u64, HandleModel)>, id: u64) -> bool {
    find_sub_from(s, id, 0) is Some
}

/// The handle registered under an id, if any.
pub open spec fn sub_lookup(s: Seq<(u64, HandleModel)>, id: u64) -> Option<HandleModel> {
    match find_sub_from(s, id, 0) {
        Option::Some(k) => Option::Some(s[k].1),
        Option::None => Option::None,
    }
}

pub open spec fn sub_distinct(s: Seq<(u64, HandleModel)>) -> bool {
    forall|i: int, j: int| 0 <= i < j < s.len() ==> (#[trigger] s[i]).0 != (#[trigger] s[j]).0
}

/// The bitwise OR of all subscribers' tagmasks.
pub open spec fn or_all(s: Seq<(u64, HandleModel)>) -> u16
    decreases s.len(),
{
    if s.len() == 0 {
        0u16
    } else {
        or_all(s.drop_last()) | s.last().1.tagmask
    }
}

/// Some subscriber asked for this pattern entry.
pub open spec fn in_union(s: Seq<(u64, HandleModel)>, pm: (u16, Option<u32>)) -> bool {
    exists|k: int, i: int|
        0 <= k < s.len() && 0 <= i < s[k].1.patmasks.len() && #[trigger] s[k].1.patmasks[i] == pm
}

pub open spec fn pats_distinct(ps: Seq<(u16, Option<u32>)>) -> bool {
    forall|i: int, j: int| 0 <= i < j < ps.len() ==> #[trigger] ps[i] != #[trigger] ps[j]
}

/// Well-formedness of the registry. The union-mask consistency — the union
/// tagmask is the OR of all tagmasks and the union pattern list is exactly
/// the set union of all subscribed patterns — is part of it, so every
/// registry operation preserves it.
pub open spec fn map_wf(m: MapModel) -> bool {
    &&& sub_distinct(m.subscribers)
    &&& forall|k: int|
        0 <= k < m.subscribers.len() ==> 0 <= (#[trigger] m.subscribers[k]).1.requests_in_flight
            <= PUSH_CREDIT
    &&& forall|k: int| 0 <= k < m.subscribers.len() ==> (#[trigger] m.subscribers[k]).0 < m.next_id
    &&& m.cur_tagmask == or_all(m.subscribers)
    &&& pats_distinct(m.cur_patmasks)
    &&& forall|pm: (u16, Option<u32>)|
        #[trigger] m.cur_patmasks.contains(pm) <==> in_union(m.subscribers, pm)
}

impl SubscriberMap {
    pub fn new() -> (m: SubscriberMap)
        ensures
            m@.subscribers =~= Seq::<(u64, HandleModel)>::empty(),
            m@.next_id == 0,
            map_wf(m@),
    {
        let m = SubscriberMap {
            subscribers: Vec::new(),
            next_id: 0,
            cur_tagmask: 0,
            cur_patmasks: Vec::new(),
        };
        proof {
            assert(m@.subscribers =~= Seq::<(u64, HandleModel)>::empty());
            assert(forall|pm: (u16, Option<u32>)| !(#[trigger] m@.cur_patmasks.contains(pm)));
            assert(forall|pm: (u16, Option<u32>)| !in_union(m@.subscribers, pm));
        }
        m
    }
}

/// Compare two pattern entries.
fn pat_entry_eq(a: (u16, Option<u32>), b: (u16, Option<u32>)) -> (r: bool)
    ensures
        r == (a == b),
{
    if a.0 != b.0 {
        return false;
    }
    match (a.1, b.1) {
        (None, None) => true,
        (Some(x), Some(y)) => x == y,
        _ => false,
    }
}

/// Whether a pattern entry is already listed.
fn pats_contain(ps: &Vec<(u16, Option<u32>)>, pm: (u16, Option<u32>)) -> (r: bool)
    ensures
        r == ps@.contains(pm),
{
    let mut k: usize = 0;
    while k < ps.len()
        invariant
            0 <= k <= ps@.len(),
            forall|t: int| 0 <= t < k ==> #[trigger] ps@[t] != pm,
        decreases ps@.len() - k,
    {
        if pat_entry_eq(ps[k], pm) {
            return true;
        }
        k = k + 1;
    }
    false
}

/// The patterns of the first `n` subscribers that the union must hold.
pub open spec fn in_union_upto(s: Seq<(u64, HandleModel)>, n: int, pm: (u16, Option<u32>)) -> bool {
    exists|k: int, i: int|
        0 <= k < n && 0 <= i < s[k].1.patmasks.len() && #[trigger] s[k].1.patmasks[i] == pm
}

/// Rebuild the union masks from the current subscribers.
pub fn update_masks(m: &mut SubscriberMap)
    ensures
        final(m)@.subscribers == old(m)@.subscribers,
        final(m)@.next_id == old(m)@.next_id,
        final(m)@.cur_tagmask == or_all(old(m)@.subscribers),
        pats_distinct(final(m)@.cur_patmasks),
        forall|pm: (u16, Option<u32>)|
            #[trigger] final(m)@.cur_patmasks.contains(pm) <==> in_union(old(m)@.subscribers, pm),
{
    let ghost subs = m@.subscribers;
    let mut tagmask: u16 = 0;
    let mut pats: Vec<(u16, Option<u32>)> = Vec::new();
    let n = m.subscribers.len();
    let mut k: usize = 0;
    while k < n
        invariant
            0 <= k <= n,
            n == m.subscribers@.len(),
            subs == m@.subscribers,
            tagmask == or_all(subs.take(k as int)),
            pats_distinct(pats@),
            forall|pm: (u16, Option<u32>)|
                #[trigger] pats@.contains(pm) <==> in_union_upto(subs, k as int, pm),
        decreases n - k,
    {
        proof {
            assert(subs.take(k + 1).drop_last() =~= subs.take(k as int));
            assert(subs.take(k + 1).last() == subs[k as int]);
        }
        tagmask = tagmask | m.subscribers[k].1.tagmask;
        let plen = m.subscribers[k].1.patmasks.len();
        let mut i: usize = 0;
        while i < plen
            invariant
                0 <= i <= plen,
                0 <= k < n == m.subscribers@.len(),
                subs == m@.subscribers,
                plen == subs[k as int].1.patmasks.len(),
                pats_distinct(pats@),
                forall|pm: (u16, Option<u32>)|
                    #[trigger] pats@.contains(pm) <==> (in_union_upto(subs, k as int, pm) || (
                    exists|t: int|
                        0 <= t < i && subs[k as int].1.patmasks[t] == pm)),
            decreases plen - i,
        {
            let pm = m.subscribers[k].1.patmasks[i];
            proof {
                assert(pm == subs[k as int].1.patmasks[i as int]);
            }
            let present = pats_contain(&pats, pm);
            if !present {
                let ghost pats0 = pats@;
                pats.push(pm);
                proof {
                    assert(pats@ =~= pats0.push(pm));
                    assert forall|q: (u16, Option<u32>)| #[trigger] pats@.contains(q) implies (
                    pats0.contains(q) || q == pm) by {
                        let t = choose|t: int| 0 <= t < pats@.len() && pats@[t] == q;
                        if t < pats0.len() {
                            assert(pats0[t] == q);
                        }
                    }
                    assert forall|q: (u16, Option<u32>)| pats0.contains(q) implies #[trigger] pats@
                        .contains(q) by {
                        let t = choose|t: int| 0 <= t < pats0.len() && pats0[t] == q;
                        assert(pats@[t] == q);
                    }
                    assert(pats@.contains(pm)) by {
                        assert(pats@[pats0.len() as int] == pm);
                    }
                }
            }
            i = i + 1;
        }
        proof {
            assert forall|pm: (u16, Option<u32>)| #[trigger] pats@.contains(pm) implies
                in_union_upto(subs, k + 1, pm) by {
                if in_union_upto(subs, k as int, pm) {
                    let (kk, ii) = choose|kk: int, ii: int|
                        0 <= kk < k && 0 <= ii < subs[kk].1.patmasks.len()
                            && #[trigger] subs[kk].1.patmasks[ii] == pm;
                    assert(0 <= kk < k + 1 && 0 <= ii < subs[kk].1.patmasks.len()
                        && subs[kk].1.patmasks[ii] == pm);
                } else {
                    let t = choose|t: int|
                        0 <= t < plen && subs[k as int].1.patmasks[t] == pm;
                    assert(0 <= k < k + 1 && 0 <= t < subs[k as int].1.patmasks.len()
                        && subs[k as int].1.patmasks[t] == pm);
                }
            }
            assert forall|pm: (u16, Option<u32>)| in_union_upto(subs, k + 1, pm) implies
                #[trigger] pats@.contains(pm) by {
                let (kk, ii) = choose|kk: int, ii: int|
                    0 <= kk < k + 1 && 0 <= ii < subs[kk].1.patmasks.len()
                        && #[trigger] subs[kk].1.patmasks[ii] == pm;
                if kk < k {
                    assert(in_union_upto(subs, k as int, pm));
                }
            }
        }
        k = k + 1;
    }
    proof {
        assert(subs.take(n as int) =~= subs);
        assert forall|pm: (u16, Option<u32>)| in_union_upto(subs, n as int, pm) == in_union(
            subs,
            pm,
        ) by {}
    }
    m.cur_tagmask = tagmask;
    m.cur_patmasks = pats;
}

/// Register a subscriber: a fresh monotonically increasing id, zero pushes
/// in flight, and the union masks rebuilt.
pub fn subscribe(m: &mut SubscriberMap, tagmask: u16, patmasks: Vec<(u16, Option<u32>)>) -> (id:
    u64)
    requires
        map_wf(old(m)@),
        old(m)@.next_id < u64::MAX,
    ensures
        map_wf(final(m)@),
        id == old(m)@.next_id,
        final(m)@.next_id == old(m)@.next_id + 1,
        final(m)@.subscribers == old(m)@.subscribers.push(
            (id, (HandleModel { requests_in_flight: 0, tagmask, patmasks: patmasks@ })),
        ),
{
    let ghost m0 = m@;
    let id = m.next_id;
    let handle = SubscriberHandle { requests_in_flight: 0, tagmask, patmasks };
    let ghost hv = handle@;
    m.subscribers.push((id, handle));
    m.next_id = m.next_id + 1;
    proof {
        assert(m@.subscribers =~= m0.subscribers.push((id, hv)));
        assert(sub_distinct(m@.subscribers)) by {
            assert forall|i: int, j: int|
                0 <= i < j < m@.subscribers.len() implies (#[trigger] m@.subscribers[i]).0 != (
            #[trigger] m@.subscribers[j]).0 by {
                if j == m@.subscribers.len() - 1 {
                    assert(m@.subscribers[i] == m0.subscribers[i]);
                    assert(m0.subscribers[i].0 < id);
                }
            }
        }
    }
    update_masks(m);
    proof {
        assert(map_wf(m@)) by {
            assert(forall|k: int|
                0 <= k < m@.subscribers.len() ==> 0 <= (
                #[trigger] m@.subscribers[k]).1.requests_in_flight <= PUSH_CREDIT) by {
                assert(forall|k: int|
                    0 <= k < m0.subscribers.len() ==> m@.subscribers[k] == #[trigger] m0.subscribers[k]);
            }
            assert(forall|k: int|
                0 <= k < m@.subscribers.len() ==> (#[trigger] m@.subscribers[k]).0 < m@.next_id) by {
                assert(forall|k: int|
                    0 <= k < m0.subscribers.len() ==> m@.subscribers[k] == #[trigger] m0.subscribers[k]);
            }
        }
    }
    id
}

/// Remove a subscriber — its subscription was released or a push to it
/// failed — and rebuild the union masks. Unknown ids leave the registry
/// unchanged but for a rebuild of its union masks.
pub fn unsubscribe(m: &mut SubscriberMap, id: u64)
    requires
        map_wf(old(m)@),
    ensures
        map_wf(final(m)@),
        final(m)@.next_id == old(m)@.next_id,
        sub_has(old(m)@.subscribers, id) ==> final(m)@.subscribers == old(m)@.subscribers.remove(
            find_sub_from(old(m)@.subscribers, id, 0)->Some_0,
        ) && !sub_has(final(m)@.subscribers, id),
        !sub_has(old(m)@.subscribers, id) ==> final(m)@.subscribers == old(m)@.subscribers,
        forall|x: u64|
            x != id ==> #[trigger] sub_lookup(final(m)@.subscribers, x) == sub_lookup(
                old(m)@.subscribers,
                x,
            ),
{
    let ghost m0 = m@;
    let mut k: usize = 0;
    let n = m.subscribers.len();
    let mut found: bool = false;
    let mut f: usize = 0;
    while k < n && !found
        invariant
            0 <= k <= n,
            n == m.subscribers@.len(),
            m@ == m0,
            m0 == old(m)@,
            !found ==> find_sub_from(m0.subscribers, id, 0) == find_sub_from(
                m0.subscribers,
                id,
                k as int,
            ),
            found ==> f < n && find_sub_from(m0.subscribers, id, 0) == Option::Some(f as int),
        decreases (if found { 0int } else { 1int }), n - k,
    {
        if m.subscribers[k].0 == id {
            found = true;
            f = k;
        } else {
            k = k + 1;
        }
    }
    if found {
        proof {
            lemma_sub_props_rec(m0.subscribers, id, 0);
            assert(m0.subscribers[f as int].0 == id);
        }
        let _ = m.subscribers.remove(f);
        proof {
            assert(m@.subscribers =~= m0.subscribers.remove(f as int)) by {
                assert forall|t: int|
                    0 <= t < m@.subscribers.len() implies #[trigger] m@.subscribers[t]
                    == m0.subscribers.remove(f as int)[t] by {
                    if t < f {
                        assert(m.subscribers@[t] == old(m).subscribers@[t]);
                    } else {
                        assert(m.subscribers@[t] == old(m).subscribers@[t + 1]);
                    }
                }
            }
            lemma_sub_remove(m0.subscribers, f as int);
        }
    }
    update_masks(m);
    proof {
        assert(map_wf(m@)) by {
            if found {
                assert(forall|t: int|
                    0 <= t < m@.subscribers.len() ==> m0.subscribers.contains(
                        #[trigger] m@.subscribers[t],
                    )) by {
                    assert(forall|t: int|
                        0 <= t < (m@.subscribers.len() as int) ==> #[trigger] m@.subscribers[t] == (
                        if t < f { m0.subscribers[t] } else { m0.subscribers[t + 1] }));
                }
                assert forall|t: int| 0 <= t < m@.subscribers.len() implies 0 <= (
                #[trigger] m@.subscribers[t]).1.requests_in_flight <= PUSH_CREDIT && (
                m@.subscribers[t]).0 < m@.next_id by {
                    let p = m@.subscribers[t];
                    assert(m0.subscribers.contains(p));
                    let u = choose|u: int|
                        0 <= u < m0.subscribers.len() && m0.subscribers[u] == p;
                }
            }
        }
    }
}

/// A registry with one entry removed keeps distinct ids, drops that id, and
/// answers every other id as before.
proof fn lemma_sub_remove(s: Seq<(u64, HandleModel)>, f: int)
    requires
        sub_distinct(s),
        0 <= f < s.len(),
    ensures
        sub_distinct(s.remove(f)),
        !sub_has(s.remove(f), s[f].0),
        forall|x: u64|
            x != s[f].0 ==> #[trigger] sub_lookup(s.remove(f), x) == sub_lookup(s, x),
{
    let r = s.remove(f);
    assert(forall|t: int| 0 <= t < f ==> r[t] == #[trigger] s[t]);
    assert(forall|t: int| f <= t < r.len() ==> r[t] == #[trigger] s[t + 1]);
    lemma_sub_props(s, s[f].0);
    lemma_sub_props(r, s[f].0);
    if sub_has(r, s[f].0) {
        let i = choose|i: int| 0 <= i < r.len() && (#[trigger] r[i]).0 == s[f].0;
        if i < f {
            assert(s[i].0 == s[f].0);
            assert(false);
        } else {
            assert(s[i + 1].0 == s[f].0);
            assert(false);
        }
    }
    assert forall|x: u64| x != s[f].0 implies #[trigger] sub_lookup(r, x) == sub_lookup(s, x) by {
        lemma_sub_props(s, x);
        lemma_sub_props(r, x);
        if sub_has(s, x) {
            let i = choose|i: int| 0 <= i < s.len() && (#[trigger] s[i]).0 == x;
            assert(sub_lookup(s, x) == Option::Some(s[i].1));
            if i < f {
                assert(r[i].0 == x);
                assert(sub_lookup(r, x) == Option::Some(r[i].1));
            } else {
                assert(i > f);
                assert(r[i - 1] == s[i]);
                assert(sub_lookup(r, x) == Option::Some(r[i - 1].1));
            }
        } else {
            if sub_has(r, x) {
                let i = choose|i: int| 0 <= i < r.len() && (#[trigger] r[i]).0 == x;
                if i < f {
                    assert(s[i].0 == x);
                } else {
                    assert(s[i + 1].0 == x);
                }
                assert(false);
            }
        }
    }
}

/// A first-match search agrees with membership, and under distinct ids the
/// entry found is the only one.
proof fn lemma_sub_props(s: Seq<(u64, HandleModel)>, id: u64)
    ensures
        sub_has(s, id) <==> exists|i: int| 0 <= i < s.len() && (#[trigger] s[i]).0 == id,
        sub_lookup(s, id) matches Option::Some(h) ==> exists|i: int|
            0 <= i < s.len() && (#[trigger] s[i]) == (id, h),
        sub_distinct(s) ==> forall|i: int|
            0 <= i < s.len() && (#[trigger] s[i]).0 == id ==> sub_lookup(s, id) == Option::Some(
                s[i].1,
            ) && find_sub_from(s, id, 0) == Option::Some(i),
{
    lemma_sub_props_rec(s, id, 0);
}

proof fn lemma_sub_props_rec(s: Seq<(u64, HandleModel)>, id: u64, k: int)
    requires
        0 <= k <= s.len(),
    ensures
        find_sub_from(s, id, k) is Some <==> exists|i: int|
            k <= i < s.len() && (#[trigger] s[i]).0 == id,
        find_sub_from(s, id, k) matches Option::Some(f) ==> k <= f < s.len() && s[f].0 == id,
        sub_distinct(s) ==> forall|i: int|
            k <= i < s.len() && (#[trigger] s[i]).0 == id ==> find_sub_from(s, id, k)
                == Option::Some(i),
    decreases s.len() - k,
{
    if k < s.len() {
        lemma_sub_props_rec(s, id, k + 1);
    }
}

/// The registry after a try-begin on one subscriber: below the credit limit
/// the push is admitted and the credit taken; at the limit, or for an
/// unknown id, nothing changes.
pub open spec fn model_try_begin(m: MapModel, id: u64) -> (MapModel, bool) {
    match find_sub_from(m.subscribers, id, 0) {
        Option::Some(k) => {
            let h = m.subscribers[k].1;
            if h.requests_in_flight < PUSH_CREDIT {
                (
                    MapModel {
                        subscribers: m.subscribers.update(
                            k,
                            (id, (HandleModel {
                                requests_in_flight: (h.requests_in_flight + 1) as i32,
                                ..h
                            })),
                        ),
                        ..m
                    },
                    true,
                )
            } else {
                (m, false)
            }
        },
        Option::None => (m, false),
    }
}

/// Take one push credit for a subscriber if it has any left. Returns whether
/// the push may be issued; a saturated subscriber is skipped.
pub fn try_begin_push(m: &mut SubscriberMap, id: u64) -> (r: bool)
    requires
        map_wf(old(m)@),
    ensures
        map_wf(final(m)@),
        final(m)@ == model_try_begin(old(m)@, id).0,
        r == model_try_begin(old(m)@, id).1,
{
    let ghost m0 = m@;
    let n = m.subscribers.len();
    let mut k: usize = 0;
    while k < n
        invariant
            0 <= k <= n,
            n == m.subscribers@.len(),
            m@ == m0,
            m0 == old(m)@,
            map_wf(m0),
            find_sub_from(m0.subscribers, id, 0) == find_sub_from(m0.subscribers, id, k as int),
        decreases n - k,
    {
        if m.subscribers[k].0 == id {
            let fl = m.subscribers[k].1.requests_in_flight;
            if fl < PUSH_CREDIT {
                let ghost wv = m.subscribers@;
                m.subscribers[k].1.requests_in_flight = fl + 1;
                proof {
                    let target = model_try_begin(m0, id).0;
                    assert forall|t: int| 0 <= t < m@.subscribers.len() implies
                        #[trigger] m@.subscribers[t] == target.subscribers[t] by {
                        if t != k {
                            assert(m.subscribers@[t] == wv[t]);
                        }
                    }
                    assert(m@.subscribers =~= target.subscribers);
                    assert(m@ =~~= target);
                    assert(map_wf(m@)) by {
                        lemma_wf_update_credit(m0, m@, k as int);
                    }
                }
                return true;
            } else {
                return false;
            }
        }
        k = k + 1;
    }
    false
}

/// A change of one subscriber's credit alone preserves well-formedness,
/// provided the new credit is in range.
proof fn lemma_wf_update_credit(m: MapModel, m2: MapModel, k: int)
    requires
        map_wf(m),
        m2.next_id == m.next_id,
        m2.cur_tagmask == m.cur_tagmask,
        m2.cur_patmasks == m.cur_patmasks,
        m2.subscribers.len() == m.subscribers.len(),
        0 <= k < m.subscribers.len(),
        forall|t: int|
            0 <= t < m.subscribers.len() && t != k ==> #[trigger] m2.subscribers[t]
                == m.subscribers[t],
        m2.subscribers[k].0 == m.subscribers[k].0,
        m2.subscribers[k].1.tagmask == m.subscribers[k].1.tagmask,
        m2.subscribers[k].1.patmasks == m.subscribers[k].1.patmasks,
        0 <= m2.subscribers[k].1.requests_in_flight <= PUSH_CREDIT,
    ensures
        map_wf(m2),
{
    lemma_or_all_same(m.subscribers, m2.subscribers);
    assert forall|pm: (u16, Option<u32>)| in_union(m2.subscribers, pm) == in_union(
        m.subscribers,
        pm,
    ) by {
        if in_union(m.subscribers, pm) {
            let (kk, ii) = choose|kk: int, ii: int|
                0 <= kk < m.subscribers.len() && 0 <= ii < m.subscribers[kk].1.patmasks.len()
                    && #[trigger] m.subscribers[kk].1.patmasks[ii] == pm;
            assert(m2.subscribers[kk].1.patmasks[ii] == pm);
        }
        if in_union(m2.subscribers, pm) {
            let (kk, ii) = choose|kk: int, ii: int|
                0 <= kk < m2.subscribers.len() && 0 <= ii < m2.subscribers[kk].1.patmasks.len()
                    && #[trigger] m2.subscribers[kk].1.patmasks[ii] == pm;
            assert(m.subscribers[kk].1.patmasks[ii] == pm);
        }
    }
}

/// Registries whose subscribers carry the same tagmasks OR alike.
proof fn lemma_or_all_same(s: Seq<(u64, HandleModel)>, s2: Seq<(u64, HandleModel)>)
    requires
        s2.len() == s.len(),
        forall|t: int|
            0 <= t < s.len() ==> (#[trigger] s2[t]).1.tagmask == (#[trigger] s[t]).1.tagmask,
    ensures
        or_all(s2) == or_all(s),
    decreases s.len(),
{
    if s.len() > 0 {
        assert(forall|t: int| 0 <= t < s.len() - 1 ==> s.drop_last()[t] == #[trigger] s[t]);
        assert(forall|t: int| 0 <= t < s2.len() - 1 ==> s2.drop_last()[t] == #[trigger] s2[t]);
        lemma_or_all_same(s.drop_last(), s2.drop_last());
    }
}

/// Return one push credit after a push to the subscriber resolved.
pub fn complete_push(m: &mut SubscriberMap, id: u64)
    requires
        map_wf(old(m)@),
    ensures
        map_wf(final(m)@),
        final(m)@.next_id == old(m)@.next_id,
        final(m)@.cur_tagmask == old(m)@.cur_tagmask,
        final(m)@.cur_patmasks == old(m)@.cur_patmasks,
        final(m)@.subscribers.len() == old(m)@.subscribers.len(),
        forall|t: int|
            0 <= t < old(m)@.subscribers.len() && (#[trigger] old(m)@.subscribers[t]).0 != id
                ==> final(m)@.subscribers[t] == old(m)@.subscribers[t],
        forall|t: int|
            0 <= t < old(m)@.subscribers.len() && (#[trigger] old(m)@.subscribers[t]).0 == id
                ==> final(m)@.subscribers[t] == (id, (HandleModel {
                requests_in_flight: if old(m)@.subscribers[t].1.requests_in_flight > 0 {
                    (old(m)@.subscribers[t].1.requests_in_flight - 1) as i32
                } else {
                    0
                },
                ..old(m)@.subscribers[t].1
            })),
{
    let ghost m0 = m@;
    let n = m.subscribers.len();
    let mut k: usize = 0;
    while k < n
        invariant
            0 <= k <= n,
            n == m.subscribers@.len(),
            m@ == m0,
            m0 == old(m)@,
            map_wf(m0),
            forall|t: int| 0 <= t < k ==> (#[trigger] m0.subscribers[t]).0 != id,
        decreases n - k,
    {
        if m.subscribers[k].0 == id {
            let fl = m.subscribers[k].1.requests_in_flight;
            let ghost wv = m.subscribers@;
            if fl > 0 {
                m.subscribers[k].1.requests_in_flight = fl - 1;
            }
            proof {
                assert forall|t: int| 0 <= t < n && t != k implies #[trigger] m@.subscribers[t]
                    == m0.subscribers[t] by {
                    assert(m.subscribers@[t] == wv[t]);
                }
                assert(m@.subscribers[k as int] == (id, (HandleModel {
                    requests_in_flight: if m0.subscribers[k as int].1.requests_in_flight > 0 {
                        (m0.subscribers[k as int].1.requests_in_flight - 1) as i32
                    } else {
                        0
                    },
                    ..m0.subscribers[k as int].1
                })));
                assert forall|t: int|
                    0 <= t < n && (#[trigger] m0.subscribers[t]).0 == id implies t == k by {
                    if t != k {
                        assert(m0.subscribers[t].0 != m0.subscribers[k as int].0);
                    }
                }
                lemma_wf_update_credit(m0, m@, k as int);
            }
            return ;
        }
        k = k + 1;
    }
}

/// The registry after `n` attempted pushes to one subscriber, none of which
/// completes.
pub open spec fn model_begins(m: MapModel, id: u64, n: nat) -> MapModel
    decreases n,
{
    if n == 0 {
        m
    } else {
        model_try_begin(model_begins(m, id, (n - 1) as nat), id).0
    }
}

/// Flow control: pushes to a subscriber that never completes them are
/// admitted exactly until its credits reach `PUSH_CREDIT`; from then on the
/// subscriber is skipped, and no other subscriber's handle is ever touched.
pub proof fn lemma_flow_control(m: MapModel, id: u64, n: nat)
    requires
        map_wf(m),
        sub_has(m.subscribers, id),
        sub_lookup(m.subscribers, id)->Some_0.requests_in_flight == 0,
    ensures
        map_wf(model_begins(m, id, n)),
        sub_has(model_begins(m, id, n).subscribers, id),
        sub_lookup(model_begins(m, id, n).subscribers, id)->Some_0.requests_in_flight == if n
            <= PUSH_CREDIT {
            n as int
        } else {
            PUSH_CREDIT as int
        },
        n > PUSH_CREDIT ==> model_begins(m, id, n) == model_begins(m, id, PUSH_CREDIT as nat)
            && !model_try_begin(model_begins(m, id, n), id).1,
        forall|x: u64|
            x != id ==> #[trigger] sub_lookup(model_begins(m, id, n).subscribers, x) == sub_lookup(
                m.subscribers,
                x,
            ),
    decreases n,
{
    lemma_sub_props(m.subscribers, id);
    if n == 0 {
        lemma_sub_props_rec(m.subscribers, id, 0);
        let f = find_sub_from(m.subscribers, id, 0)->Some_0;
        if m.subscribers[f].1.requests_in_flight < PUSH_CREDIT {
        }
    } else {
        lemma_flow_control(m, id, (n - 1) as nat);
        let mp = model_begins(m, id, (n - 1) as nat);
        lemma_sub_props(mp.subscribers, id);
        lemma_sub_props_rec(mp.subscribers, id, 0);
        assert(sub_has(mp.subscribers, id));
        let f = find_sub_from(mp.subscribers, id, 0)->Some_0;
        let h = mp.subscribers[f].1;
        assert(sub_lookup(mp.subscribers, id) == Option::Some(h));
        let m2 = model_try_begin(mp, id).0;
        if h.requests_in_flight < PUSH_CREDIT {
            assert(m2.subscribers == mp.subscribers.update(
                f,
                (id, (HandleModel { requests_in_flight: (h.requests_in_flight + 1) as i32, ..h })),
            ));
            assert(forall|t: int|
                0 <= t < mp.subscribers.len() && t != f ==> #[trigger] m2.subscribers[t]
                    == mp.subscribers[t]);
            lemma_wf_update_credit(mp, m2, f);
            lemma_sub_props(m2.subscribers, id);
            assert(sub_lookup(m2.subscribers, id)->Some_0.requests_in_flight == h.requests_in_flight
                + 1);
            assert forall|x: u64| x != id implies #[trigger] sub_lookup(m2.subscribers, x)
                == sub_lookup(mp.subscribers, x) by {
                lemma_sub_props(mp.subscribers, x);
                lemma_sub_props(m2.subscribers, x);
                if sub_has(mp.subscribers, x) {
                    let i = choose|i: int|
                        0 <= i < mp.subscribers.len() && (#[trigger] mp.subscribers[i]).0 == x;
                    assert(i != f);
                    assert(m2.subscribers[i] == mp.subscribers[i]);
                } else {
                    if sub_has(m2.subscribers, x) {
                        let i = choose|i: int|
                            0 <= i < m2.subscribers.len() && (#[trigger] m2.subscribers[i]).0 == x;
                        assert(i != f);
                        assert(mp.subscribers[i].0 == x);
                    }
                }
            }
        } else {
            assert(m2 == mp);
        }
    }
}

/// The registry after one frame's fanout: every subscriber below the credit
/// limit takes one more credit; saturated ones are untouched.
pub open spec fn bump_credits(s: Seq<(u64, HandleModel)>) -> Seq<(u64, HandleModel)> {
    Seq::new(
        s.len(),
        |k: int|
            (s[k].0, (HandleModel {
                requests_in_flight: if s[k].1.requests_in_flight < PUSH_CREDIT {
                    (s[k].1.requests_in_flight + 1) as i32
                } else {
                    s[k].1.requests_in_flight
                },
                ..s[k].1
            })),
    )
}

/// The messages one frame owes: one per subscriber below the credit limit,
/// in registry order, carrying its tagmask and its pattern report from the
/// frame's counts. Saturated subscribers get nothing and lose the frame.
pub open spec fn frame_plan(
    s: Seq<(u64, HandleModel)>,
    counts: Seq<((u16, Option<u32>), u64)>,
) -> Seq<(u64, u16, Seq<(u16, u64, u32)>)>
    decreases s.len(),
{
    if s.len() == 0 {
        Seq::empty()
    } else {
        frame_plan(s.drop_last(), counts) + if s.last().1.requests_in_flight < PUSH_CREDIT {
            seq![
                (
                    s.last().0,
                    s.last().1.tagmask,
                    crate::data::select_counts(s.last().1.patmasks, counts),
                ),
            ]
        } else {
            Seq::empty()
        }
    }
}

/// Credit changes alone preserve well-formedness, as long as each stays in
/// range.
proof fn lemma_wf_credits_only(m: MapModel, m2: MapModel)
    requires
        map_wf(m),
        m2.next_id == m.next_id,
        m2.cur_tagmask == m.cur_tagmask,
        m2.cur_patmasks == m.cur_patmasks,
        m2.subscribers.len() == m.subscribers.len(),
        forall|t: int|
            0 <= t < m.subscribers.len() ==> (#[trigger] m2.subscribers[t]).0 == m.subscribers[t].0
                && m2.subscribers[t].1.tagmask == m.subscribers[t].1.tagmask
                && m2.subscribers[t].1.patmasks == m.subscribers[t].1.patmasks,
        forall|t: int|
            0 <= t < m2.subscribers.len() ==> 0 <= (
            #[trigger] m2.subscribers[t]).1.requests_in_flight <= PUSH_CREDIT,
    ensures
        map_wf(m2),
{
    lemma_or_all_same(m.subscribers, m2.subscribers);
    assert forall|pm: (u16, Option<u32>)| in_union(m2.subscribers, pm) == in_union(
        m.subscribers,
        pm,
    ) by {
        if in_union(m.subscribers, pm) {
            let (kk, ii) = choose|kk: int, ii: int|
                0 <= kk < m.subscribers.len() && 0 <= ii < m.subscribers[kk].1.patmasks.len()
                    && #[trigger] m.subscribers[kk].1.patmasks[ii] == pm;
            assert(m2.subscribers[kk].1.patmasks[ii] == pm);
        }
        if in_union(m2.subscribers, pm) {
            let (kk, ii) = choose|kk: int, ii: int|
                0 <= kk < m2.subscribers.len() && 0 <= ii < m2.subscribers[kk].1.patmasks.len()
                    && #[trigger] m2.subscribers[kk].1.patmasks[ii] == pm;
            assert(m.subscribers[kk].1.patmasks[ii] == pm);
        }
    }
}

/// Plan one frame's pushes: take one credit from every subscriber with one
/// to spare and give it its message content — its id, its tagmask, and the
/// report of its subscribed patterns out of this frame's counts. Saturated
/// subscribers are skipped entirely and lose this frame.
pub fn plan_frame(m: &mut SubscriberMap, counts: &Vec<((u16, Option<u32>), u64)>) -> (plan: Vec<
    (u64, u16, Vec<(u16, u64, u32)>),
>)
    requires
        map_wf(old(m)@),
    ensures
        map_wf(final(m)@),
        final(m)@.subscribers == bump_credits(old(m)@.subscribers),
        final(m)@.next_id == old(m)@.next_id,
        final(m)@.cur_tagmask == old(m)@.cur_tagmask,
        final(m)@.cur_patmasks == old(m)@.cur_patmasks,
        plan@.map_values(|p: (u64, u16, Vec<(u16, u64, u32)>)| (p.0, p.1, p.2@)) == frame_plan(
            old(m)@.subscribers,
            counts@,
        ),
{
    let ghost m0 = m@;
    let mut plan: Vec<(u64, u16, Vec<(u16, u64, u32)>)> = Vec::new();
    let n = m.subscribers.len();
    let mut k: usize = 0;
    while k < n
        invariant
            0 <= k <= n,
            n == m.subscribers@.len(),
            m0 == old(m)@,
            m0.subscribers.len() == n,
            map_wf(m0),
            m@.next_id == m0.next_id,
            m@.cur_tagmask == m0.cur_tagmask,
            m@.cur_patmasks == m0.cur_patmasks,
            m@.subscribers.len() == n,
            forall|t: int| k <= t < n ==> m@.subscribers[t] == m0.subscribers[t],
            forall|t: int| 0 <= t < k ==> m@.subscribers[t] == bump_credits(m0.subscribers)[t],
            plan@.map_values(|p: (u64, u16, Vec<(u16, u64, u32)>)| (p.0, p.1, p.2@)) == frame_plan(
                m0.subscribers.take(k as int),
                counts@,
            ),
        decreases n - k,
    {
        let ghost mpi = m@;
        let ghost wvi = m.subscribers@;
        let ghost pv0 = plan@.map_values(|p: (u64, u16, Vec<(u16, u64, u32)>)| (p.0, p.1, p.2@));
        proof {
            assert(m0.subscribers.take(k + 1).drop_last() =~= m0.subscribers.take(k as int));
            assert(m0.subscribers.take(k + 1).last() == m0.subscribers[k as int]);
        }
        let fl = m.subscribers[k].1.requests_in_flight;
        if fl < PUSH_CREDIT {
            let id = m.subscribers[k].0;
            let tagmask = m.subscribers[k].1.tagmask;
            let report = crate::data::select_pattern_counts(&m.subscribers[k].1.patmasks, counts);
            let ghost rep = report@;
            let ghost plraw = plan@;
            plan.push((id, tagmask, report));
            m.subscribers[k].1.requests_in_flight = fl + 1;
            proof {
                let pv = plan@.map_values(
                    |p: (u64, u16, Vec<(u16, u64, u32)>)| (p.0, p.1, p.2@),
                );
                assert(pv =~= pv0.push((id, tagmask, rep))) by {
                    assert forall|t: int| 0 <= t < pv.len() implies #[trigger] pv[t] == pv0.push(
                        (id, tagmask, rep),
                    )[t] by {
                        if t < pv0.len() {
                            assert(plan@[t] == plraw[t]);
                        }
                    }
                }
                assert(rep == crate::data::select_counts(
                    m0.subscribers[k as int].1.patmasks,
                    counts@,
                ));
                assert(pv =~= frame_plan(m0.subscribers.take(k + 1), counts@));
            }
        } else {
            proof {
                let pv = plan@.map_values(
                    |p: (u64, u16, Vec<(u16, u64, u32)>)| (p.0, p.1, p.2@),
                );
                assert(pv + Seq::<(u64, u16, Seq<(u16, u64, u32)>)>::empty() =~= pv);
                assert(pv =~= frame_plan(m0.subscribers.take(k + 1), counts@));
            }
        }
        proof {
            assert(m@.subscribers[k as int] == bump_credits(m0.subscribers)[k as int]);
            assert forall|t: int| 0 <= t < n && t != k implies m@.subscribers[t]
                == mpi.subscribers[t] by {
                assert(m.subscribers@[t] == wvi[t]);
            }
        }
        k = k + 1;
    }
    proof {
        assert(m0.subscribers.take(n as int) =~= m0.subscribers);
        assert(m@.subscribers =~= bump_credits(m0.subscribers));
        assert forall|t: int|
            0 <= t < m@.subscribers.len() implies 0 <= (
        #[trigger] m@.subscribers[t]).1.requests_in_flight <= PUSH_CREDIT by {
            assert(m@.subscribers[t] == bump_credits(m0.subscribers)[t]);
        }
        lemma_wf_credits_only(m0, m@);
    }
    plan
}

/// The union-mask property, as every registry operation maintains it: the
/// union tagmask is the bitwise OR of all current subscribers' tagmasks,
/// and the union pattern list holds exactly the set union of all current
/// subscribers' pattern entries, each once.
pub proof fn lemma_union_masks(m: MapModel)
    requires
        map_wf(m),
    ensures
        m.cur_tagmask == or_all(m.subscribers),
        pats_distinct(m.cur_patmasks),
        forall|pm: (u16, Option<u32>)|
            #[trigger] m.cur_patmasks.contains(pm) <==> in_union(m.subscribers, pm),
{
}

} // verus!
