//! The batch-job manager: submit / query / get lifecycle for fixed-duration
//! counting jobs in logic mode.
//!
//! The manager owns four tables keyed by job id — waiting, ready, cancelled,
//! claimed — plus a reverse index from pattern mask to subscribing waiting
//! jobs. A submitted job waits, accumulates device counts and duration once
//! per tick after its first full tick, and moves to ready when its cycles run
//! out; `get_results` moves it to claimed. A given id is in at most one
//! table, and the only moves are waiting to ready and ready to claimed.

use vstd::prelude::*;

verus! {

/// Status of a job id, as reported to a query.
#[derive(Clone, Copy, PartialEq, Eq, Structural, Debug)]
pub enum JobStatus {
    Waiting,
    Ready,
    Cancelled,
    Claimed,
    BadId,
    Refused,
}

/// Bookkeeping notes carried by a job.
#[derive(Clone, Debug)]
pub enum JobMeta {
    Submission,
    Accepted,
    Failed(String),
    Purgatory,
    Ready,
    InProgress,
}

/// Counter resolution a job was measured at.
#[derive(Clone, Copy, PartialEq, Eq, Structural, Debug)]
pub enum Resolution {
    Norm,
}

/// A fixed-duration counting job.
#[derive(Clone, Debug)]
pub struct Job {
    pub id: u64,
    pub patterns: Vec<u16>,
    /// Event counts accumulated per pattern; same length as `patterns`.
    pub events: Vec<u64>,
    pub window: i64,
    /// Actual duration accumulated so far, in device tick units.
    pub duration: u64,
    /// Number of whole manager ticks the job still has to run.
    pub cycles: u64,
    pub started: bool,
    pub finished: bool,
    pub starttag: i64,
    pub stoptag: i64,
    pub meta: JobMeta,
    pub resolution: Resolution,
    pub handle: String,
}

/// Ghost mirror of a job.
#[verifier::ext_equal]
pub struct JobModel {
    pub id: u64,
    pub patterns: Seq<u16>,
    pub events: Seq<u64>,
    pub window: i64,
    pub duration: u64,
    pub cycles: u64,
    pub started: bool,
    pub finished: bool,
    pub starttag: i64,
    pub stoptag: i64,
    pub handle: Seq<char>,
}

impl View for Job {
    type V = JobModel;

    open spec fn view(&self) -> JobModel {
        JobModel {
            id: self.id,
            patterns: self.patterns@,
            events: self.events@,
            window: self.window,
            duration: self.duration,
            cycles: self.cycles,
            started: self.started,
            finished: self.finished,
            starttag: self.starttag,
            stoptag: self.stoptag,
            handle: self.handle@,
        }
    }
}

impl Default for Job {
    fn default() -> (j: Job)
        ensures
            j@ == (JobModel {
                id: 0,
                patterns: Seq::<u16>::empty(),
                events: Seq::<u64>::empty(),
                window: 1,
                duration: 0,
                cycles: 0,
                started: false,
                finished: false,
                starttag: 0,
                stoptag: 0,
                handle: Seq::<char>::empty(),
            }),
            (j.meta is Purgatory),
            (j.resolution is Norm),
    {
        Job {
            id: 0,
            patterns: Vec::new(),
            events: Vec::new(),
            window: 1,
            duration: 0,
            cycles: 0,
            started: false,
            finished: false,
            starttag: 0,
            stoptag: 0,
            meta: JobMeta::Purgatory,
            resolution: Resolution::Norm,
            handle: String::new(),
        }
    }
}

/// Ghost mirror of the manager's tables.
#[verifier::ext_equal]
pub struct TablesModel {
    pub waiting: Seq<(u64, JobModel)>,
    pub ready: Seq<(u64, JobModel)>,
    pub cancelled: Seq<u64>,
    pub claimed: Seq<u64>,
    pub cur_pats: Seq<(u16, Seq<u64>)>,
}

/// Tables of jobs by id, plus the reverse index from patterns to the waiting
/// jobs that subscribe to them.
pub struct JobManager {
    pub waiting: Vec<(u64, Job)>,
    pub ready: Vec<(u64, Job)>,
    pub cancelled: Vec<u64>,
    pub claimed: Vec<u64>,
    pub cur_pats: Vec<(u16, Vec<u64>)>,
}

impl View for JobManager {
    type V = TablesModel;

    open spec fn view(&self) -> TablesModel {
        TablesModel {
            waiting: self.waiting@.map_values(|p: (u64, Job)| (p.0, p.1@)),
            ready: self.ready@.map_values(|p: (u64, Job)| (p.0, p.1@)),
            cancelled: self.cancelled@,
            claimed: self.claimed@,
            cur_pats: self.cur_pats@.map_values(|p: (u16, Vec<u64>)| (p.0, p.1@)),
        }
    }
}

/// First index at or after `k` holding the id, in a job table.
pub open spec fn find_id_from(s: Seq<(u64, JobModel)>, id: u64, k: int) -> Option<int>
    decreases s.len() - k,
{
    if k < 0 || k >= s.len() {
        Option::None
    } else if s[k].0 == id {
        Option::Some(k)
    } else {
        find_id_from(s, id, k + 1)
    }
}

/// The job stored under an id, if any.
pub open spec fn table_lookup(s: Seq<(u64, JobModel)>, id: u64) -> Option<JobModel> {
    match find_id_from(s, id, 0) {
        Option::Some(k) => Option::Some(s[k].1),
        Option::None => Option::None,
    }
}

pub open spec fn table_has(s: Seq<(u64, JobModel)>, id: u64) -> bool {
    find_id_from(s, id, 0) is Some
}

/// Distinct ids within one table.
pub open spec fn distinct_ids(s: Seq<(u64, JobModel)>) -> bool {
    forall|i: int, j: int| 0 <= i < j < s.len() ==> (#[trigger] s[i]).0 != (#[trigger] s[j]).0
}

/// Distinct patterns in the reverse index, and distinct ids per pattern.
pub open spec fn distinct_pats(cur: Seq<(u16, Seq<u64>)>) -> bool {
    &&& forall|i: int, j: int|
        0 <= i < j < cur.len() ==> (#[trigger] cur[i]).0 != (#[trigger] cur[j]).0
    &&& forall|k: int|
        0 <= k < cur.len() ==> (forall|i: int, j: int|
            0 <= i < j < (#[trigger] cur[k]).1.len() ==> (#[trigger] cur[k].1[i]) != (
            #[trigger] cur[k].1[j]))
}

/// A job's events line up with its patterns.
pub open spec fn job_wf(j: JobModel) -> bool {
    j.events.len() == j.patterns.len()
}

/// Well-formedness of the tables: distinct ids within and across the four
/// tables, well-formed jobs, and a distinct reverse index.
pub open spec fn tables_wf(m: TablesModel) -> bool {
    &&& distinct_ids(m.waiting)
    &&& distinct_ids(m.ready)
    &&& forall|id: u64| table_has(m.waiting, id) ==> !table_has(m.ready, id)
    &&& forall|id: u64| table_has(m.waiting, id) ==> !m.cancelled.contains(id) && !m.claimed.contains(id)
    &&& forall|id: u64| table_has(m.ready, id) ==> !m.cancelled.contains(id) && !m.claimed.contains(id)
    &&& forall|id: u64| m.cancelled.contains(id) ==> !m.claimed.contains(id)
    &&& forall|k: int| 0 <= k < m.waiting.len() ==> job_wf((#[trigger] m.waiting[k]).1)
    &&& forall|k: int| 0 <= k < m.ready.len() ==> job_wf((#[trigger] m.ready[k]).1)
    &&& distinct_pats(m.cur_pats)
}

/// The status reported for an id: the first table that holds it, in the
/// order waiting, ready, cancelled, claimed; unknown ids are `BadId`.
pub open spec fn status_of(m: TablesModel, id: u64) -> JobStatus {
    if table_has(m.waiting, id) {
        JobStatus::Waiting
    } else if table_has(m.ready, id) {
        JobStatus::Ready
    } else if m.cancelled.contains(id) {
        JobStatus::Cancelled
    } else if m.claimed.contains(id) {
        JobStatus::Claimed
    } else {
        JobStatus::BadId
    }
}

impl JobManager {
    pub fn new() -> (m: JobManager)
        ensures
            m@.waiting =~= Seq::<(u64, JobModel)>::empty(),
            m@.ready =~= Seq::<(u64, JobModel)>::empty(),
            m@.cancelled =~= Seq::<u64>::empty(),
            m@.claimed =~= Seq::<u64>::empty(),
            m@.cur_pats =~= Seq::<(u16, Seq<u64>)>::empty(),
            tables_wf(m@),
    {
        JobManager {
            waiting: Vec::new(),
            ready: Vec::new(),
            cancelled: Vec::new(),
            claimed: Vec::new(),
            cur_pats: Vec::new(),
        }
    }
}

/// Find an id in a table of jobs.
fn find_id(v: &Vec<(u64, Job)>, id: u64) -> (r: Option<usize>)
    ensures
        r matches Option::Some(k) ==> find_id_from(
            v@.map_values(|p: (u64, Job)| (p.0, p.1@)),
            id,
            0,
        ) == Option::Some(k as int),
        r is None ==> find_id_from(v@.map_values(|p: (u64, Job)| (p.0, p.1@)), id, 0) is None,
{
    let ghost s = v@.map_values(|p: (u64, Job)| (p.0, p.1@));
    let mut k: usize = 0;
    while k < v.len()
        invariant
            0 <= k <= v@.len(),
            s == v@.map_values(|p: (u64, Job)| (p.0, p.1@)),
            find_id_from(s, id, 0) == find_id_from(s, id, k as int),
        decreases v@.len() - k,
    {
        if v[k].0 == id {
            return Some(k);
        }
        k = k + 1;
    }
    None
}

/// Find an id in a list of ids.
fn contains_id(v: &Vec<u64>, id: u64) -> (r: bool)
    ensures
        r == v@.contains(id),
{
    let mut k: usize = 0;
    while k < v.len()
        invariant
            0 <= k <= v@.len(),
            forall|i: int| 0 <= i < k ==> v@[i] != id,
        decreases v@.len() - k,
    {
        if v[k] == id {
            return true;
        }
        k = k + 1;
    }
    false
}

/// Report the status of a job id.
pub fn query_status(m: &JobManager, id: u64) -> (s: JobStatus)
    ensures
        s == status_of(m@, id),
{
    if let Some(_) = find_id(&m.waiting, id) {
        JobStatus::Waiting
    } else if let Some(_) = find_id(&m.ready, id) {
        JobStatus::Ready
    } else if contains_id(&m.cancelled, id) {
        JobStatus::Cancelled
    } else if contains_id(&m.claimed, id) {
        JobStatus::Claimed
    } else {
        JobStatus::BadId
    }
}

/// Place a new job in the waiting table, unless its id is already taken.
pub fn add_job(m: &mut JobManager, job: Job)
    requires
        tables_wf(old(m)@),
        job.patterns@.len() == job.events@.len(),
        status_of(old(m)@, job.id) is Waiting || status_of(old(m)@, job.id) is BadId,
    ensures
        tables_wf(final(m)@),
        (status_of(final(m)@, job.id) is Waiting),
        table_has(old(m)@.waiting, job.id) ==> final(m)@ == old(m)@,
        !table_has(old(m)@.waiting, job.id) ==> final(m)@ == (TablesModel {
            waiting: old(m)@.waiting.push((job.id, job@)),
            ..old(m)@
        }),
{
    let ghost oldw = m@.waiting;
    if let Some(_) = find_id(&m.waiting, job.id) {
        return ;
    }
    let ghost theid = job.id;
    let id = job.id;
    m.waiting.push((id, job));
    proof {
        assert(m@.waiting =~= oldw.push((id, m.waiting@.last().1@)));
        lemma_find_id_from_push(oldw, (id, m.waiting@.last().1@), id);
        assert(table_has(m@.waiting, theid));
        assert forall|other: u64| other != id implies find_id_from(m@.waiting, other, 0)
            == find_id_from(oldw, other, 0) by {
            lemma_find_id_from_push(oldw, (id, m.waiting@.last().1@), other);
        }
        assert(distinct_ids(m@.waiting)) by {
            assert(forall|i: int|
                0 <= i < oldw.len() ==> (#[trigger] oldw[i]).0 != id) by {
                assert forall|i: int| 0 <= i < oldw.len() implies (#[trigger] oldw[i]).0 != id by {
                    if oldw[i].0 == id {
                        lemma_find_id_from_witness(oldw, id, i);
                    }
                }
            }
        }
    }
}

/// If some entry at or after `k` holds the id, the search from `k` succeeds.
proof fn lemma_find_id_from_witness(s: Seq<(u64, JobModel)>, id: u64, w: int)
    requires
        0 <= w < s.len(),
        s[w].0 == id,
    ensures
        forall|k: int| 0 <= k <= w ==> find_id_from(s, id, k) is Some,
    decreases s.len(),
{
    assert forall|k: int| 0 <= k <= w implies find_id_from(s, id, k) is Some by {
        lemma_find_id_from_witness_one(s, id, w, k);
    }
}

proof fn lemma_find_id_from_witness_one(s: Seq<(u64, JobModel)>, id: u64, w: int, k: int)
    requires
        0 <= k <= w < s.len(),
        s[w].0 == id,
    ensures
        find_id_from(s, id, k) is Some,
    decreases w - k,
{
    if k < w && s[k].0 != id {
        lemma_find_id_from_witness_one(s, id, w, k + 1);
    }
}

/// Searching a table extended by one entry: the new entry is found exactly
/// when the old search failed and the id matches.
proof fn lemma_find_id_from_push(s: Seq<(u64, JobModel)>, p: (u64, JobModel), id: u64)
    ensures
        find_id_from(s.push(p), id, 0) == if find_id_from(s, id, 0) is Some {
            find_id_from(s, id, 0)
        } else if p.0 == id {
            Option::Some(s.len() as int)
        } else {
            Option::<int>::None
        },
{
    lemma_find_id_from_push_rec(s, p, id, 0);
}

proof fn lemma_find_id_from_push_rec(s: Seq<(u64, JobModel)>, p: (u64, JobModel), id: u64, k: int)
    requires
        0 <= k <= s.len(),
    ensures
        find_id_from(s.push(p), id, k) == if find_id_from(s, id, k) is Some {
            find_id_from(s, id, k)
        } else if p.0 == id {
            Option::Some(s.len() as int)
        } else {
            Option::<int>::None
        },
    decreases s.len() - k,
{
    if k < s.len() {
        assert(s.push(p)[k] == s[k]);
        lemma_find_id_from_push_rec(s, p, id, k + 1);
    } else {
        assert(s.push(p)[k] == p);
        assert(find_id_from(s, id, k) is None);
        if p.0 == id {
            assert(find_id_from(s.push(p), id, k) == Option::Some(k));
        } else {
            assert(find_id_from(s.push(p), id, k + 1) is None);
            assert(find_id_from(s.push(p), id, k) is None);
        }
    }
}


/// Saturating addition on `u64`.
pub open spec fn sat_add64(a: u64, b: u64) -> u64 {
    if a + b > u64::MAX {
        u64::MAX
    } else {
        (a + b) as u64
    }
}

/// Saturating addition on `u64`.
pub fn sat_add_u64(a: u64, b: u64) -> (r: u64)
    ensures
        r == sat_add64(a, b),
{
    if a > u64::MAX - b {
        u64::MAX
    } else {
        a + b
    }
}

/// One tick's bookkeeping on a single waiting job: a started job accumulates
/// the tick's duration and consumes one cycle; an unstarted one is untouched.
pub open spec fn job_add_dur(j: JobModel, dur: u64) -> JobModel {
    if j.started {
        JobModel {
            duration: sat_add64(j.duration, dur),
            cycles: if j.cycles > 0 {
                (j.cycles - 1) as u64
            } else {
                0u64
            },
            ..j
        }
    } else {
        j
    }
}

/// The tables after the duration step of a tick.
pub open spec fn model_add_duration(m: TablesModel, dur: u64) -> TablesModel {
    TablesModel {
        waiting: Seq::new(m.waiting.len(), |k: int| (m.waiting[k].0, job_add_dur(m.waiting[k].1, dur))),
        ..m
    }
}

/// The tables after every waiting job has been marked started.
pub open spec fn model_activate(m: TablesModel) -> TablesModel {
    TablesModel {
        waiting: Seq::new(
            m.waiting.len(),
            |k: int| (m.waiting[k].0, JobModel { started: true, ..m.waiting[k].1 }),
        ),
        ..m
    }
}

/// Two tables with the same ids in the same order are searched alike.
proof fn lemma_find_same_keys(s1: Seq<(u64, JobModel)>, s2: Seq<(u64, JobModel)>, id: u64, k: int)
    requires
        s2.len() == s1.len(),
        forall|t: int| 0 <= t < s1.len() ==> (#[trigger] s2[t]).0 == (#[trigger] s1[t]).0,
        0 <= k,
    ensures
        find_id_from(s2, id, k) == find_id_from(s1, id, k),
    decreases s1.len() - k,
{
    if k < s1.len() {
        lemma_find_same_keys(s1, s2, id, k + 1);
    }
}

/// Well-formedness is kept by any step that rewrites waiting jobs in place
/// without touching their ids, patterns or events lengths.
proof fn lemma_wf_same_keys(m: TablesModel, m2: TablesModel)
    requires
        tables_wf(m),
        m2.ready == m.ready,
        m2.cancelled == m.cancelled,
        m2.claimed == m.claimed,
        m2.cur_pats == m.cur_pats,
        m2.waiting.len() == m.waiting.len(),
        forall|t: int|
            0 <= t < m.waiting.len() ==> (#[trigger] m2.waiting[t]).0 == (#[trigger] m.waiting[t]).0,
        forall|t: int|
            0 <= t < m.waiting.len() ==> (#[trigger] m2.waiting[t]).1.events.len()
                == m.waiting[t].1.events.len() && m2.waiting[t].1.patterns
                == m.waiting[t].1.patterns,
    ensures
        tables_wf(m2),
{
    assert forall|id: u64| table_has(m2.waiting, id) implies table_has(m.waiting, id) by {
        lemma_find_same_keys(m.waiting, m2.waiting, id, 0);
    }
    assert forall|id: u64| table_has(m.waiting, id) implies table_has(m2.waiting, id) by {
        lemma_find_same_keys(m.waiting, m2.waiting, id, 0);
    }
}

/// Per tick, add the tick's duration to every started waiting job and
/// consume one of its cycles.
pub fn add_duration(m: &mut JobManager, dur: u64)
    requires
        tables_wf(old(m)@),
    ensures
        final(m)@ == model_add_duration(old(m)@, dur),
        tables_wf(final(m)@),
{
    let ghost m0 = m@;
    let n = m.waiting.len();
    let mut k: usize = 0;
    while k < n
        invariant
            0 <= k <= n,
            n == m.waiting@.len(),
            m@.ready == m0.ready,
            m@.cancelled == m0.cancelled,
            m@.claimed == m0.claimed,
            m@.cur_pats == m0.cur_pats,
            m@.waiting.len() == m0.waiting.len(),
            forall|t: int| k <= t < n ==> m@.waiting[t] == m0.waiting[t],
            forall|t: int|
                0 <= t < k ==> m@.waiting[t] == (m0.waiting[t].0, job_add_dur(
                    m0.waiting[t].1,
                    dur,
                )),
        decreases n - k,
    {
        let ghost mprev = m@;
        let ghost wprev = m.waiting@;
        let ghost prev = m@.waiting[k as int];
        if m.waiting[k].1.started {
            let d = m.waiting[k].1.duration;
            let nd = sat_add_u64(d, dur);
            m.waiting[k].1.duration = nd;
            let cy = m.waiting[k].1.cycles;
            if cy > 0 {
                m.waiting[k].1.cycles = cy - 1;
            }
        }
        proof {
            assert(prev == m0.waiting[k as int]);
            assert(m@.waiting[k as int].0 == prev.0);
            assert(m@.waiting[k as int].1 == job_add_dur(prev.1, dur));
            assert(m@.waiting[k as int] =~= (m0.waiting[k as int].0, job_add_dur(
                m0.waiting[k as int].1,
                dur,
            )));
            assert forall|t: int| 0 <= t < n && t != k implies m@.waiting[t]
                == mprev.waiting[t] by {
                assert(m.waiting@[t] == wprev[t]);
            }
            assert forall|t: int| 0 <= t < k + 1 implies m@.waiting[t] == (
            m0.waiting[t].0, job_add_dur(m0.waiting[t].1, dur)) by {
                if t < k {
                    assert(m@.waiting[t] == mprev.waiting[t]);
                    assert(mprev.waiting[t] == (m0.waiting[t].0, job_add_dur(
                        m0.waiting[t].1,
                        dur,
                    )));
                }
            }
        }
        k = k + 1;
    }
    proof {
        assert(m@.waiting =~= model_add_duration(m0, dur).waiting);
        assert(m@ =~~= model_add_duration(m0, dur));
        lemma_wf_same_keys(m0, m@);
    }
}

/// Per tick, mark every waiting job started, so that counting begins on the
/// next full tick rather than the partial one it was submitted in.
pub fn activate_new_jobs(m: &mut JobManager)
    requires
        tables_wf(old(m)@),
    ensures
        final(m)@ == model_activate(old(m)@),
        tables_wf(final(m)@),
{
    let ghost m0 = m@;
    let n = m.waiting.len();
    let mut k: usize = 0;
    while k < n
        invariant
            0 <= k <= n,
            n == m.waiting@.len(),
            m@.ready == m0.ready,
            m@.cancelled == m0.cancelled,
            m@.claimed == m0.claimed,
            m@.cur_pats == m0.cur_pats,
            m@.waiting.len() == m0.waiting.len(),
            forall|t: int| k <= t < n ==> m@.waiting[t] == m0.waiting[t],
            forall|t: int|
                0 <= t < k ==> m@.waiting[t] == (m0.waiting[t].0, (JobModel {
                    started: true,
                    ..m0.waiting[t].1
                })),
        decreases n - k,
    {
        let ghost mprev = m@;
        let ghost wprev = m.waiting@;
        let ghost prev = m@.waiting[k as int];
        m.waiting[k].1.started = true;
        proof {
            assert(prev == m0.waiting[k as int]);
            assert(m@.waiting[k as int].0 == prev.0);
            assert(m@.waiting[k as int].1 == (JobModel { started: true, ..prev.1 }));
            assert(m@.waiting[k as int] =~= (m0.waiting[k as int].0, (JobModel {
                started: true,
                ..m0.waiting[k as int].1
            })));
            assert forall|t: int| 0 <= t < n && t != k implies m@.waiting[t]
                == mprev.waiting[t] by {
                assert(m.waiting@[t] == wprev[t]);
            }
            assert forall|t: int| 0 <= t < k + 1 implies m@.waiting[t] == (
            m0.waiting[t].0, (JobModel { started: true, ..m0.waiting[t].1 })) by {
                if t < k {
                    assert(m@.waiting[t] == mprev.waiting[t]);
                    assert(mprev.waiting[t] == (m0.waiting[t].0, (JobModel {
                        started: true,
                        ..m0.waiting[t].1
                    })));
                }
            }
        }
        k = k + 1;
    }
    proof {
        assert(m@.waiting =~= model_activate(m0).waiting);
        assert(m@ =~~= model_activate(m0));
        lemma_wf_same_keys(m0, m@);
    }
}

/// The waiting jobs that keep waiting after a tick: those with cycles left.
pub open spec fn reap_keep(w: Seq<(u64, JobModel)>) -> Seq<(u64, JobModel)>
    decreases w.len(),
{
    if w.len() == 0 {
        Seq::empty()
    } else {
        reap_keep(w.drop_last()) + if w.last().1.cycles != 0 {
            seq![w.last()]
        } else {
            Seq::empty()
        }
    }
}

/// The waiting jobs whose cycles ran out, in table order.
pub open spec fn reap_move(w: Seq<(u64, JobModel)>) -> Seq<(u64, JobModel)>
    decreases w.len(),
{
    if w.len() == 0 {
        Seq::empty()
    } else {
        reap_move(w.drop_last()) + if w.last().1.cycles == 0 {
            seq![w.last()]
        } else {
            Seq::empty()
        }
    }
}

/// The tables after expired waiting jobs move to ready.
pub open spec fn model_reap(m: TablesModel) -> TablesModel {
    TablesModel { waiting: reap_keep(m.waiting), ready: m.ready + reap_move(m.waiting), ..m }
}

/// Every entry of `reap_keep` and `reap_move` comes from the table, and every
/// table entry lands in exactly one of the two.
proof fn lemma_reap_elements(w: Seq<(u64, JobModel)>)
    ensures
        forall|i: int|
            0 <= i < reap_keep(w).len() ==> w.contains(#[trigger] reap_keep(w)[i])
                && reap_keep(w)[i].1.cycles != 0,
        forall|i: int|
            0 <= i < reap_move(w).len() ==> w.contains(#[trigger] reap_move(w)[i])
                && reap_move(w)[i].1.cycles == 0,
        reap_keep(w).len() + reap_move(w).len() == w.len(),
    decreases w.len(),
{
    if w.len() > 0 {
        lemma_reap_elements(w.drop_last());
        assert(forall|p: (u64, JobModel)|
            w.drop_last().contains(p) ==> w.contains(p)) by {
            assert(forall|i: int|
                0 <= i < w.len() - 1 ==> w.drop_last()[i] == #[trigger] w[i]);
        }
        assert(w.contains(w.last()));
    }
}

/// How one id fares in a reap: looked up in keep when its cycles remain, in
/// move when they ran out, wherever the search lands.
proof fn lemma_reap_lookup(w: Seq<(u64, JobModel)>, id: u64)
    requires
        distinct_ids(w),
    ensures
        table_lookup(w, id) is None ==> !table_has(reap_keep(w), id) && !table_has(
            reap_move(w),
            id,
        ),
        table_has(w, id) && table_lookup(w, id)->Some_0.cycles != 0 ==> table_lookup(
            reap_keep(w),
            id,
        ) == table_lookup(w, id) && !table_has(reap_move(w), id),
        table_has(w, id) && table_lookup(w, id)->Some_0.cycles == 0 ==> table_lookup(
            reap_move(w),
            id,
        ) == table_lookup(w, id) && !table_has(reap_keep(w), id),
    decreases w.len(),
{
    lemma_table_lookup_props(w, id);
    lemma_reap_elements(w);
    if w.len() > 0 {
        let head = w.drop_last();
        let p = w.last();
        assert(distinct_ids(head)) by {
            assert(forall|i: int| 0 <= i < head.len() ==> head[i] == #[trigger] w[i]);
        }
        lemma_reap_lookup(head, id);
        lemma_table_lookup_props(head, id);
        lemma_table_lookup_props(reap_keep(w), id);
        lemma_table_lookup_props(reap_move(w), id);
        lemma_table_lookup_props(reap_keep(head), id);
        lemma_table_lookup_props(reap_move(head), id);
        assert(forall|i: int| 0 <= i < head.len() ==> head[i] == #[trigger] w[i]);
        if p.1.cycles != 0 {
            assert(reap_keep(w) =~= reap_keep(head).push(p));
            assert(reap_move(w) =~= reap_move(head));
            lemma_lookup_push(reap_keep(head), p, id);
        } else {
            assert(reap_move(w) =~= reap_move(head).push(p));
            assert(reap_keep(w) =~= reap_keep(head));
            lemma_lookup_push(reap_move(head), p, id);
        }
        lemma_lookup_push(head, p, id);
    }
}

/// A first-match search agrees with plain membership of the id, and under
/// distinct ids the entry found is the only one.
proof fn lemma_table_lookup_props(s: Seq<(u64, JobModel)>, id: u64)
    ensures
        table_has(s, id) <==> exists|i: int| 0 <= i < s.len() && (#[trigger] s[i]).0 == id,
        table_lookup(s, id) matches Option::Some(j) ==> exists|i: int|
            0 <= i < s.len() && (#[trigger] s[i]) == (id, j),
        distinct_ids(s) ==> forall|i: int|
            0 <= i < s.len() && (#[trigger] s[i]).0 == id ==> table_lookup(s, id)
                == Option::Some(s[i].1),
{
    lemma_table_lookup_props_rec(s, id, 0);
}

proof fn lemma_table_lookup_props_rec(s: Seq<(u64, JobModel)>, id: u64, k: int)
    requires
        0 <= k <= s.len(),
    ensures
        find_id_from(s, id, k) is Some <==> exists|i: int|
            k <= i < s.len() && (#[trigger] s[i]).0 == id,
        find_id_from(s, id, k) matches Option::Some(f) ==> k <= f < s.len() && s[f].0 == id,
        distinct_ids(s) ==> forall|i: int|
            k <= i < s.len() && (#[trigger] s[i]).0 == id ==> find_id_from(s, id, k)
                == Option::Some(i),
    decreases s.len() - k,
{
    if k < s.len() {
        lemma_table_lookup_props_rec(s, id, k + 1);
    }
}

/// Searching a table with one entry appended.
proof fn lemma_lookup_push(s: Seq<(u64, JobModel)>, p: (u64, JobModel), id: u64)
    ensures
        table_lookup(s.push(p), id) == if table_has(s, id) {
            table_lookup(s, id)
        } else if p.0 == id {
            Option::Some(p.1)
        } else {
            Option::<JobModel>::None
        },
{
    lemma_find_id_from_push(s, p, id);
    if table_has(s, id) {
        lemma_table_lookup_props_rec(s, id, 0);
        let f = find_id_from(s, id, 0)->Some_0;
        assert(0 <= f < s.len());
        assert(s.push(p)[f] == s[f]);
    }
}

/// Per tick, move every waiting job whose cycles ran out into the ready
/// table, keeping table order on both sides.
pub fn reap_ready_jobs(m: &mut JobManager)
    requires
        tables_wf(old(m)@),
    ensures
        final(m)@ == model_reap(old(m)@),
        tables_wf(final(m)@),
{
    let ghost m0 = m@;
    let mut drained: Vec<(u64, Job)> = Vec::new();
    core::mem::swap(&mut drained, &mut m.waiting);
    let ghost dr0 = drained@.map_values(|p: (u64, Job)| (p.0, p.1@));
    proof {
        assert(dr0 == m0.waiting);
        assert(m@.waiting =~= Seq::<(u64, JobModel)>::empty());
    }
    let mut i: usize = 0;
    let n = drained.len();
    while i < n
        invariant
            0 <= i <= n,
            n == dr0.len(),
            drained@.map_values(|p: (u64, Job)| (p.0, p.1@)) =~= dr0.skip(i as int),
            m@.ready == m0.ready + reap_move(dr0.take(i as int)),
            m@.waiting == reap_keep(dr0.take(i as int)),
            m@.cancelled == m0.cancelled,
            m@.claimed == m0.claimed,
            m@.cur_pats == m0.cur_pats,
        decreases n - i,
    {
        let ghost mprev = m@;
        let ghost dprev = drained@;
        proof {
            assert(dprev.map_values(|q: (u64, Job)| (q.0, q.1@)).len() == dprev.len());
        }
        let p = drained.remove(0);
        proof {
            assert(dprev.len() == n - i);
            assert(drained@ =~= dprev.remove(0));
            let ghost dm = drained@.map_values(|q: (u64, Job)| (q.0, q.1@));
            assert forall|t: int| 0 <= t < dm.len() implies #[trigger] dm[t] == dr0.skip(i + 1)[t] by {
                assert(drained@[t] == dprev[t + 1]);
                assert((dprev.map_values(|q: (u64, Job)| (q.0, q.1@)))[t + 1] == dr0.skip(
                    i as int,
                )[t + 1]);
            }
            assert(dm =~= dr0.skip(i + 1));
            assert((p.0, p.1@) == (dprev.map_values(|q: (u64, Job)| (q.0, q.1@)))[0]);
            assert((p.0, p.1@) == dr0.skip(i as int)[0]);
            assert((p.0, p.1@) == dr0[i as int]);
            assert(dr0.take(i + 1).drop_last() =~= dr0.take(i as int));
            assert(dr0.take(i + 1).last() == dr0[i as int]);
        }
        if p.1.cycles != 0 {
            m.waiting.push(p);
            proof {
                assert(m@.waiting =~= mprev.waiting.push(dr0[i as int]));
                assert(reap_keep(dr0.take(i + 1)) =~= reap_keep(dr0.take(i as int)).push(
                    dr0[i as int],
                ));
                assert(reap_move(dr0.take(i + 1)) =~= reap_move(dr0.take(i as int)));
                assert(m@.ready =~= mprev.ready);
            }
        } else {
            m.ready.push(p);
            proof {
                assert(m@.ready =~= mprev.ready.push(dr0[i as int]));
                assert(reap_move(dr0.take(i + 1)) =~= reap_move(dr0.take(i as int)).push(
                    dr0[i as int],
                ));
                assert(reap_keep(dr0.take(i + 1)) =~= reap_keep(dr0.take(i as int)));
                assert(m@.ready =~= m0.ready + reap_move(dr0.take(i + 1)));
                assert(m@.waiting =~= mprev.waiting);
            }
        }
        i = i + 1;
    }
    proof {
        assert(dr0.take(n as int) =~= dr0);
        assert(m@ =~~= model_reap(m0));
        lemma_reap_wf(m0);
    }
}

/// A reap keeps the tables well-formed.
proof fn lemma_reap_wf(m: TablesModel)
    requires
        tables_wf(m),
    ensures
        tables_wf(model_reap(m)),
{
    let w = m.waiting;
    let m2 = model_reap(m);
    lemma_reap_elements(w);
    assert forall|id: u64| true implies !(table_has(reap_keep(w), id) && table_has(
        m.ready + reap_move(w),
        id,
    )) by {
        lemma_reap_lookup(w, id);
        lemma_table_lookup_props(w, id);
        lemma_table_lookup_props(reap_keep(w), id);
        lemma_table_lookup_props(reap_move(w), id);
        lemma_table_lookup_props(m.ready + reap_move(w), id);
        lemma_table_lookup_props(m.ready, id);
        if table_has(m.ready + reap_move(w), id) {
            let i = choose|i: int|
                0 <= i < (m.ready + reap_move(w)).len() && ((m.ready + reap_move(w))[i]).0 == id;
            if i < m.ready.len() {
                assert((m.ready + reap_move(w))[i] == m.ready[i]);
                assert(table_has(m.ready, id));
            } else {
                assert((m.ready + reap_move(w))[i] == reap_move(w)[i - m.ready.len()]);
                assert(table_has(reap_move(w), id));
            }
        }
    }
    assert(distinct_ids(m2.ready)) by {
        assert forall|i: int, j: int|
            0 <= i < j < m2.ready.len() implies (#[trigger] m2.ready[i]).0 != (
        #[trigger] m2.ready[j]).0 by {
            let r = m.ready;
            let mv = reap_move(w);
            lemma_reap_lookup(w, m2.ready[j].0);
            lemma_table_lookup_props(w, m2.ready[j].0);
            lemma_table_lookup_props(r, m2.ready[j].0);
            if j < r.len() {
            } else {
                assert(m2.ready[j] == mv[j - r.len()]);
                assert(w.contains(mv[j - r.len()]));
                if i < r.len() {
                    assert(m2.ready[i] == r[i]);
                    if m2.ready[i].0 == m2.ready[j].0 {
                        assert(table_has(w, m2.ready[j].0)) by {
                            let t = choose|t: int|
                                0 <= t < w.len() && w[t] == mv[j - r.len()];
                            lemma_table_lookup_props(w, w[t].0);
                        }
                        assert(table_has(r, m2.ready[j].0));
                        assert(false);
                    }
                } else {
                    assert(m2.ready[i] == mv[i - r.len()]);
                    if m2.ready[i].0 == m2.ready[j].0 {
                        lemma_reap_distinct(w);
                        assert(false);
                    }
                }
            }
        }
    }
    assert forall|id: u64| table_has(m2.waiting, id) implies !table_has(m2.ready, id) by {
        lemma_reap_lookup(w, id);
        lemma_table_lookup_props(w, id);
        lemma_table_lookup_props(m2.waiting, id);
        lemma_table_lookup_props(m2.ready, id);
        if table_has(m2.waiting, id) && table_has(m2.ready, id) {
            let i = choose|i: int| 0 <= i < m2.ready.len() && (#[trigger] m2.ready[i]).0 == id;
            if i < m.ready.len() {
                assert(m2.ready[i] == m.ready[i]);
                assert(table_has(m.ready, id)) by {
                    lemma_table_lookup_props(m.ready, id);
                }
                assert(table_has(w, id));
            } else {
                assert(m2.ready[i] == reap_move(w)[i - m.ready.len()]);
                assert(table_has(reap_move(w), id)) by {
                    lemma_table_lookup_props(reap_move(w), id);
                }
            }
        }
    }
    assert forall|id: u64| table_has(m2.waiting, id) implies !m2.cancelled.contains(id)
        && !m2.claimed.contains(id) by {
        lemma_reap_lookup(w, id);
        lemma_table_lookup_props(w, id);
        lemma_table_lookup_props(m2.waiting, id);
        if table_has(m2.waiting, id) {
            assert(table_has(w, id)) by {
                let i = choose|i: int|
                    0 <= i < m2.waiting.len() && (#[trigger] m2.waiting[i]).0 == id;
                assert(w.contains(m2.waiting[i]));
                let t = choose|t: int| 0 <= t < w.len() && w[t] == m2.waiting[i];
                lemma_table_lookup_props(w, id);
            }
        }
    }
    assert forall|id: u64| table_has(m2.ready, id) implies !m2.cancelled.contains(id)
        && !m2.claimed.contains(id) by {
        lemma_table_lookup_props(m2.ready, id);
        if table_has(m2.ready, id) {
            let i = choose|i: int| 0 <= i < m2.ready.len() && (#[trigger] m2.ready[i]).0 == id;
            if i < m.ready.len() {
                assert(m2.ready[i] == m.ready[i]);
                lemma_table_lookup_props(m.ready, id);
                assert(table_has(m.ready, id));
            } else {
                assert(m2.ready[i] == reap_move(w)[i - m.ready.len()]);
                lemma_reap_elements(w);
                assert(w.contains(m2.ready[i]));
                let t = choose|t: int| 0 <= t < w.len() && w[t] == m2.ready[i];
                lemma_table_lookup_props(w, id);
                assert(table_has(w, id));
            }
        }
    }
    assert forall|k: int| 0 <= k < m2.waiting.len() implies job_wf((#[trigger] m2.waiting[k]).1) by {
        assert(w.contains(m2.waiting[k]));
        let t = choose|t: int| 0 <= t < w.len() && w[t] == m2.waiting[k];
    }
    assert forall|k: int| 0 <= k < m2.ready.len() implies job_wf((#[trigger] m2.ready[k]).1) by {
        if k >= m.ready.len() {
            assert(m2.ready[k] == reap_move(w)[k - m.ready.len()]);
            assert(w.contains(m2.ready[k]));
            let t = choose|t: int| 0 <= t < w.len() && w[t] == m2.ready[k];
        } else {
            assert(m2.ready[k] == m.ready[k]);
        }
    }
    assert(distinct_ids(m2.waiting)) by {
        lemma_reap_distinct(w);
    }
}

/// Distinctness of ids survives both halves of a reap.
proof fn lemma_reap_distinct(w: Seq<(u64, JobModel)>)
    requires
        distinct_ids(w),
    ensures
        distinct_ids(reap_keep(w)),
        distinct_ids(reap_move(w)),
    decreases w.len(),
{
    if w.len() > 0 {
        let head = w.drop_last();
        let p = w.last();
        assert(forall|i: int| 0 <= i < head.len() ==> head[i] == #[trigger] w[i]);
        assert(distinct_ids(head));
        lemma_reap_distinct(head);
        lemma_reap_elements(head);
        assert(forall|i: int| 0 <= i < head.len() ==> (#[trigger] head[i]).0 != p.0) by {
            assert(forall|i: int| 0 <= i < w.len() - 1 ==> (#[trigger] w[i]).0 != w[w.len() - 1].0);
        }
        if p.1.cycles != 0 {
            assert(reap_keep(w) =~= reap_keep(head).push(p));
            assert forall|i: int, j: int|
                0 <= i < j < reap_keep(w).len() implies (#[trigger] reap_keep(w)[i]).0 != (
            #[trigger] reap_keep(w)[j]).0 by {
                if j == reap_keep(w).len() - 1 {
                    assert(reap_keep(w)[j] == p);
                    assert(reap_keep(w)[i] == reap_keep(head)[i]);
                    assert(head.contains(reap_keep(head)[i]));
                    let t = choose|t: int|
                        0 <= t < head.len() && head[t] == reap_keep(head)[i];
                }
            }
        } else {
            assert(reap_move(w) =~= reap_move(head).push(p));
            assert forall|i: int, j: int|
                0 <= i < j < reap_move(w).len() implies (#[trigger] reap_move(w)[i]).0 != (
            #[trigger] reap_move(w)[j]).0 by {
                if j == reap_move(w).len() - 1 {
                    assert(reap_move(w)[j] == p);
                    assert(reap_move(w)[i] == reap_move(head)[i]);
                    assert(head.contains(reap_move(head)[i]));
                    let t = choose|t: int|
                        0 <= t < head.len() && head[t] == reap_move(head)[i];
                }
            }
        }
    }
}

/// First entry of the reverse index at or after `k` holding the pattern.
pub open spec fn find_pat_from(cur: Seq<(u16, Seq<u64>)>, pat: u16, k: int) -> Option<int>
    decreases cur.len() - k,
{
    if k < 0 || k >= cur.len() {
        Option::None
    } else if cur[k].0 == pat {
        Option::Some(k)
    } else {
        find_pat_from(cur, pat, k + 1)
    }
}

/// The reverse index with one subscription added: the id joins the pattern's
/// entry unless already present; an unknown pattern gains a fresh entry.
pub open spec fn add_pat_sub(cur: Seq<(u16, Seq<u64>)>, pat: u16, id: u64) -> Seq<(u16, Seq<u64>)> {
    match find_pat_from(cur, pat, 0) {
        Option::Some(k) => if cur[k].1.contains(id) {
            cur
        } else {
            cur.update(k, (pat, cur[k].1.push(id)))
        },
        Option::None => cur.push((pat, seq![id])),
    }
}

/// The reverse index after one job's whole pattern list is added.
pub open spec fn add_pats(cur: Seq<(u16, Seq<u64>)>, pats: Seq<u16>, id: u64) -> Seq<
    (u16, Seq<u64>),
>
    decreases pats.len(),
{
    if pats.len() == 0 {
        cur
    } else {
        add_pat_sub(add_pats(cur, pats.drop_last(), id), pats.last(), id)
    }
}

/// The reverse index after every waiting job is registered.
pub open spec fn upd_pats(cur: Seq<(u16, Seq<u64>)>, w: Seq<(u64, JobModel)>) -> Seq<
    (u16, Seq<u64>),
>
    decreases w.len(),
{
    if w.len() == 0 {
        cur
    } else {
        add_pats(upd_pats(cur, w.drop_last()), w.last().1.patterns, w.last().0)
    }
}

/// The tables after the reverse index is rebuilt from the waiting jobs.
pub open spec fn model_update_patterns(m: TablesModel) -> TablesModel {
    TablesModel { cur_pats: upd_pats(m.cur_pats, m.waiting), ..m }
}

/// A failed pattern search means no entry holds the pattern.
proof fn lemma_find_pat_props(cur: Seq<(u16, Seq<u64>)>, pat: u16, k: int)
    requires
        0 <= k <= cur.len(),
    ensures
        find_pat_from(cur, pat, k) matches Option::Some(f) ==> k <= f < cur.len() && cur[f].0
            == pat,
        find_pat_from(cur, pat, k) is None ==> forall|i: int|
            k <= i < cur.len() ==> (#[trigger] cur[i]).0 != pat,
    decreases cur.len() - k,
{
    if k < cur.len() {
        lemma_find_pat_props(cur, pat, k + 1);
    }
}

/// Adding one subscription keeps the reverse index distinct.
proof fn lemma_add_pat_sub_distinct(cur: Seq<(u16, Seq<u64>)>, pat: u16, id: u64)
    requires
        distinct_pats(cur),
    ensures
        distinct_pats(add_pat_sub(cur, pat, id)),
{
    lemma_find_pat_props(cur, pat, 0);
    let r = add_pat_sub(cur, pat, id);
    match find_pat_from(cur, pat, 0) {
        Option::Some(k) => {
            if !cur[k].1.contains(id) {
                assert(forall|i: int| 0 <= i < r.len() && i != k ==> r[i] == #[trigger] cur[i]);
                assert(r[k] == (pat, cur[k].1.push(id)));
                assert forall|kk: int|
                    0 <= kk < r.len() implies (forall|i: int, j: int|
                    0 <= i < j < (#[trigger] r[kk]).1.len() ==> (#[trigger] r[kk].1[i]) != (
                    #[trigger] r[kk].1[j])) by {
                    if kk == k {
                        assert forall|i: int, j: int|
                            0 <= i < j < r[kk].1.len() implies (#[trigger] r[kk].1[i]) != (
                        #[trigger] r[kk].1[j]) by {
                            if j == r[kk].1.len() - 1 {
                                assert(r[kk].1[j] == id);
                                assert(r[kk].1[i] == cur[k].1[i]);
                                assert(cur[k].1.contains(cur[k].1[i]));
                            } else {
                                assert(r[kk].1[i] == cur[k].1[i]);
                                assert(r[kk].1[j] == cur[k].1[j]);
                            }
                        }
                    }
                }
            }
        },
        Option::None => {
            assert(forall|i: int| 0 <= i < cur.len() ==> r[i] == #[trigger] cur[i]);
            assert(r[cur.len() as int] == (pat, seq![id]));
            assert(forall|i: int| 0 <= i < cur.len() ==> (#[trigger] cur[i]).0 != pat);
            assert(seq![id].len() == 1);
        },
    }
}

/// Registering a pattern list keeps the reverse index distinct.
proof fn lemma_add_pats_distinct(cur: Seq<(u16, Seq<u64>)>, pats: Seq<u16>, id: u64)
    requires
        distinct_pats(cur),
    ensures
        distinct_pats(add_pats(cur, pats, id)),
    decreases pats.len(),
{
    if pats.len() > 0 {
        lemma_add_pats_distinct(cur, pats.drop_last(), id);
        lemma_add_pat_sub_distinct(add_pats(cur, pats.drop_last(), id), pats.last(), id);
    }
}

/// Rebuilding the reverse index keeps the tables well-formed.
proof fn lemma_update_patterns_wf(m: TablesModel)
    requires
        tables_wf(m),
    ensures
        tables_wf(model_update_patterns(m)),
{
    lemma_upd_pats_distinct(m.cur_pats, m.waiting);
}

proof fn lemma_upd_pats_distinct(cur: Seq<(u16, Seq<u64>)>, w: Seq<(u64, JobModel)>)
    requires
        distinct_pats(cur),
    ensures
        distinct_pats(upd_pats(cur, w)),
    decreases w.len(),
{
    if w.len() > 0 {
        lemma_upd_pats_distinct(cur, w.drop_last());
        lemma_add_pats_distinct(upd_pats(cur, w.drop_last()), w.last().1.patterns, w.last().0);
    }
}

/// Per tick (and after each submission), register every waiting job's
/// patterns in the reverse index.
pub fn update_patterns(m: &mut JobManager)
    requires
        tables_wf(old(m)@),
    ensures
        final(m)@ == model_update_patterns(old(m)@),
        tables_wf(final(m)@),
{
    let ghost m0 = m@;
    let n = m.waiting.len();
    let mut k: usize = 0;
    while k < n
        invariant
            0 <= k <= n,
            n == m.waiting@.len(),
            m@.waiting == m0.waiting,
            m@.ready == m0.ready,
            m@.cancelled == m0.cancelled,
            m@.claimed == m0.claimed,
            m@.cur_pats == upd_pats(m0.cur_pats, m0.waiting.take(k as int)),
            distinct_pats(m@.cur_pats),
        decreases n - k,
    {
        let ghost pats = m0.waiting[k as int].1.patterns;
        let ghost base = m@.cur_pats;
        let id = m.waiting[k].0;
        let plen = m.waiting[k].1.patterns.len();
        let mut i: usize = 0;
        while i < plen
            invariant
                0 <= i <= plen,
                0 <= k < n == m.waiting@.len(),
                plen == pats.len(),
                pats == m0.waiting[k as int].1.patterns,
                m@.waiting == m0.waiting,
                m0.waiting[k as int] == m@.waiting[k as int],
                id == m0.waiting[k as int].0,
                m@.ready == m0.ready,
                m@.cancelled == m0.cancelled,
                m@.claimed == m0.claimed,
                base == upd_pats(m0.cur_pats, m0.waiting.take(k as int)),
                m@.cur_pats == add_pats(base, pats.take(i as int), id),
                distinct_pats(m@.cur_pats),
            decreases plen - i,
        {
            let pat = m.waiting[k].1.patterns[i];
            let ghost curp = m@.cur_pats;
            proof {
                assert(pats.take(i + 1).drop_last() =~= pats.take(i as int));
                assert(pats.take(i + 1).last() == pats[i as int]);
                assert(pat == pats[i as int]);
            }
            let mut f: usize = 0;
            let clen = m.cur_pats.len();
            let mut found: bool = false;
            while f < clen && !found
                invariant
                    0 <= f <= clen,
                    clen == m.cur_pats@.len(),
                    curp == m@.cur_pats,
                    !found ==> find_pat_from(curp, pat, 0) == find_pat_from(curp, pat, f as int),
                    found ==> f < clen && find_pat_from(curp, pat, 0) == Option::Some(f as int),
                decreases (if found { 0int } else { 1int }), clen - f,
            {
                if m.cur_pats[f].0 == pat {
                    found = true;
                } else {
                    f = f + 1;
                }
            }
            let ghost cvprev = m.cur_pats@;
            if found {
                let present = contains_id(&m.cur_pats[f].1, id);
                proof {
                    assert(m@.cur_pats[f as int].1 == m.cur_pats@[f as int].1@);
                }
                if !present {
                    m.cur_pats[f].1.push(id);
                    proof {
                        let target = curp.update(f as int, (pat, curp[f as int].1.push(id)));
                        assert forall|t: int| 0 <= t < m@.cur_pats.len() implies #[trigger] m@.cur_pats[t]
                            == target[t] by {
                            if t != f {
                                assert(m.cur_pats@[t] == cvprev[t]);
                            } else {
                                lemma_find_pat_props(curp, pat, 0);
                                assert(curp[f as int].0 == pat);
                                assert(m@.cur_pats[t].0 == cvprev[t].0);
                                assert(cvprev[t].0 == curp[f as int].0);
                                assert(m@.cur_pats[t].1 =~= curp[f as int].1.push(id));
                            }
                        }
                        assert(m@.cur_pats =~= target);
                        assert(m@.cur_pats =~= add_pat_sub(curp, pat, id));
                        lemma_add_pat_sub_distinct(curp, pat, id);
                    }
                } else {
                    proof {
                        assert(m@.cur_pats =~= add_pat_sub(curp, pat, id));
                    }
                }
            } else {
                let mut fresh: Vec<u64> = Vec::new();
                fresh.push(id);
                m.cur_pats.push((pat, fresh));
                proof {
                    let target = curp.push((pat, seq![id]));
                    assert forall|t: int| 0 <= t < m@.cur_pats.len() implies #[trigger] m@.cur_pats[t]
                        == target[t] by {
                        if t < curp.len() {
                            assert(m.cur_pats@[t] == cvprev[t]);
                        } else {
                            assert(m.cur_pats@[t].1@ =~= seq![id]);
                        }
                    }
                    assert(m@.cur_pats =~= target);
                    assert(m@.cur_pats =~= add_pat_sub(curp, pat, id));
                    lemma_add_pat_sub_distinct(curp, pat, id);
                }
            }
            i = i + 1;
        }
        proof {
            assert(pats.take(plen as int) =~= pats);
            assert(m0.waiting.take(k + 1).drop_last() =~= m0.waiting.take(k as int));
            assert(m0.waiting.take(k + 1).last() == m0.waiting[k as int]);
        }
        k = k + 1;
    }
    proof {
        assert(m0.waiting.take(n as int) =~= m0.waiting);
        assert(m@ =~~= model_update_patterns(m0));
        lemma_update_patterns_wf(m0);
    }
}

/// First count at or after `k` recorded for a pattern this tick.
pub open spec fn find_count_from(counts: Seq<(u16, u64)>, pat: u16, k: int) -> Option<u64>
    decreases counts.len() - k,
{
    if k < 0 || k >= counts.len() {
        Option::None
    } else if counts[k].0 == pat {
        Option::Some(counts[k].1)
    } else {
        find_count_from(counts, pat, k + 1)
    }
}

/// Position `i` is the first holding its pattern in the job's list.
pub open spec fn first_occ(pats: Seq<u16>, i: int) -> bool {
    forall|t: int| 0 <= t < i ==> pats[t] != pats[i]
}

/// The reverse index subscribes the id to the pattern.
pub open spec fn pat_has_sub(cur: Seq<(u16, Seq<u64>)>, pat: u16, id: u64) -> bool {
    exists|k: int| 0 <= k < cur.len() && (#[trigger] cur[k]).0 == pat && cur[k].1.contains(id)
}

/// One started job's events after a tick's counts are folded in: the first
/// position of each counted pattern the job subscribes to gains that
/// pattern's count, saturating.
pub open spec fn job_events_after(
    j: JobModel,
    id: u64,
    cur: Seq<(u16, Seq<u64>)>,
    counts: Seq<(u16, u64)>,
) -> Seq<u64> {
    Seq::new(
        j.events.len(),
        |i: int|
            if j.started && 0 <= i < j.patterns.len() && first_occ(j.patterns, i) && pat_has_sub(
                cur,
                j.patterns[i],
                id,
            ) && find_count_from(counts, j.patterns[i], 0) is Some {
                sat_add64(j.events[i], find_count_from(counts, j.patterns[i], 0)->Some_0)
            } else {
                j.events[i]
            },
    )
}

/// The tables after a tick's counts are credited to the waiting jobs.
pub open spec fn model_update_subs(m: TablesModel, counts: Seq<(u16, u64)>) -> TablesModel {
    TablesModel {
        waiting: Seq::new(
            m.waiting.len(),
            |k: int|
                (m.waiting[k].0, (JobModel {
                    events: job_events_after(m.waiting[k].1, m.waiting[k].0, m.cur_pats, counts),
                    ..m.waiting[k].1
                })),
        ),
        ..m
    }
}

/// Find this tick's count for a pattern.
fn find_count(counts: &Vec<(u16, u64)>, pat: u16) -> (r: Option<u64>)
    ensures
        r == find_count_from(counts@, pat, 0),
{
    let mut k: usize = 0;
    while k < counts.len()
        invariant
            0 <= k <= counts@.len(),
            find_count_from(counts@, pat, 0) == find_count_from(counts@, pat, k as int),
        decreases counts@.len() - k,
    {
        if counts[k].0 == pat {
            return Some(counts[k].1);
        }
        k = k + 1;
    }
    None
}

/// Whether position `i` is the first of its pattern in the list.
fn is_first_occ(pats: &Vec<u16>, i: usize) -> (r: bool)
    requires
        i < pats@.len(),
    ensures
        r == first_occ(pats@, i as int),
{
    let mut t: usize = 0;
    while t < i
        invariant
            0 <= t <= i < pats@.len(),
            forall|u: int| 0 <= u < t ==> pats@[u] != pats@[i as int],
        decreases i - t,
    {
        if pats[t] == pats[i] {
            return false;
        }
        t = t + 1;
    }
    true
}

/// Whether the reverse index subscribes the id to the pattern. The index
/// holds each pattern at most once, so checking the first entry decides it.
fn pat_sub_check(cur: &Vec<(u16, Vec<u64>)>, pat: u16, id: u64) -> (r: bool)
    requires
        distinct_pats(cur@.map_values(|p: (u16, Vec<u64>)| (p.0, p.1@))),
    ensures
        r == pat_has_sub(cur@.map_values(|p: (u16, Vec<u64>)| (p.0, p.1@)), pat, id),
{
    let ghost cv = cur@.map_values(|p: (u16, Vec<u64>)| (p.0, p.1@));
    let mut k: usize = 0;
    while k < cur.len()
        invariant
            0 <= k <= cur@.len(),
            cv == cur@.map_values(|p: (u16, Vec<u64>)| (p.0, p.1@)),
            distinct_pats(cv),
            forall|t: int| 0 <= t < k ==> (#[trigger] cv[t]).0 != pat,
        decreases cur@.len() - k,
    {
        if cur[k].0 == pat {
            let r = contains_id(&cur[k].1, id);
            proof {
                assert(cv[k as int].1 == cur@[k as int].1@);
                if r {
                    assert(cv[k as int].0 == pat && cv[k as int].1.contains(id));
                } else {
                    assert(distinct_pats(cv));
                    assert forall|t: int|
                        0 <= t < cv.len() && (#[trigger] cv[t]).0 == pat implies !cv[t].1.contains(
                        id,
                    ) by {
                        if t != k {
                            assert(cv[t].0 != cv[k as int].0);
                        }
                    }
                }
            }
            return r;
        }
        k = k + 1;
    }
    false
}

/// Per tick, credit this tick's count of each subscribed pattern to every
/// started waiting job, at the pattern's first position in the job's list.
pub fn update_subs(m: &mut JobManager, counts: &Vec<(u16, u64)>)
    requires
        tables_wf(old(m)@),
    ensures
        final(m)@ == model_update_subs(old(m)@, counts@),
        tables_wf(final(m)@),
{
    let ghost m0 = m@;
    let n = m.waiting.len();
    let mut k: usize = 0;
    while k < n
        invariant
            0 <= k <= n,
            n == m.waiting@.len(),
            tables_wf(m0),
            m@.ready == m0.ready,
            m@.cancelled == m0.cancelled,
            m@.claimed == m0.claimed,
            m@.cur_pats == m0.cur_pats,
            m@.waiting.len() == m0.waiting.len(),
            forall|t: int| k <= t < n ==> m@.waiting[t] == m0.waiting[t],
            forall|t: int|
                0 <= t < k ==> m@.waiting[t] == (m0.waiting[t].0, (JobModel {
                    events: job_events_after(m0.waiting[t].1, m0.waiting[t].0, m0.cur_pats, counts@),
                    ..m0.waiting[t].1
                })),
        decreases n - k,
    {
        let ghost mprev = m@;
        let ghost oldj = m0.waiting[k as int].1;
        let ghost target = job_events_after(oldj, m0.waiting[k as int].0, m0.cur_pats, counts@);
        let id = m.waiting[k].0;
        let started = m.waiting[k].1.started;
        if started {
            let plen = m.waiting[k].1.patterns.len();
            proof {
                assert(job_wf(oldj));
            }
            let mut i: usize = 0;
            while i < plen
                invariant
                    0 <= i <= plen,
                    0 <= k < n == m.waiting@.len(),
                    tables_wf(m0),
                    plen == oldj.patterns.len() == oldj.events.len(),
                    oldj == m0.waiting[k as int].1,
                    oldj.started,
                    id == m0.waiting[k as int].0,
                    target == job_events_after(oldj, id, m0.cur_pats, counts@),
                    m@.ready == m0.ready,
                    m@.cancelled == m0.cancelled,
                    m@.claimed == m0.claimed,
                    m@.cur_pats == m0.cur_pats,
                    m@.waiting.len() == m0.waiting.len(),
                    forall|t: int| k < t < n ==> m@.waiting[t] == m0.waiting[t],
                    forall|t: int|
                        0 <= t < k ==> m@.waiting[t] == (m0.waiting[t].0, (JobModel {
                            events: job_events_after(
                                m0.waiting[t].1,
                                m0.waiting[t].0,
                                m0.cur_pats,
                                counts@,
                            ),
                            ..m0.waiting[t].1
                        })),
                    m@.waiting[k as int].0 == id,
                    m@.waiting[k as int].1.patterns == oldj.patterns,
                    m@.waiting[k as int].1.started == oldj.started,
                    m@.waiting[k as int].1.cycles == oldj.cycles,
                    m@.waiting[k as int].1.duration == oldj.duration,
                    m@.waiting[k as int].1.window == oldj.window,
                    m@.waiting[k as int].1.finished == oldj.finished,
                    m@.waiting[k as int].1.starttag == oldj.starttag,
                    m@.waiting[k as int].1.stoptag == oldj.stoptag,
                    m@.waiting[k as int].1.handle == oldj.handle,
                    m@.waiting[k as int].1.id == oldj.id,
                    m@.waiting[k as int].1.events.len() == oldj.events.len(),
                    forall|u: int| 0 <= u < i ==> m@.waiting[k as int].1.events[u] == target[u],
                    forall|u: int|
                        i <= u < plen ==> m@.waiting[k as int].1.events[u] == oldj.events[u],
                decreases plen - i,
            {
                let ghost mpi = m@;
                let ghost wvi = m.waiting@;
                let ghost evprev = m@.waiting[k as int].1.events;
                let pat = m.waiting[k].1.patterns[i];
                let first = is_first_occ(&m.waiting[k].1.patterns, i);
                let c_opt = find_count(counts, pat);
                let sub = pat_sub_check(&m.cur_pats, pat, id);
                if first && sub {
                    if let Some(c) = c_opt {
                        let ev = m.waiting[k].1.events[i];
                        let nv = sat_add_u64(ev, c);
                        m.waiting[k].1.events[i] = nv;
                    }
                }
                proof {
                    assert(m@.cur_pats == m0.cur_pats);
                    assert(target[i as int] == (if oldj.started && first_occ(oldj.patterns, i as int)
                        && pat_has_sub(m0.cur_pats, oldj.patterns[i as int], id) && find_count_from(
                        counts@,
                        oldj.patterns[i as int],
                        0,
                    ) is Some {
                        sat_add64(
                            oldj.events[i as int],
                            find_count_from(counts@, oldj.patterns[i as int], 0)->Some_0,
                        )
                    } else {
                        oldj.events[i as int]
                    }));
                    assert(m@.waiting[k as int].1.events[i as int] == target[i as int]);
                    assert forall|t: int| 0 <= t < n && t != k implies m@.waiting[t]
                        == mpi.waiting[t] by {
                        assert(m.waiting@[t] == wvi[t]);
                    }
                    assert(forall|u: int|
                        0 <= u < plen && u != i ==> m@.waiting[k as int].1.events[u] == evprev[u]);
                    assert forall|t: int| 0 <= t < k implies #[trigger] m@.waiting[t] == (
                    m0.waiting[t].0, (JobModel {
                        events: job_events_after(
                            m0.waiting[t].1,
                            m0.waiting[t].0,
                            m0.cur_pats,
                            counts@,
                        ),
                        ..m0.waiting[t].1
                    })) by {
                        assert(m@.waiting[t] == mpi.waiting[t]);
                    }
                    assert forall|t: int| k < t < n implies #[trigger] m@.waiting[t]
                        == m0.waiting[t] by {
                        assert(m@.waiting[t] == mpi.waiting[t]);
                    }
                }
                i = i + 1;
            }
            proof {
                assert(m@.waiting[k as int].1.events =~= target);
                assert(m@.waiting[k as int].1 == (JobModel { events: target, ..oldj }));
                assert(m@.waiting[k as int] == (m0.waiting[k as int].0, (JobModel {
                    events: target,
                    ..oldj
                })));
            }
        } else {
            proof {
                assert(job_wf(oldj));
                assert(target =~= oldj.events);
                assert(m@.waiting[k as int].1 == (JobModel { events: target, ..oldj }));
            }
        }
        proof {
            assert forall|t: int| 0 <= t < k + 1 implies m@.waiting[t] == (
            m0.waiting[t].0, (JobModel {
                events: job_events_after(m0.waiting[t].1, m0.waiting[t].0, m0.cur_pats, counts@),
                ..m0.waiting[t].1
            })) by {}
        }
        k = k + 1;
    }
    proof {
        assert(m@.waiting =~= model_update_subs(m0, counts@).waiting);
        assert(m@ =~~= model_update_subs(m0, counts@));
        lemma_wf_same_keys(m0, m@);
    }
}

/// Reply to a result fetch: the job itself, or the id's current status.
pub enum JobPayload {
    BadQuery(JobStatus),
    Payload(Job),
}

/// A table with one entry removed keeps distinct ids, loses exactly that id,
/// and answers every other id as before.
proof fn lemma_table_remove(s: Seq<(u64, JobModel)>, f: int)
    requires
        distinct_ids(s),
        0 <= f < s.len(),
    ensures
        distinct_ids(s.remove(f)),
        !table_has(s.remove(f), s[f].0),
        forall|x: u64|
            x != s[f].0 ==> #[trigger] table_lookup(s.remove(f), x) == table_lookup(s, x),
        forall|x: u64| x != s[f].0 ==> (#[trigger] table_has(s.remove(f), x) == table_has(s, x)),
{
    let r = s.remove(f);
    assert(forall|t: int| 0 <= t < f ==> r[t] == #[trigger] s[t]);
    assert(forall|t: int| f <= t < r.len() ==> r[t] == #[trigger] s[t + 1]);
    assert forall|x: u64| true implies #[trigger] table_has(r, x) == (table_has(s, x) && x
        != s[f].0) by {
        lemma_table_lookup_props(s, x);
        lemma_table_lookup_props(r, x);
        if table_has(r, x) {
            let i = choose|i: int| 0 <= i < r.len() && (#[trigger] r[i]).0 == x;
            if i < f {
                assert(s[i].0 == x);
            } else {
                assert(s[i + 1].0 == x);
            }
        }
        if table_has(s, x) && x != s[f].0 {
            let i = choose|i: int| 0 <= i < s.len() && (#[trigger] s[i]).0 == x;
            if i < f {
                assert(r[i].0 == x);
            } else {
                assert(i > f);
                assert(r[i - 1].0 == x);
            }
        }
    }
    assert forall|x: u64| x != s[f].0 implies #[trigger] table_lookup(r, x)
        == table_lookup(s, x) by {
        if !table_has(s, x) {
            assert(!table_has(r, x));
        } else {
            lemma_remove_lookup_found(s, f, x);
        }
    }
}

proof fn lemma_remove_lookup_found(s: Seq<(u64, JobModel)>, f: int, x: u64)
    requires
        distinct_ids(s),
        0 <= f < s.len(),
        x != s[f].0,
        table_has(s, x),
    ensures
        table_lookup(s.remove(f), x) == table_lookup(s, x),
{
    let r = s.remove(f);
    assert(forall|t: int| 0 <= t < f ==> r[t] == #[trigger] s[t]);
    assert(forall|t: int| f <= t < r.len() ==> r[t] == #[trigger] s[t + 1]);
    {
        lemma_table_lookup_props(s, x);
        lemma_table_lookup_props(r, x);
        let i = choose|i: int| 0 <= i < s.len() && (#[trigger] s[i]).0 == x;
        assert(table_lookup(s, x) == Option::Some(s[i].1));
        if i < f {
            assert(r[i] == s[i]);
            assert(table_lookup(r, x) == Option::Some(r[i].1));
        } else {
            assert(i > f);
            assert(r[i - 1] == s[i]);
            assert(table_lookup(r, x) == Option::Some(r[i - 1].1));
        }
    }
}

/// Move a ready job to claimed and hand it out; any other id is answered
/// with its current status and the tables are untouched.
pub fn ship_job(m: &mut JobManager, id: u64) -> (r: JobPayload)
    requires
        tables_wf(old(m)@),
    ensures
        tables_wf(final(m)@),
        table_has(old(m)@.ready, id) ==> ({
            &&& r matches JobPayload::Payload(j) && Option::Some(j@) == table_lookup(
                old(m)@.ready,
                id,
            )
            &&& final(m)@.ready == old(m)@.ready.remove(find_id_from(old(m)@.ready, id, 0)->Some_0)
            &&& final(m)@.claimed == old(m)@.claimed.push(id)
            &&& final(m)@.waiting == old(m)@.waiting
            &&& final(m)@.cancelled == old(m)@.cancelled
            &&& final(m)@.cur_pats == old(m)@.cur_pats
            &&& status_of(final(m)@, id) is Claimed
        }),
        !table_has(old(m)@.ready, id) ==> final(m)@ == old(m)@ && (r matches JobPayload::BadQuery(s)
            && s == status_of(old(m)@, id)),
{
    let ghost m0 = m@;
    match find_id(&m.ready, id) {
        Some(k) => {
            let ghost f = k as int;
            proof {
                lemma_table_lookup_props_rec(m0.ready, id, 0);
            }
            let p = m.ready.remove(k);
            m.claimed.push(id);
            proof {
                assert(m@.ready =~= m0.ready.remove(f)) by {
                    assert forall|t: int| 0 <= t < m@.ready.len() implies #[trigger] m@.ready[t]
                        == m0.ready.remove(f)[t] by {
                        if t < f {
                            assert(m.ready@[t] == old(m).ready@[t]);
                        } else {
                            assert(m.ready@[t] == old(m).ready@[t + 1]);
                        }
                    }
                }
                lemma_table_remove(m0.ready, f);
                assert(p.0 == id && m0.ready[f].0 == id);
                assert(Option::Some(p.1@) == table_lookup(m0.ready, id));
                lemma_table_lookup_props(m0.waiting, id);
                assert(!table_has(m0.waiting, id));
                assert(!table_has(m@.waiting, id));
                assert(!table_has(m@.ready, id));
                assert(table_has(m0.ready, id));
                assert(!m0.cancelled.contains(id));
                assert(m@.cancelled == m0.cancelled);
                assert(m@.claimed.contains(id)) by {
                    assert(m@.claimed[m0.claimed.len() as int] == id);
                }
                assert(status_of(m@, id) is Claimed);
                assert(tables_wf(m@)) by {
                    assert forall|x: u64| table_has(m@.waiting, x) implies !m@.cancelled.contains(x)
                        && !m@.claimed.contains(x) by {
                        if x == id {
                            assert(table_has(m0.waiting, id));
                        }
                        assert(forall|t: int|
                            0 <= t < m0.claimed.len() ==> m@.claimed[t] == #[trigger] m0.claimed[t]);
                    }
                    assert forall|x: u64| table_has(m@.ready, x) implies !m@.cancelled.contains(x)
                        && !m@.claimed.contains(x) by {
                        assert(table_has(m0.ready, x));
                        assert(x != id);
                        assert(forall|t: int|
                            0 <= t < m0.claimed.len() ==> m@.claimed[t] == #[trigger] m0.claimed[t]);
                        assert(m@.claimed[m0.claimed.len() as int] == id);
                        if m@.claimed.contains(x) {
                            let t = choose|t: int|
                                0 <= t < m@.claimed.len() && m@.claimed[t] == x;
                            assert(t < m0.claimed.len());
                            assert(m0.claimed.contains(x));
                        }
                    }
                    assert forall|x: u64| m@.cancelled.contains(x) implies !m@.claimed.contains(
                        x,
                    ) by {
                        if m@.claimed.contains(x) {
                            let t = choose|t: int|
                                0 <= t < m@.claimed.len() && m@.claimed[t] == x;
                            assert(forall|u: int|
                                0 <= u < m0.claimed.len() ==> m@.claimed[u] == #[trigger] m0.claimed[u]);
                            if t < m0.claimed.len() {
                                assert(m0.claimed.contains(x));
                            } else {
                                assert(x == id);
                                assert(!m0.cancelled.contains(id));
                            }
                        }
                    }
                    assert forall|x: u64| table_has(m@.waiting, x) implies !table_has(
                        m@.ready,
                        x,
                    ) by {
                        if table_has(m@.ready, x) {
                            assert(table_has(m0.ready, x));
                        }
                    }
                    assert forall|t: int|
                        0 <= t < m@.ready.len() implies job_wf((#[trigger] m@.ready[t]).1) by {
                        if t < f {
                            assert(m@.ready[t] == m0.ready[t]);
                        } else {
                            assert(m@.ready[t] == m0.ready[t + 1]);
                        }
                    }
                }
            }
            JobPayload::Payload(p.1)
        },
        None => {
            let s = query_status(m, id);
            JobPayload::BadQuery(s)
        },
    }
}

/// A job may run for at most a week of device ticks.
pub const JOB_LIMIT_TICKS: u64 = 600_000 * 200_000_000;

/// How many whole manager ticks a requested duration decomposes into:
/// at least one, and at most a week's worth.
pub open spec fn cycles_for(duration: u64, period: u64) -> u64 {
    if duration < period {
        1u64
    } else if duration > JOB_LIMIT_TICKS {
        JOB_LIMIT_TICKS / period
    } else {
        duration / period
    }
}

/// Build the job for a submission: counting starts at zero, the cycle budget
/// comes from the requested duration and the manager's tick period.
pub fn submit_job(id: u64, patterns: Vec<u16>, duration: u64, handle: String, period: u64) -> (j:
    Job)
    requires
        period >= 1,
    ensures
        j@.id == id,
        j@.patterns == patterns@,
        j@.events.len() == patterns@.len(),
        forall|i: int| 0 <= i < j@.events.len() ==> j@.events[i] == 0,
        j@.cycles == cycles_for(duration, period),
        j@.cycles >= 1 <==> cycles_for(duration, period) >= 1,
        !j@.started,
        !j@.finished,
        j@.duration == 0,
        j@.window == 1,
        j@.handle == handle@,
        (j.meta is Ready),
        (j.resolution is Norm),
{
    let events: Vec<u64> = vec![0u64; patterns.len()];
    let cycles: u64 = if duration < period {
        1
    } else if duration > JOB_LIMIT_TICKS {
        JOB_LIMIT_TICKS / period
    } else {
        duration / period
    };
    Job {
        id,
        patterns,
        events,
        window: 1,
        duration: 0,
        cycles,
        started: false,
        finished: false,
        starttag: 0,
        stoptag: 0,
        meta: JobMeta::Ready,
        resolution: Resolution::Norm,
        handle,
    }
}

/// Global configuration of the batch-job server.
#[derive(Clone, Copy)]
pub struct Config {
    /// Tick period of the manager, in milliseconds.
    pub rate: u16,
}

impl Default for Config {
    fn default() -> (c: Config)
        ensures
            c.rate == 400,
    {
        Config { rate: 400 }
    }
}

impl Config {
    /// Convert the server tick rate to device tick units of 5 ns.
    pub fn get_rate_tick_units(self) -> (r: u64)
        ensures
            r == 200_000 * self.rate,
    {
        200_000u64 * self.rate as u64
    }
}

/// The tables after one full manager tick: counts credited, durations and
/// cycles advanced, expired jobs moved to ready, fresh jobs started, and the
/// reverse index rebuilt.
pub open spec fn model_tick(m: TablesModel, counts: Seq<(u16, u64)>, dur: u64) -> TablesModel {
    model_update_patterns(
        model_activate(model_reap(model_add_duration(model_update_subs(m, counts), dur))),
    )
}

/// One full manager tick with this tick's device counts and duration.
pub fn tick(m: &mut JobManager, counts: &Vec<(u16, u64)>, dur: u64)
    requires
        tables_wf(old(m)@),
    ensures
        final(m)@ == model_tick(old(m)@, counts@, dur),
        tables_wf(final(m)@),
{
    update_subs(m, counts);
    add_duration(m, dur);
    reap_ready_jobs(m);
    activate_new_jobs(m);
    update_patterns(m);
}

/// Well-formedness carries through each model phase of a tick.
proof fn lemma_model_phases_wf(m: TablesModel, counts: Seq<(u16, u64)>, dur: u64)
    requires
        tables_wf(m),
    ensures
        tables_wf(model_update_subs(m, counts)),
        tables_wf(model_add_duration(model_update_subs(m, counts), dur)),
        tables_wf(model_reap(model_add_duration(model_update_subs(m, counts), dur))),
        tables_wf(
            model_activate(model_reap(model_add_duration(model_update_subs(m, counts), dur))),
        ),
        tables_wf(model_tick(m, counts, dur)),
{
    let ma = model_update_subs(m, counts);
    lemma_wf_same_keys(m, ma);
    let mb = model_add_duration(ma, dur);
    lemma_wf_same_keys(ma, mb);
    let mc = model_reap(mb);
    lemma_reap_wf(mb);
    let md = model_activate(mc);
    lemma_wf_same_keys(mc, md);
    lemma_update_patterns_wf(md);
}

/// How one waiting job fares across one full tick: an unstarted job starts;
/// a started one gains the tick's duration and loses a cycle, moving to
/// ready when its cycles run out. A job already ready stays put.
proof fn lemma_tick_job(m: TablesModel, counts: Seq<(u16, u64)>, dur: u64, id: u64)
    requires
        tables_wf(m),
    ensures
        tables_wf(model_tick(m, counts, dur)),
        table_has(m.waiting, id) ==> ({
            let j = table_lookup(m.waiting, id)->Some_0;
            let ev = job_events_after(j, id, m.cur_pats, counts);
            let m2 = model_tick(m, counts, dur);
            &&& !j.started && j.cycles != 0 ==> table_lookup(m2.waiting, id) == Option::Some(
                (JobModel { started: true, events: ev, ..j }),
            ) && status_of(m2, id) is Waiting
            &&& j.started && j.cycles > 1 ==> table_lookup(m2.waiting, id) == Option::Some(
                (JobModel {
                    events: ev,
                    duration: sat_add64(j.duration, dur),
                    cycles: (j.cycles - 1) as u64,
                    started: true,
                    ..j
                }),
            ) && status_of(m2, id) is Waiting
            &&& j.started && j.cycles <= 1 ==> !table_has(m2.waiting, id) && table_lookup(
                m2.ready,
                id,
            ) == Option::Some(
                (JobModel {
                    events: ev,
                    duration: sat_add64(j.duration, dur),
                    cycles: 0u64,
                    ..j
                }),
            ) && status_of(m2, id) is Ready
        }),
        !table_has(m.waiting, id) && table_has(m.ready, id) ==> table_lookup(
            model_tick(m, counts, dur).ready,
            id,
        ) == table_lookup(m.ready, id) && status_of(model_tick(m, counts, dur), id) is Ready,
{
    lemma_model_phases_wf(m, counts, dur);
    let ma = model_update_subs(m, counts);
    let mb = model_add_duration(ma, dur);
    let mc = model_reap(mb);
    let md = model_activate(mc);
    let m2 = model_tick(m, counts, dur);
    assert(m2.waiting == md.waiting && m2.ready == md.ready);
    lemma_find_same_keys(m.waiting, ma.waiting, id, 0);
    lemma_find_same_keys(ma.waiting, mb.waiting, id, 0);
    lemma_find_same_keys(mc.waiting, md.waiting, id, 0);
    if table_has(m.waiting, id) {
        lemma_table_lookup_props_rec(m.waiting, id, 0);
        let f = find_id_from(m.waiting, id, 0)->Some_0;
        let j = table_lookup(m.waiting, id)->Some_0;
        assert(j == m.waiting[f].1);
        let ev = job_events_after(j, id, m.cur_pats, counts);
        let ja = (JobModel { events: ev, ..j });
        assert(ma.waiting[f] == (id, ja));
        assert(table_lookup(ma.waiting, id) == Option::Some(ja)) by {
            assert(find_id_from(ma.waiting, id, 0) == Option::Some(f));
        }
        let jb = job_add_dur(ja, dur);
        assert(mb.waiting[f] == (id, jb));
        assert(table_lookup(mb.waiting, id) == Option::Some(jb)) by {
            assert(find_id_from(mb.waiting, id, 0) == Option::Some(f));
        }
        lemma_reap_lookup(mb.waiting, id);
        assert(!table_has(mb.ready, id)) by {
            assert(table_has(mb.waiting, id)) by {
                assert(find_id_from(mb.waiting, id, 0) == Option::Some(f));
            }
        }
        lemma_lookup_append(mb.ready, reap_move(mb.waiting), id);
        assert(mc.ready == mb.ready + reap_move(mb.waiting));
        if !j.started {
            assert(jb == ja);
            assert(jb.cycles == j.cycles);
            assert(table_lookup(mc.waiting, id) == Option::Some(jb) || jb.cycles == 0);
            if jb.cycles != 0 {
                assert(table_lookup(mc.waiting, id) == Option::Some(jb));
                lemma_table_lookup_props_rec(mc.waiting, id, 0);
                let g = find_id_from(mc.waiting, id, 0)->Some_0;
                assert(mc.waiting[g] == (id, jb));
                assert(md.waiting[g] == (id, (JobModel { started: true, ..jb })));
                assert(table_lookup(md.waiting, id) == Option::Some(
                    (JobModel { started: true, ..jb }),
                )) by {
                    assert(find_id_from(md.waiting, id, 0) == Option::Some(g));
                }
                assert(table_lookup(m2.waiting, id) == Option::Some(
                    (JobModel { started: true, events: ev, ..j }),
                ));
                assert(status_of(m2, id) is Waiting);
            } else {
                // an unstarted job holds at least the one cycle its
                // submission clamped in, or moves to ready untouched
                assert(table_lookup(mc.ready, id) == Option::Some(jb));
                assert(!table_has(mc.waiting, id));
                assert(!table_has(md.waiting, id));
                assert(status_of(m2, id) is Ready);
            }
        } else {
            assert(ja.started && jb.started);
            if j.cycles > 1 {
                assert(jb.cycles == j.cycles - 1 >= 1);
                assert(table_lookup(mc.waiting, id) == Option::Some(jb));
                lemma_table_lookup_props_rec(mc.waiting, id, 0);
                let g = find_id_from(mc.waiting, id, 0)->Some_0;
                assert(mc.waiting[g] == (id, jb));
                assert(md.waiting[g] == (id, (JobModel { started: true, ..jb })));
                assert(table_lookup(md.waiting, id) == Option::Some(
                    (JobModel { started: true, ..jb }),
                )) by {
                    assert(find_id_from(md.waiting, id, 0) == Option::Some(g));
                }
                assert((JobModel { started: true, ..jb }) == jb);
                assert(status_of(m2, id) is Waiting);
            } else {
                assert(jb.cycles == 0);
                assert(table_lookup(mc.ready, id) == Option::Some(jb));
                assert(!table_has(mc.waiting, id));
                assert(!table_has(md.waiting, id));
                assert(jb == (JobModel {
                    events: ev,
                    duration: sat_add64(j.duration, dur),
                    cycles: 0u64,
                    ..j
                }));
                assert(status_of(m2, id) is Ready);
            }
        }
    } else if table_has(m.ready, id) {
        assert(ma.ready == m.ready && mb.ready == m.ready);
        lemma_reap_lookup(mb.waiting, id);
        assert(!table_has(mb.waiting, id)) by {
            lemma_find_same_keys(m.waiting, ma.waiting, id, 0);
            lemma_find_same_keys(ma.waiting, mb.waiting, id, 0);
        }
        lemma_lookup_append(m.ready, reap_move(mb.waiting), id);
        assert(table_lookup(mc.ready, id) == table_lookup(m.ready, id));
        assert(md.ready == mc.ready && m2.ready == mc.ready);
        assert(!table_has(m2.waiting, id)) by {
            lemma_find_same_keys(mc.waiting, md.waiting, id, 0);
        }
        assert(status_of(m2, id) is Ready);
    }
}

/// Looking up an id in a concatenation of two tables searches the first, then
/// the second.
proof fn lemma_lookup_append(r1: Seq<(u64, JobModel)>, r2: Seq<(u64, JobModel)>, id: u64)
    ensures
        table_lookup(r1 + r2, id) == if table_has(r1, id) {
            table_lookup(r1, id)
        } else {
            table_lookup(r2, id)
        },
        table_has(r1 + r2, id) == (table_has(r1, id) || table_has(r2, id)),
    decreases r2.len(),
{
    if r2.len() == 0 {
        assert(r1 + r2 =~= r1);
    } else {
        assert(r1 + r2 =~= (r1 + r2.drop_last()).push(r2.last()));
        lemma_lookup_append(r1, r2.drop_last(), id);
        lemma_lookup_push(r1 + r2.drop_last(), r2.last(), id);
        lemma_lookup_push_has(r1 + r2.drop_last(), r2.last(), id);
        if !table_has(r1, id) {
            lemma_lookup_last(r2, id);
        }
    }
}

proof fn lemma_lookup_push_has(s: Seq<(u64, JobModel)>, p: (u64, JobModel), id: u64)
    ensures
        table_has(s.push(p), id) == (table_has(s, id) || p.0 == id),
{
    lemma_find_id_from_push(s, p, id);
}

/// Looking up in a table is looking in all but the last entry first.
proof fn lemma_lookup_last(s: Seq<(u64, JobModel)>, id: u64)
    requires
        s.len() > 0,
    ensures
        table_lookup(s, id) == if table_has(s.drop_last(), id) {
            table_lookup(s.drop_last(), id)
        } else if s.last().0 == id {
            Option::Some(s.last().1)
        } else {
            Option::<JobModel>::None
        },
{
    assert(s =~= s.drop_last().push(s.last()));
    lemma_lookup_push(s.drop_last(), s.last(), id);
}

/// The manager's tables after `n` full ticks, each carrying the same counts
/// and duration.
pub open spec fn model_ticks(m: TablesModel, counts: Seq<(u16, u64)>, dur: u64, n: nat) -> TablesModel
    decreases n,
{
    if n == 0 {
        m
    } else {
        model_tick(model_ticks(m, counts, dur, (n - 1) as nat), counts, dur)
    }
}

/// The batch-job lifecycle: a freshly submitted job with a budget of `c`
/// cycles is waiting after each of its first `c` ticks — started, with
/// `c - (n - 1)` cycles left and `(n - 1)` ticks' duration on the clock
/// after the `n`-th — and ready after tick `c + 1` with exactly `c` ticks'
/// worth of accumulated duration.
pub proof fn lemma_job_lifecycle(
    m: TablesModel,
    counts: Seq<(u16, u64)>,
    dur: u64,
    id: u64,
    n: nat,
)
    requires
        tables_wf(m),
        table_has(m.waiting, id),
        !table_lookup(m.waiting, id)->Some_0.started,
        table_lookup(m.waiting, id)->Some_0.cycles >= 1,
        table_lookup(m.waiting, id)->Some_0.duration == 0,
        table_lookup(m.waiting, id)->Some_0.cycles * dur <= u64::MAX,
    ensures
        tables_wf(model_ticks(m, counts, dur, n)),
        ({
            let c = table_lookup(m.waiting, id)->Some_0.cycles;
            let mn = model_ticks(m, counts, dur, n);
            &&& 1 <= n <= c ==> status_of(mn, id) is Waiting && table_has(mn.waiting, id)
                && table_lookup(mn.waiting, id)->Some_0.started && table_lookup(
                mn.waiting,
                id,
            )->Some_0.cycles == c - (n - 1) && table_lookup(mn.waiting, id)->Some_0.duration == (n
                - 1) * dur
            &&& n == c + 1 ==> status_of(mn, id) is Ready && table_lookup(
                mn.ready,
                id,
            )->Some_0.duration == c * dur && table_lookup(mn.ready, id)->Some_0.cycles == 0
        }),
    decreases n,
{
    let c = table_lookup(m.waiting, id)->Some_0.cycles;
    if n == 0 {
    } else {
        lemma_job_lifecycle(m, counts, dur, id, (n - 1) as nat);
        let mp = model_ticks(m, counts, dur, (n - 1) as nat);
        lemma_tick_job(mp, counts, dur, id);
        if n == 1 {
            assert(mp == m);
            let j = table_lookup(m.waiting, id)->Some_0;
            assert(!j.started);
            assert(status_of(model_ticks(m, counts, dur, n), id) is Waiting);
        } else if n <= c {
            let jp = table_lookup(mp.waiting, id)->Some_0;
            assert(jp.started && jp.cycles == c - (n - 2) && jp.duration == (n - 2) * dur);
            assert(jp.cycles > 1);
            assert(sat_add64(jp.duration, dur) == (n - 1) * dur) by {
                assert((n - 2) * dur + dur == (n - 1) * dur) by (nonlinear_arith);
                assert((n - 1) * dur <= c * dur) by (nonlinear_arith)
                    requires
                        n - 1 <= c,
                        dur >= 0,
                ;
            }
        } else if n == c + 1 {
            let jp = table_lookup(mp.waiting, id)->Some_0;
            assert(jp.started && jp.cycles == c - (n - 2) && jp.duration == (n - 2) * dur);
            assert(jp.cycles == 1);
            assert(sat_add64(jp.duration, dur) == c * dur) by {
                assert((n - 2) * dur + dur == (n - 1) * dur) by (nonlinear_arith);
                assert((n - 1) * dur <= c * dur) by (nonlinear_arith)
                    requires
                        n - 1 <= c,
                        dur >= 0,
                ;
            }
        }
    }
}

} // verus!
