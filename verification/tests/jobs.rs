use tagtools::jobs::{
    add_job, query_status, ship_job, submit_job, tick, Config, JobManager, JobPayload, JobStatus,
    JOB_LIMIT_TICKS,
};

#[test]
fn submit_clamps_cycles() {
    let period = Config::default().get_rate_tick_units();
    assert_eq!(period, 80_000_000);
    // Shorter than one period: one cycle.
    let j = submit_job(1, vec![1], period - 1, String::new(), period);
    assert_eq!(j.cycles, 1);
    // A whole number of periods.
    let j = submit_job(2, vec![1], period * 20, String::new(), period);
    assert_eq!(j.cycles, 20);
    // Beyond the limit: a week's worth of cycles.
    let j = submit_job(3, vec![1], u64::MAX, String::new(), period);
    assert_eq!(j.cycles, JOB_LIMIT_TICKS / period);
}

#[test]
fn submitted_jobs_start_empty() {
    let j = submit_job(7, vec![0x0001, 0x0002, 0x0003], 1000, String::from("run"), 400);
    assert_eq!(j.id, 7);
    assert_eq!(j.patterns, vec![0x0001, 0x0002, 0x0003]);
    assert_eq!(j.events, vec![0, 0, 0]);
    assert_eq!(j.duration, 0);
    assert!(!j.started);
    assert!(!j.finished);
    assert_eq!(j.handle, "run");
}

#[test]
fn job_lifecycle() {
    let mut m = JobManager::new();
    let period: u64 = 400;
    // Requested duration of three periods: three cycles.
    let job = submit_job(1, vec![0x0001, 0x0002], 3 * period, String::new(), period);
    let cycles = job.cycles;
    assert_eq!(cycles, 3);
    add_job(&mut m, job);
    tagtools::jobs::update_patterns(&mut m);
    // Immediately after submission the job is waiting.
    assert_eq!(query_status(&m, 1), JobStatus::Waiting);
    assert_eq!(query_status(&m, 2), JobStatus::BadId);
    // The job waits through its first, partial tick and its budgeted whole
    // ticks, then turns ready.
    let counts: Vec<(u16, u64)> = vec![(0x0001, 10), (0x0002, 20)];
    let dur: u64 = 400;
    for _ in 0..cycles + 1 {
        assert_eq!(query_status(&m, 1), JobStatus::Waiting);
        tick(&mut m, &counts, dur);
    }
    assert_eq!(query_status(&m, 1), JobStatus::Ready);
    // Fetch the results: duration covers the budgeted cycles, and each
    // pattern accumulated its per-tick count over the started ticks.
    match ship_job(&mut m, 1) {
        JobPayload::Payload(j) => {
            assert_eq!(j.duration, cycles * dur);
            assert_eq!(j.cycles, 0);
            assert_eq!(j.events, vec![10 * cycles, 20 * cycles]);
            assert!(j.started);
        }
        JobPayload::BadQuery(_) => panic!("ready job refused"),
    }
    // A second fetch reports the job as claimed.
    assert_eq!(query_status(&m, 1), JobStatus::Claimed);
    match ship_job(&mut m, 1) {
        JobPayload::BadQuery(s) => assert_eq!(s, JobStatus::Claimed),
        JobPayload::Payload(_) => panic!("claimed job shipped twice"),
    }
    // Fetching an unknown id reports it as such.
    match ship_job(&mut m, 99) {
        JobPayload::BadQuery(s) => assert_eq!(s, JobStatus::BadId),
        JobPayload::Payload(_) => panic!("unknown job shipped"),
    }
}

#[test]
fn unstarted_jobs_skip_their_first_tick() {
    let mut m = JobManager::new();
    let job = submit_job(5, vec![0x0001], 400, String::new(), 400);
    assert_eq!(job.cycles, 1);
    add_job(&mut m, job);
    tagtools::jobs::update_patterns(&mut m);
    let counts: Vec<(u16, u64)> = vec![(0x0001, 3)];
    // The first tick only starts the job: no counts, no duration.
    tick(&mut m, &counts, 400);
    assert_eq!(query_status(&m, 5), JobStatus::Waiting);
    // The second tick counts and finishes it.
    tick(&mut m, &counts, 400);
    assert_eq!(query_status(&m, 5), JobStatus::Ready);
    match ship_job(&mut m, 5) {
        JobPayload::Payload(j) => {
            assert_eq!(j.events, vec![3]);
            assert_eq!(j.duration, 400);
        }
        JobPayload::BadQuery(_) => panic!("ready job refused"),
    }
}

#[test]
fn only_first_position_of_a_repeated_pattern_counts() {
    let mut m = JobManager::new();
    let job = submit_job(9, vec![0x0003, 0x0003], 400, String::new(), 400);
    add_job(&mut m, job);
    tagtools::jobs::update_patterns(&mut m);
    let counts: Vec<(u16, u64)> = vec![(0x0003, 8)];
    tick(&mut m, &counts, 400);
    tick(&mut m, &counts, 400);
    match ship_job(&mut m, 9) {
        JobPayload::Payload(j) => assert_eq!(j.events, vec![8, 0]),
        JobPayload::BadQuery(_) => panic!("ready job refused"),
    }
}

#[test]
fn duplicate_submission_is_ignored() {
    let mut m = JobManager::new();
    let first = submit_job(4, vec![0x0001], 400, String::from("first"), 400);
    add_job(&mut m, first);
    let second = submit_job(4, vec![0x0002], 400, String::from("second"), 400);
    add_job(&mut m, second);
    assert_eq!(query_status(&m, 4), JobStatus::Waiting);
    tick(&mut m, &vec![], 400);
    tick(&mut m, &vec![], 400);
    match ship_job(&mut m, 4) {
        JobPayload::Payload(j) => assert_eq!(j.handle, "first"),
        JobPayload::BadQuery(_) => panic!("ready job refused"),
    }
}
