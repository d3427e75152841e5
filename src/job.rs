use vstd::prelude::*;
use vstd::multiset::Multiset;

verus! {

/// Where a job stands: released and never run, partly run and still able to
/// meet its deadline, or in one of the two terminal states.
#[derive(Clone, Copy, Debug, PartialEq, Eq, Structural)]
pub enum JobStatus {
    Ready,
    Running,
    DeadlineExceeded,
    Done,
}

/// Total length of the half-open intervals `[start, end)` of a run log.
pub open spec fn log_total(log: Seq<(usize, usize)>) -> int
    decreases log.len(),
{
    if log.len() == 0 {
        0
    } else {
        log_total(log.drop_last()) + (log.last().1 - log.last().0)
    }
}

/// Every interval is well formed, and the intervals are sorted by start time
/// and pairwise disjoint.
pub open spec fn log_ordered(log: Seq<(usize, usize)>) -> bool {
    &&& forall|i: int| 0 <= i < log.len() ==> (#[trigger] log[i]).0 <= log[i].1
    &&& forall|i: int, j: int|
        0 <= i < j < log.len() ==> (#[trigger] log[i]).1 <= (#[trigger] log[j]).0
}

/// Whether the interval `[start, end)` holds the time unit `t`.
pub open spec fn interval_holds(iv: (usize, usize), t: int) -> bool {
    iv.0 <= t < iv.1
}

/// Where a run step that starts at `from` and may go on until `to` stops: at
/// `to`, at the deadline, or when the remaining demand is met, whichever
/// comes first.
pub open spec fn run_end(from: int, to: int, deadline: int, remaining: int) -> int {
    let a = if to <= deadline { to } else { deadline };
    if a <= from + remaining { a } else { from + remaining }
}

/// The state a job moves to after a run step that ended at `end` and left
/// `remaining` units of demand.
pub open spec fn status_after(end: int, remaining: int, deadline: int) -> JobStatus {
    if end + remaining > deadline {
        JobStatus::DeadlineExceeded
    } else if remaining == 0 {
        JobStatus::Done
    } else {
        JobStatus::Running
    }
}

/// One released instance of a periodic task.
#[derive(Debug)]
pub struct Job {
    id: usize,
    iteration: usize,
    arrival_time: usize,
    deadline: usize,
    wcet: usize,
    remaining: usize,
    log: Vec<(usize, usize)>,
    status: JobStatus,
}

impl Job {
    pub closed spec fn spec_id(&self) -> usize {
        self.id
    }

    pub closed spec fn spec_iteration(&self) -> usize {
        self.iteration
    }

    pub closed spec fn spec_arrival(&self) -> usize {
        self.arrival_time
    }

    pub closed spec fn spec_deadline(&self) -> usize {
        self.deadline
    }

    pub closed spec fn spec_wcet(&self) -> usize {
        self.wcet
    }

    pub closed spec fn spec_remaining(&self) -> usize {
        self.remaining
    }

    pub closed spec fn spec_log(&self) -> Seq<(usize, usize)> {
        self.log@
    }

    pub closed spec fn spec_status(&self) -> JobStatus {
        self.status
    }

    /// What identifies a job and never changes while it is simulated.
    pub open spec fn spec_key(&self) -> (usize, usize, usize, usize, usize) {
        (
            self.spec_id(),
            self.spec_iteration(),
            self.spec_arrival(),
            self.spec_deadline(),
            self.spec_wcet(),
        )
    }

    /// Released and not yet in a terminal state.
    pub open spec fn is_active(&self) -> bool {
        self.spec_status() == JobStatus::Ready || self.spec_status() == JobStatus::Running
    }

    /// Done, or out of time.
    pub open spec fn is_finished(&self) -> bool {
        self.spec_status() == JobStatus::Done || self.spec_status()
            == JobStatus::DeadlineExceeded
    }

    /// Whether the job's run log covers time unit `t`.
    pub open spec fn runs_at(&self, t: int) -> bool {
        exists|i: int|
            0 <= i < self.spec_log().len() && interval_holds(#[trigger] self.spec_log()[i], t)
    }

    /// The job's consistency: its log is ordered and lies between arrival and
    /// deadline, accounts for exactly the demand already served, and agrees
    /// with the status.
    pub open spec fn wf(&self) -> bool {
        let log = self.spec_log();
        let rem = self.spec_remaining() as int;
        let dl = self.spec_deadline() as int;
        &&& self.spec_arrival() <= self.spec_deadline()
        &&& self.spec_remaining() <= self.spec_wcet()
        &&& log_ordered(log)
        &&& log_total(log) == self.spec_wcet() - rem
        &&& forall|i: int|
            0 <= i < log.len() ==> self.spec_arrival() <= (#[trigger] log[i]).0 && log[i].1
                <= self.spec_deadline()
        &&& match self.spec_status() {
            JobStatus::Ready => log.len() == 0,
            JobStatus::Running => log.len() > 0 && rem > 0 && log.last().1 + rem <= dl,
            JobStatus::DeadlineExceeded => log.len() > 0 && log.last().1 + rem > dl,
            JobStatus::Done => log.len() > 0 && rem == 0,
        }
    }

    /// A job released at `arrival_time` that owes `wcet` units of work before
    /// `deadline`.
    pub fn new(id: usize, iteration: usize, arrival_time: usize, wcet: usize, deadline: usize) -> (r:
        Self)
        requires
            arrival_time <= deadline,
        ensures
            r.spec_key() == (id, iteration, arrival_time, deadline, wcet),
            r.spec_remaining() == wcet,
            r.spec_log().len() == 0,
            r.spec_status() == JobStatus::Ready,
            r.wf(),
    {
        Self {
            id,
            iteration,
            arrival_time,
            deadline,
            wcet,
            remaining: wcet,
            log: Vec::new(),
            status: JobStatus::Ready,
        }
    }

    pub fn id(&self) -> (r: usize)
        ensures
            r == self.spec_id(),
    {
        self.id
    }

    pub fn iteration(&self) -> (r: usize)
        ensures
            r == self.spec_iteration(),
    {
        self.iteration
    }

    pub fn arrival_time(&self) -> (r: usize)
        ensures
            r == self.spec_arrival(),
    {
        self.arrival_time
    }

    pub fn deadline(&self) -> (r: usize)
        ensures
            r == self.spec_deadline(),
    {
        self.deadline
    }

    pub fn remaining(&self) -> (r: usize)
        ensures
            r == self.spec_remaining(),
    {
        self.remaining
    }

    pub fn status(&self) -> (r: JobStatus)
        ensures
            r == self.spec_status(),
    {
        self.status
    }

    pub fn log(&self) -> (r: &Vec<(usize, usize)>)
        ensures
            r@ == self.spec_log(),
    {
        &self.log
    }

    /// Runs the job from `from` until `to`, its deadline or the end of its
    /// demand, whichever comes first; records the interval, and moves the job
    /// to its next state. Returns the time that passed.
    fn run(&mut self, from: usize, to: usize) -> (r: usize)
        requires
            old(self).wf(),
            old(self).is_active(),
            old(self).spec_arrival() <= from,
            from <= to,
            from <= old(self).spec_deadline(),
            old(self).spec_log().len() > 0 ==> old(self).spec_log().last().1 <= from,
        ensures
            ({
                let end = run_end(
                    from as int,
                    to as int,
                    old(self).spec_deadline() as int,
                    old(self).spec_remaining() as int,
                );
                &&& r == end - from
                &&& final(self).spec_log() == old(self).spec_log().push((from, end as usize))
                &&& final(self).spec_remaining() == old(self).spec_remaining() - r
                &&& final(self).spec_status() == status_after(
                    end,
                    final(self).spec_remaining() as int,
                    old(self).spec_deadline() as int,
                )
            }),
            final(self).spec_key() == old(self).spec_key(),
            final(self).wf(),
    {
        let mut end = if to <= self.deadline {
            to
        } else {
            self.deadline
        };
        if end - from > self.remaining {
            end = from + self.remaining;
        }
        let duration = end - from;
        self.remaining = self.remaining - duration;
        let ghost old_log = self.log@;
        self.log.push((from, end));
        proof {
            assert(self.log@.drop_last() == old_log);
        }
        if self.remaining > self.deadline - end {
            self.status = JobStatus::DeadlineExceeded;
        } else if self.remaining == 0 {
            self.status = JobStatus::Done;
        } else {
            self.status = JobStatus::Running;
        }
        duration
    }
}

/// Every job is consistent and has not run yet.
pub open spec fn pending_jobs(jobs: Seq<Job>) -> bool {
    forall|i: int|
        0 <= i < jobs.len() ==> (#[trigger] jobs[i]).wf() && jobs[i].spec_status()
            == JobStatus::Ready
}

/// Each run of the job stopped at its deadline, at the release time of some
/// job of `input`, or, for its last run, when its demand was met.
pub open spec fn runs_stop_at_events(job: Job, input: Seq<Job>) -> bool {
    forall|w: int|
        0 <= w < job.spec_log().len() ==> {
            let e = (#[trigger] job.spec_log()[w]).1;
            ||| e == job.spec_deadline()
            ||| (w == job.spec_log().len() - 1 && job.spec_remaining() == 0)
            ||| exists|i: int| 0 <= i < input.len() && (#[trigger] input[i]).spec_arrival() == e
        }
}

/// Whether some job of `input` has the same key as `job`.
pub open spec fn drawn_from(job: Job, input: Seq<Job>) -> bool {
    exists|i: int| 0 <= i < input.len() && (#[trigger] input[i]).spec_key() == job.spec_key()
}

/// The keys of the jobs, as a multiset.
pub open spec fn key_bag(jobs: Seq<Job>) -> Multiset<(usize, usize, usize, usize, usize)> {
    jobs.map_values(|j: Job| j.spec_key()).to_multiset()
}

proof fn lemma_bag_push(jobs: Seq<Job>, x: Job)
    ensures
        key_bag(jobs.push(x)) == key_bag(jobs).insert(x.spec_key()),
{
    broadcast use vstd::seq_lib::group_to_multiset_ensures;

    assert(jobs.push(x).map_values(|j: Job| j.spec_key()) =~= jobs.map_values(|j: Job| j.spec_key()).push(
        x.spec_key(),
    ));
}

proof fn lemma_bag_remove(jobs: Seq<Job>, k: int)
    requires
        0 <= k < jobs.len(),
    ensures
        key_bag(jobs.remove(k)) == key_bag(jobs).remove(jobs[k].spec_key()),
{
    broadcast use vstd::seq_lib::group_to_multiset_ensures;

    let keys = jobs.map_values(|j: Job| j.spec_key());
    assert(jobs.remove(k).map_values(|j: Job| j.spec_key()) =~= keys.remove(k));
    assert(keys[k] == jobs[k].spec_key());
}

/// The indices `0, 1, ..., n - 1`.
pub open spec fn index_range(n: nat) -> Seq<int> {
    Seq::new(n, |i: int| i)
}

/// Two positions with one value count twice.
proof fn lemma_ids_twice(ids: Seq<int>, i: int, j: int)
    requires
        0 <= i < ids.len(),
        0 <= j < ids.len(),
        i != j,
        ids[i] == ids[j],
    ensures
        ids.to_multiset().count(ids[i]) >= 2,
{
    broadcast use vstd::seq_lib::group_to_multiset_ensures, vstd::multiset::group_multiset_axioms;

    let rest = ids.remove(j);
    assert(rest.to_multiset() == ids.to_multiset().remove(ids[j]));
    let w = if i < j { i } else { i - 1 };
    assert(rest[w] == ids[i]);
    assert(rest.contains(ids[i]));
    assert(rest.to_multiset().count(ids[i]) > 0);
    assert(ids.to_multiset().count(ids[i]) > 0);
}

/// Each index occurs once at most.
proof fn lemma_range_once(n: nat, x: int)
    ensures
        index_range(n).to_multiset().count(x) <= 1,
{
    broadcast use vstd::seq_lib::group_to_multiset_ensures, vstd::multiset::group_multiset_axioms;

    let r = index_range(n);
    if r.to_multiset().count(x) >= 2 {
        assert(r.contains(x));
        let p = choose|p: int| 0 <= p < r.len() && r[p] == x;
        let rest = r.remove(p);
        assert(rest.to_multiset() == r.to_multiset().remove(r[p]));
        assert(rest.to_multiset().count(x) > 0);
        assert(rest.contains(x));
        let q = choose|q: int| 0 <= q < rest.len() && rest[q] == x;
        let a = if q < p { q } else { q + 1 };
        assert(r[a] == x);
    }
}

/// Whether some job of `jobs` has key `key`.
pub open spec fn has_key(jobs: Seq<Job>, key: (usize, usize, usize, usize, usize)) -> bool {
    exists|i: int| 0 <= i < jobs.len() && (#[trigger] jobs[i]).spec_key() == key
}

proof fn lemma_key_push(jobs: Seq<Job>, x: Job, key: (usize, usize, usize, usize, usize))
    ensures
        has_key(jobs, key) ==> has_key(jobs.push(x), key),
        has_key(jobs.push(x), x.spec_key()),
{
    if has_key(jobs, key) {
        let w = choose|w: int| 0 <= w < jobs.len() && (#[trigger] jobs[w]).spec_key() == key;
        assert(jobs.push(x)[w] == jobs[w]);
    }
    assert(jobs.push(x)[jobs.len() as int] == x);
}

proof fn lemma_key_remove(jobs: Seq<Job>, k: int, key: (usize, usize, usize, usize, usize))
    requires
        0 <= k < jobs.len(),
    ensures
        has_key(jobs, key) ==> has_key(jobs.remove(k), key) || jobs[k].spec_key() == key,
{
    if has_key(jobs, key) && jobs[k].spec_key() != key {
        let w = choose|w: int| 0 <= w < jobs.len() && (#[trigger] jobs[w]).spec_key() == key;
        if w < k {
            assert(jobs.remove(k)[w] == jobs[w]);
        } else {
            assert(jobs.remove(k)[w - 1] == jobs[w]);
        }
    }
}

/// What a timeline shows at time unit `t`: the last job of `jobs` whose run
/// log covers `t`, as `(task id, iteration)`, or `(0, 0)` where none does.
pub open spec fn slot_owner(jobs: Seq<Job>, t: int) -> (usize, usize)
    decreases jobs.len(),
{
    if jobs.len() == 0 {
        (0, 0)
    } else if jobs.last().runs_at(t) {
        (jobs.last().spec_id(), jobs.last().spec_iteration())
    } else {
        slot_owner(jobs.drop_last(), t)
    }
}

/// Whether one of the first `k` intervals of `log` covers `t`.
pub open spec fn covered_by_prefix(log: Seq<(usize, usize)>, k: int, t: int) -> bool {
    exists|e: int| 0 <= e < k && interval_holds(#[trigger] log[e], t)
}

/// A job's run log is sorted by start time and pairwise disjoint, its total
/// length is the demand served so far, and all of the demand once the job is
/// done.
pub proof fn lemma_run_log(job: Job)
    requires
        job.wf(),
    ensures
        log_ordered(job.spec_log()),
        log_total(job.spec_log()) == job.spec_wcet() - job.spec_remaining(),
        job.spec_status() == JobStatus::Done ==> log_total(job.spec_log()) == job.spec_wcet(),
{
}

/// A done job owes nothing. A job that missed its deadline was not done: it
/// still owes work, and its last run ended no later than its deadline, at the
/// instant the miss was detected, with more work left than time before the
/// deadline.
pub proof fn lemma_terminal_states(job: Job)
    requires
        job.wf(),
    ensures
        job.spec_status() == JobStatus::Done ==> job.spec_remaining() == 0,
        job.spec_status() == JobStatus::DeadlineExceeded ==> {
            let log = job.spec_log();
            &&& log.len() > 0
            &&& log.last().1 <= job.spec_deadline()
            &&& log.last().1 + job.spec_remaining() > job.spec_deadline()
            &&& job.spec_remaining() > 0
        },
{
    if job.spec_status() == JobStatus::DeadlineExceeded {
        let log = job.spec_log();
        assert(log[log.len() - 1] == log.last());
    }
}

/// The timeline is a function of the jobs and the horizon alone: two
/// timelines of the same list over the same horizon agree.
pub proof fn lemma_timeline_repeatable(jobs: JobList, to: usize, a: Seq<(usize, usize)>, b: Seq<(usize, usize)>)
    requires
        a.len() == to,
        b.len() == to,
        forall|t: int| 0 <= t < to ==> #[trigger] a[t] == slot_owner(jobs@, t),
        forall|t: int| 0 <= t < to ==> #[trigger] b[t] == slot_owner(jobs@, t),
    ensures
        a == b,
{
    assert(a =~= b);
}

/// What the simulation tracks of a job: its key (id, iteration, arrival,
/// deadline, demand), its remaining demand, its run log and its status.
pub type JobModel = ((usize, usize, usize, usize, usize), usize, Seq<(usize, usize)>, JobStatus);

pub open spec fn model(j: Job) -> JobModel {
    (j.spec_key(), j.spec_remaining(), j.spec_log(), j.spec_status())
}

pub open spec fn models(jobs: Seq<Job>) -> Seq<JobModel> {
    jobs.map_values(|j: Job| model(j))
}

/// A job after one run step from `from` that may last until `to`.
pub open spec fn run_model(m: JobModel, from: int, to: int) -> JobModel {
    let e = run_end(from, to, m.0.3 as int, m.1 as int);
    let rem = m.1 - (e - from);
    (m.0, rem as usize, m.2.push((from as usize, e as usize)), status_after(e, rem, m.0.3 as int))
}

/// Whether `k` is the first job of `jobs` with the earliest deadline.
pub open spec fn is_earliest_deadline(jobs: Seq<JobModel>, k: int) -> bool {
    &&& 0 <= k < jobs.len()
    &&& forall|i: int| 0 <= i < jobs.len() ==> jobs[k].0.3 <= (#[trigger] jobs[i]).0.3
    &&& forall|i: int| 0 <= i < k ==> jobs[k].0.3 < (#[trigger] jobs[i]).0.3
}

/// Whether `k` is the first job of `jobs` with the earliest arrival.
pub open spec fn is_earliest_arrival(jobs: Seq<JobModel>, k: int) -> bool {
    &&& 0 <= k < jobs.len()
    &&& forall|i: int| 0 <= i < jobs.len() ==> jobs[k].0.2 <= (#[trigger] jobs[i]).0.2
    &&& forall|i: int| 0 <= i < k ==> jobs[k].0.2 < (#[trigger] jobs[i]).0.2
}

proof fn lemma_earliest_deadline_unique(jobs: Seq<JobModel>, a: int, b: int)
    requires
        is_earliest_deadline(jobs, a),
        is_earliest_deadline(jobs, b),
    ensures
        a == b,
{
    assert(jobs[a].0.3 <= jobs[b].0.3 && jobs[b].0.3 <= jobs[a].0.3);
}

proof fn lemma_earliest_arrival_unique(jobs: Seq<JobModel>, a: int, b: int)
    requires
        is_earliest_arrival(jobs, a),
        is_earliest_arrival(jobs, b),
    ensures
        a == b,
{
    assert(jobs[a].0.2 <= jobs[b].0.2 && jobs[b].0.2 <= jobs[a].0.2);
}

/// Runs ready jobs from `now` until `until`: each step runs the first job
/// with the earliest deadline until `until`, its deadline or the end of its
/// demand; a job still active goes to the back of the pool, a finished one to
/// `finished`. Stops when `until` is reached or no job is ready.
pub open spec fn drain(ready: Seq<JobModel>, finished: Seq<JobModel>, now: int, until: int) -> (
    Seq<JobModel>,
    Seq<JobModel>,
    int,
)
    decreases until - now, ready.len(),
{
    if now >= until || ready.len() == 0 {
        (ready, finished, now)
    } else {
        let k = choose|k: int| is_earliest_deadline(ready, k);
        if !(0 <= k < ready.len()) {
            (ready, finished, now)
        } else {
            let e = run_end(now, until, ready[k].0.3 as int, ready[k].1 as int);
            let m = run_model(ready[k], now, until);
            if e < now {
                (ready, finished, now)
            } else if m.3 == JobStatus::Ready || m.3 == JobStatus::Running {
                if e <= now {
                    (ready, finished, now)
                } else {
                    drain(ready.remove(k).push(m), finished, e, until)
                }
            } else {
                drain(ready.remove(k), finished.push(m), e, until)
            }
        }
    }
}

/// The event-driven simulation: release the first pending job with the
/// earliest arrival, after running the ready jobs until its arrival; at the
/// last release, the finished jobs are the result.
pub open spec fn simulate(
    pending: Seq<JobModel>,
    ready: Seq<JobModel>,
    finished: Seq<JobModel>,
    now: int,
) -> Seq<JobModel>
    decreases pending.len(),
{
    if pending.len() == 0 {
        finished
    } else {
        let k = choose|k: int| is_earliest_arrival(pending, k);
        if !(0 <= k < pending.len()) {
            finished
        } else {
            let next = pending[k];
            let drained = drain(ready, finished, now, next.0.2 as int);
            simulate(pending.remove(k), drained.0.push(next), drained.1, next.0.2 as int)
        }
    }
}

/// The finished jobs that earliest-deadline-first scheduling of `input`
/// yields, in the order they finish.
pub open spec fn edf_schedule(input: Seq<Job>) -> Seq<JobModel> {
    simulate(models(input), Seq::empty(), Seq::empty(), 0)
}

/// A collection of jobs: the pending jobs of a processor before scheduling,
/// the finished ones after.
#[derive(Debug)]
pub struct JobList {
    jobs: Vec<Job>,
}

impl View for JobList {
    type V = Seq<Job>;

    closed spec fn view(&self) -> Seq<Job> {
        self.jobs@
    }
}

/// Index of the first job with the earliest deadline.
fn earliest_deadline(jobs: &Vec<Job>) -> (k: usize)
    requires
        jobs.len() > 0,
    ensures
        k < jobs.len(),
        forall|i: int| 0 <= i < jobs.len() ==> jobs@[k as int].spec_deadline() <= (#[trigger] jobs@[i]).spec_deadline(),
        forall|i: int| 0 <= i < k ==> jobs@[k as int].spec_deadline() < (#[trigger] jobs@[i]).spec_deadline(),
{
    let mut k: usize = 0;
    let mut i: usize = 1;
    while i < jobs.len()
        invariant
            0 < i <= jobs.len(),
            k < i,
            forall|j: int| 0 <= j < i ==> jobs@[k as int].spec_deadline() <= (#[trigger] jobs@[j]).spec_deadline(),
            forall|j: int| 0 <= j < k ==> jobs@[k as int].spec_deadline() < (#[trigger] jobs@[j]).spec_deadline(),
        decreases jobs.len() - i,
    {
        if jobs[i].deadline < jobs[k].deadline {
            k = i;
        }
        i = i + 1;
    }
    k
}

/// Index of the first job with the earliest arrival time.
fn earliest_arrival(jobs: &Vec<Job>) -> (k: usize)
    requires
        jobs.len() > 0,
    ensures
        k < jobs.len(),
        forall|i: int| 0 <= i < jobs.len() ==> jobs@[k as int].spec_arrival() <= (#[trigger] jobs@[i]).spec_arrival(),
        forall|i: int| 0 <= i < k ==> jobs@[k as int].spec_arrival() < (#[trigger] jobs@[i]).spec_arrival(),
{
    let mut k: usize = 0;
    let mut i: usize = 1;
    while i < jobs.len()
        invariant
            0 < i <= jobs.len(),
            k < i,
            forall|j: int| 0 <= j < i ==> jobs@[k as int].spec_arrival() <= (#[trigger] jobs@[j]).spec_arrival(),
            forall|j: int| 0 <= j < k ==> jobs@[k as int].spec_arrival() < (#[trigger] jobs@[j]).spec_arrival(),
        decreases jobs.len() - i,
    {
        if jobs[i].arrival_time < jobs[k].arrival_time {
            k = i;
        }
        i = i + 1;
    }
    k
}

impl JobList {
    /// Every job of the list is consistent.
    pub open spec fn wf(&self) -> bool {
        forall|i: int| 0 <= i < self@.len() ==> (#[trigger] self@[i]).wf()
    }

    pub fn new() -> (r: Self)
        ensures
            r@ == Seq::<Job>::empty(),
    {
        Self { jobs: Vec::new() }
    }

    pub fn len(&self) -> (r: usize)
        ensures
            r == self@.len(),
    {
        self.jobs.len()
    }

    /// The job at position `i`.
    pub fn get(&self, i: usize) -> (r: &Job)
        requires
            i < self@.len(),
        ensures
            *r == self@[i as int],
    {
        &self.jobs[i]
    }

    pub fn push(&mut self, job: Job)
        ensures
            final(self)@ == old(self)@.push(job),
    {
        self.jobs.push(job);
    }

    pub fn pop(&mut self) -> (r: Option<Job>)
        ensures
            old(self)@.len() == 0 ==> r is None && final(self)@ == old(self)@,
            old(self)@.len() > 0 ==> r == Some(old(self)@.last()) && final(self)@
                == old(self)@.drop_last(),
    {
        self.jobs.pop()
    }

    /// Appends the jobs of `other`, and hands the list back for further calls.
    pub fn join(&mut self, other: Self) -> (r: &mut Self)
        ensures
            (*r)@ == old(self)@ + other@,
            *final(self) == *final(r),
    {
        let mut other = other;
        self.jobs.append(&mut other.jobs);
        self
    }

    /// Simulates preemptive earliest-deadline-first scheduling of the jobs on
    /// one processor.
    ///
    /// Jobs are released in order of arrival (the earlier in the list first
    /// among equal arrivals). Between two releases the ready job with the
    /// earliest deadline runs (the one that has waited in the ready pool
    /// longest among equal deadlines) until the next release, its deadline or
    /// the end of its demand. A job that is done, or whose remaining demand can
    /// no longer be met by its deadline, leaves the pool for good. The
    /// simulation ends at the last release: the list then holds the finished
    /// jobs, and the jobs still pending at that instant are not kept.
    ///
    /// The result is exactly `edf_schedule` of the input: the finished jobs of
    /// the event-driven simulation that `simulate` and `drain` state, with
    /// their run logs and statuses, in the order they finished.
    ///
    /// Each finished job comes from the input, none twice, and a job whose
    /// deadline passes before some job's release is among them. Each run stops
    /// at a release, at the job's deadline, or when its demand is met. No two
    /// entries of the list run in the same time unit, and a job that runs
    /// at `t` has a deadline no later than that of any job released by `t`
    /// that still runs, or starts a run, after `t`.
    pub fn schedule(&mut self)
        requires
            pending_jobs(old(self)@),
        ensures
            final(self).wf(),
            forall|i: int| 0 <= i < final(self)@.len() ==> (#[trigger] final(self)@[i]).is_finished(),
            forall|i: int| 0 <= i < final(self)@.len() ==> drawn_from(#[trigger] final(self)@[i], old(self)@),
            forall|i: int| 0 <= i < final(self)@.len() ==> runs_stop_at_events(#[trigger] final(self)@[i], old(self)@),
            forall|i: int, j: int|
                0 <= i < old(self)@.len() && 0 <= j < old(self)@.len() && (#[trigger] old(self)@[i]).spec_deadline()
                    < (#[trigger] old(self)@[j]).spec_arrival() ==> has_key(final(self)@, old(self)@[i].spec_key()),
            models(final(self)@) == edf_schedule(old(self)@),
            key_bag(final(self)@).subset_of(key_bag(old(self)@)),
            forall|i: int, j: int, t: int|
                0 <= i < final(self)@.len() && 0 <= j < final(self)@.len() && i != j
                    && #[trigger] final(self)@[i].runs_at(t) ==> !#[trigger] final(self)@[j].runs_at(t),
            forall|i: int, j: int, t: int, u: int|
                0 <= i < final(self)@.len() && 0 <= j < final(self)@.len() && #[trigger] final(self)@[i].runs_at(t)
                    && #[trigger] final(self)@[j].runs_at(u) && final(self)@[j].spec_arrival() <= t < u
                    ==> final(self)@[i].spec_deadline() <= final(self)@[j].spec_deadline(),
            forall|i: int, j: int, t: int, w: int|
                0 <= i < final(self)@.len() && 0 <= j < final(self)@.len() && #[trigger] final(self)@[i].runs_at(t)
                    && 0 <= w < final(self)@[j].spec_log().len() && final(self)@[j].spec_arrival() <= t < (
                #[trigger] final(self)@[j].spec_log()[w]).0 ==> final(self)@[i].spec_deadline()
                    <= final(self)@[j].spec_deadline(),
            forall|i: int, j: int, t: int|
                0 <= i < final(self)@.len() && 0 <= j < final(self)@.len() && (#[trigger] final(self)@[i].runs_at(t))
                    && (#[trigger] final(self)@[j].runs_at(t)) ==> final(self)@[i].spec_key() == final(self)@[j].spec_key(),
    {
        let ghost input = self.jobs@;
        let mut pending: Vec<Job> = Vec::new();
        std::mem::swap(&mut pending, &mut self.jobs);
        let mut finished: Vec<Job> = Vec::new();
        let mut ready: Vec<Job> = Vec::new();
        let mut now: usize = 0;
        let ghost mut owner: Map<int, (usize, usize, usize, usize, usize)> = Map::empty();
        assert(pending@ == input);
        assert forall|i: int| 0 <= i < pending@.len() implies drawn_from(#[trigger] pending@[i], input) && pending@[i].wf() && pending@[i].spec_status() == JobStatus::Ready by {
            assert(input[i] == pending@[i]);
            assert(input[i] == old(self)@[i]);
        }
        assert forall|i: int| 0 <= i < input.len() implies has_key(pending@, (#[trigger] input[i]).spec_key()) by {
            assert(pending@[i] == input[i]);
        }
        assert(key_bag(pending@).add(key_bag(ready@)).add(key_bag(finished@)) =~= key_bag(input)) by {
            broadcast use vstd::seq_lib::group_to_multiset_ensures, vstd::multiset::group_multiset_axioms;

            let none = ready@.map_values(|j: Job| j.spec_key());
            assert(none.len() == 0);
            assert(none.to_multiset().len() == 0);
            vstd::multiset::lemma_multiset_empty_len(none.to_multiset());
            assert(finished@.map_values(|j: Job| j.spec_key()) == none);
        }
        let ghost mut pid: Seq<int> = index_range(input.len());
        let ghost mut rid: Seq<int> = Seq::empty();
        let ghost mut fid: Seq<int> = Seq::empty();
        let ghost mut holder: Map<int, int> = Map::empty();
        assert(pid.to_multiset().add(rid.to_multiset()).add(fid.to_multiset()) =~= index_range(
            input.len(),
        ).to_multiset()) by {
            broadcast use vstd::seq_lib::group_to_multiset_ensures, vstd::multiset::group_multiset_axioms;

            assert(rid.to_multiset().len() == 0);
            vstd::multiset::lemma_multiset_empty_len(rid.to_multiset());
            assert(fid.to_multiset().len() == 0);
            vstd::multiset::lemma_multiset_empty_len(fid.to_multiset());
        }
        assert(models(ready@) =~= Seq::<JobModel>::empty());
        assert(models(finished@) =~= Seq::<JobModel>::empty());
        while pending.len() > 0
            invariant
                pending_jobs(input),
                input == old(self)@,
                simulate(models(pending@), models(ready@), models(finished@), now as int) == edf_schedule(input),
                pid.len() == pending@.len(),
                rid.len() == ready@.len(),
                fid.len() == finished@.len(),
                pid.to_multiset().add(rid.to_multiset()).add(fid.to_multiset()) == index_range(
                    input.len(),
                ).to_multiset(),
                forall|p: int, t: int|
                    0 <= p < ready@.len() && #[trigger] ready@[p].runs_at(t) ==> holder.contains_key(t)
                        && holder[t] == rid[p],
                forall|p: int, t: int|
                    0 <= p < finished@.len() && #[trigger] finished@[p].runs_at(t) ==> holder.contains_key(t)
                        && holder[t] == fid[p],
                key_bag(pending@).add(key_bag(ready@)).add(key_bag(finished@)) == key_bag(input),
                forall|i: int|
                    0 <= i < input.len() ==> has_key(pending@, (#[trigger] input[i]).spec_key())
                        || has_key(ready@, input[i].spec_key()) || has_key(finished@, input[i].spec_key()),
                forall|i: int|
                    0 <= i < input.len() ==> (#[trigger] input[i]).spec_arrival() <= now || has_key(pending@, input[i].spec_key()),
                forall|i: int| 0 <= i < pending@.len() ==> {
                    let j = #[trigger] pending@[i];
                    &&& j.wf()
                    &&& j.spec_status() == JobStatus::Ready
                    &&& now <= j.spec_arrival()
                    &&& drawn_from(j, input)
                },
                forall|i: int| 0 <= i < ready@.len() ==> {
                    let j = #[trigger] ready@[i];
                    &&& j.wf()
                    &&& j.is_active()
                    &&& j.spec_arrival() <= now <= j.spec_deadline()
                    &&& (j.spec_log().len() > 0 ==> j.spec_log().last().1 <= now)
                    &&& drawn_from(j, input)
                    &&& runs_stop_at_events(j, input)
                },
                forall|i: int| 0 <= i < finished@.len() ==> {
                    let j = #[trigger] finished@[i];
                    &&& j.wf()
                    &&& j.is_finished()
                    &&& drawn_from(j, input)
                    &&& runs_stop_at_events(j, input)
                },
                forall|p: int, t: int|
                    0 <= p < ready@.len() && #[trigger] ready@[p].runs_at(t) ==> t < now && owner.contains_key(t)
                        && owner[t] == ready@[p].spec_key(),
                forall|p: int, t: int|
                    0 <= p < finished@.len() && #[trigger] finished@[p].runs_at(t) ==> t < now
                        && owner.contains_key(t) && owner[t] == finished@[p].spec_key(),
                forall|t: int| #[trigger] owner.contains_key(t) ==> t < now,
                forall|p: int, t: int|
                    0 <= p < ready@.len() && #[trigger] owner.contains_key(t) && (#[trigger] ready@[p]).spec_arrival() <= t
                        ==> owner[t].3 <= ready@[p].spec_deadline(),
                forall|p: int, t: int, u: int|
                    0 <= p < finished@.len() && #[trigger] owner.contains_key(t) && #[trigger] finished@[p].runs_at(u)
                        && finished@[p].spec_arrival() <= t < u ==> owner[t].3 <= finished@[p].spec_deadline(),
                forall|p: int, w: int|
                    0 <= p < finished@.len() && 0 <= w < finished@[p].spec_log().len() ==> (
                    #[trigger] finished@[p].spec_log()[w]).1 <= now,
                forall|p: int, t: int, w: int|
                    0 <= p < finished@.len() && #[trigger] owner.contains_key(t) && 0 <= w
                        < finished@[p].spec_log().len() && finished@[p].spec_arrival() <= t < (
                    #[trigger] finished@[p].spec_log()[w]).0 ==> owner[t].3 <= finished@[p].spec_deadline(),
            decreases pending.len(),
        {
            let k = earliest_arrival(&pending);
            let ghost queue = pending@;
            let new_job = pending.remove(k);
            let arrival = new_job.arrival_time;
            let ghost nid = pid[k as int];
            let ghost target = drain(models(ready@), models(finished@), now as int, arrival as int);
            proof {
                let mq = models(queue);
                assert forall|i: int| 0 <= i < mq.len() implies #[trigger] mq[i] == model(queue[i]) by {}
                assert(is_earliest_arrival(mq, k as int));
                let c = choose|c: int| is_earliest_arrival(mq, c);
                lemma_earliest_arrival_unique(mq, k as int, c);
                assert(models(pending@) =~= mq.remove(k as int));
                assert(mq[k as int] == model(new_job));
            }
            proof {
                broadcast use vstd::seq_lib::group_to_multiset_ensures, vstd::multiset::group_multiset_axioms;

                let whole = pid;
                pid = pid.remove(k as int);
                assert(whole.to_multiset().contains(nid));
                assert(pid.to_multiset().add(rid.to_multiset()).add(fid.to_multiset()).insert(nid)
                    =~= index_range(input.len()).to_multiset());
            }
            assert forall|i: int| 0 <= i < pending@.len() implies arrival <= (#[trigger] pending@[i]).spec_arrival() by {
                if i >= k {
                    assert(pending@[i] == queue[i + 1]);
                }
            }
            assert forall|i: int| 0 <= i < input.len() implies (has_key(pending@, (#[trigger] input[i]).spec_key())
                || has_key(ready@, input[i].spec_key()) || has_key(finished@, input[i].spec_key())
                || new_job.spec_key() == input[i].spec_key())
                && (input[i].spec_arrival() <= arrival || has_key(pending@, input[i].spec_key())) by {
                lemma_key_remove(queue, k as int, input[i].spec_key());
            }
            proof {
                lemma_bag_remove(queue, k as int);
                assert(key_bag(queue).contains(new_job.spec_key())) by {
                    broadcast use vstd::seq_lib::group_to_multiset_ensures;

                    assert(queue.map_values(|j: Job| j.spec_key())[k as int] == new_job.spec_key());
                }
                assert(key_bag(pending@).add(key_bag(ready@)).add(key_bag(finished@)).insert(new_job.spec_key()) =~= key_bag(input));
            }
            while now < arrival && ready.len() > 0
                invariant
                    now <= arrival,
                    drawn_from(new_job, input),
                    new_job.spec_arrival() == arrival,
                    drain(models(ready@), models(finished@), now as int, arrival as int) == target,
                    pid.len() == pending@.len(),
                    rid.len() == ready@.len(),
                    fid.len() == finished@.len(),
                    pid.to_multiset().add(rid.to_multiset()).add(fid.to_multiset()).insert(nid) == index_range(
                        input.len(),
                    ).to_multiset(),
                    forall|p: int, t: int|
                        0 <= p < ready@.len() && #[trigger] ready@[p].runs_at(t) ==> holder.contains_key(t)
                            && holder[t] == rid[p],
                    forall|p: int, t: int|
                        0 <= p < finished@.len() && #[trigger] finished@[p].runs_at(t) ==> holder.contains_key(t)
                            && holder[t] == fid[p],
                    forall|i: int|
                        0 <= i < input.len() ==> has_key(pending@, (#[trigger] input[i]).spec_key())
                            || has_key(ready@, input[i].spec_key()) || has_key(finished@, input[i].spec_key())
                            || new_job.spec_key() == input[i].spec_key(),
                    forall|i: int|
                        0 <= i < input.len() ==> (#[trigger] input[i]).spec_arrival() <= arrival || has_key(pending@, input[i].spec_key()),
                    key_bag(pending@).add(key_bag(ready@)).add(key_bag(finished@)).insert(new_job.spec_key())
                        == key_bag(input),
                    forall|i: int| 0 <= i < ready@.len() ==> {
                        let j = #[trigger] ready@[i];
                        &&& j.wf()
                        &&& j.is_active()
                        &&& j.spec_arrival() <= now <= j.spec_deadline()
                        &&& (j.spec_log().len() > 0 ==> j.spec_log().last().1 <= now)
                        &&& drawn_from(j, input)
                        &&& runs_stop_at_events(j, input)
                    },
                    forall|i: int| 0 <= i < finished@.len() ==> {
                        let j = #[trigger] finished@[i];
                        &&& j.wf()
                        &&& j.is_finished()
                        &&& drawn_from(j, input)
                        &&& runs_stop_at_events(j, input)
                    },
                    forall|p: int, t: int|
                        0 <= p < ready@.len() && #[trigger] ready@[p].runs_at(t) ==> t < now && owner.contains_key(t)
                            && owner[t] == ready@[p].spec_key(),
                    forall|p: int, t: int|
                        0 <= p < finished@.len() && #[trigger] finished@[p].runs_at(t) ==> t < now
                            && owner.contains_key(t) && owner[t] == finished@[p].spec_key(),
                    forall|t: int| #[trigger] owner.contains_key(t) ==> t < now,
                    forall|p: int, t: int|
                        0 <= p < ready@.len() && #[trigger] owner.contains_key(t) && (#[trigger] ready@[p]).spec_arrival() <= t
                            ==> owner[t].3 <= ready@[p].spec_deadline(),
                    forall|p: int, t: int, u: int|
                        0 <= p < finished@.len() && #[trigger] owner.contains_key(t) && #[trigger] finished@[p].runs_at(u)
                            && finished@[p].spec_arrival() <= t < u ==> owner[t].3 <= finished@[p].spec_deadline(),
                    forall|p: int, w: int|
                        0 <= p < finished@.len() && 0 <= w < finished@[p].spec_log().len() ==> (
                        #[trigger] finished@[p].spec_log()[w]).1 <= now,
                    forall|p: int, t: int, w: int|
                        0 <= p < finished@.len() && #[trigger] owner.contains_key(t) && 0 <= w
                            < finished@[p].spec_log().len() && finished@[p].spec_arrival() <= t < (
                        #[trigger] finished@[p].spec_log()[w]).0 ==> owner[t].3 <= finished@[p].spec_deadline(),
                decreases arrival - now, ready.len(),
            {
                let k = earliest_deadline(&ready);
                let ghost pool = ready@;
                let mut job = ready.remove(k);
                let ghost idpool = rid;
                proof {
                    let mr = models(pool);
                    assert forall|i: int| 0 <= i < mr.len() implies #[trigger] mr[i] == model(pool[i]) by {}
                    assert(is_earliest_deadline(mr, k as int));
                    let c = choose|c: int| is_earliest_deadline(mr, c);
                    lemma_earliest_deadline_unique(mr, k as int, c);
                }
                let ghost jid = rid[k as int];
                proof {
                    rid = rid.remove(k as int);
                }
                assert forall|i: int| 0 <= i < ready@.len() implies job.spec_deadline() <= (#[trigger] ready@[i]).spec_deadline() && ready@[i] == pool[if i < k { i } else { i + 1 }] by {
                    if i >= k {
                        assert(ready@[i] == pool[i + 1]);
                    }
                }
                let ghost before = job;
                let ghost start = now;
                let ghost owner_before = owner;
                let ghost holder_before = holder;
                let duration = job.run(now, arrival);
                now = now + duration;
                assert(runs_stop_at_events(job, input)) by {
                    assert(pool[k as int] == before);
                    assert forall|w: int| 0 <= w < job.spec_log().len() implies {
                        let e = (#[trigger] job.spec_log()[w]).1;
                        ||| e == job.spec_deadline()
                        ||| (w == job.spec_log().len() - 1 && job.spec_remaining() == 0)
                        ||| exists|i: int| 0 <= i < input.len() && (#[trigger] input[i]).spec_arrival() == e
                    } by {
                        if w < before.spec_log().len() {
                            assert(job.spec_log()[w] == before.spec_log()[w]);
                        } else {
                            let i = choose|i: int| 0 <= i < input.len() && (#[trigger] input[i]).spec_key() == new_job.spec_key();
                            assert(input[i].spec_arrival() == arrival);
                        }
                    }
                }
                proof {
                    owner = owner.union_prefer_right(
                        Map::new(|t: int| start <= t < now, |t: int| job.spec_key()),
                    );
                    holder = holder.union_prefer_right(Map::new(|t: int| start <= t < now, |t: int| jid));
                    assert forall|t: int| #[trigger] job.runs_at(t) implies before.runs_at(t) || start <= t < now by {
                        let w = choose|w: int| 0 <= w < job.spec_log().len() && interval_holds(#[trigger] job.spec_log()[w], t);
                        if w < before.spec_log().len() {
                            assert(job.spec_log()[w] == before.spec_log()[w]);
                        }
                    }
                }
                assert(drawn_from(job, input)) by {
                    assert(job.spec_key() == before.spec_key());
                }
                let ghost rest = ready@;
                let ghost done = finished@;
                let ghost idrest = rid;
                let ghost iddone = fid;
                if job.status == JobStatus::Ready || job.status == JobStatus::Running {
                    ready.push(job);
                    proof {
                        rid = rid.push(jid);
                    }
                } else {
                    finished.push(job);
                    proof {
                        fid = fid.push(jid);
                    }
                }
                proof {
                    let mr = models(pool);
                    assert(mr[k as int] == model(before));
                    assert(model(job) == run_model(model(before), start as int, arrival as int));
                    assert(start <= before.spec_deadline());
                    if job.is_active() {
                        assert(models(ready@) =~= mr.remove(k as int).push(model(job)));
                        assert(models(finished@) =~= models(done));
                    } else {
                        assert(models(ready@) =~= mr.remove(k as int));
                        assert(models(finished@) =~= models(done).push(model(job)));
                    }
                }
                proof {
                    broadcast use vstd::seq_lib::group_to_multiset_ensures, vstd::multiset::group_multiset_axioms;

                    assert(idpool.to_multiset().contains(jid));
                    assert(pid.to_multiset().add(rid.to_multiset()).add(fid.to_multiset()).insert(nid)
                        =~= index_range(input.len()).to_multiset());
                }
                assert forall|p: int, t: int|
                    0 <= p < ready@.len() && #[trigger] ready@[p].runs_at(t) implies holder.contains_key(t)
                        && holder[t] == rid[p] by {
                    if p < rest.len() {
                        let q = if p < k { p } else { p + 1 };
                        assert(ready@[p] == rest[p]);
                        assert(rest[p] == pool[q]);
                        assert(rid[p] == idrest[p]);
                        assert(idrest[p] == idpool[q]);
                        assert(pool[q].runs_at(t));
                    } else {
                        assert(ready@[p] == job);
                        assert(rid[p] == jid);
                        if before.runs_at(t) {
                            assert(pool[k as int] == before);
                        }
                    }
                }
                assert forall|p: int, t: int|
                    0 <= p < finished@.len() && #[trigger] finished@[p].runs_at(t) implies holder.contains_key(t)
                        && holder[t] == fid[p] by {
                    if p < done.len() {
                        assert(finished@[p] == done[p]);
                        assert(fid[p] == iddone[p]);
                        assert(done[p].runs_at(t));
                    } else {
                        assert(finished@[p] == job);
                        assert(fid[p] == jid);
                        if before.runs_at(t) {
                            assert(pool[k as int] == before);
                        }
                    }
                }
                assert forall|i: int| 0 <= i < input.len() implies has_key(pending@, (#[trigger] input[i]).spec_key())
                    || has_key(ready@, input[i].spec_key()) || has_key(finished@, input[i].spec_key())
                    || new_job.spec_key() == input[i].spec_key() by {
                    let key = input[i].spec_key();
                    lemma_key_remove(pool, k as int, key);
                    assert(pool.remove(k as int) == rest);
                    lemma_key_push(rest, job, key);
                    lemma_key_push(done, job, key);
                }
                proof {
                    lemma_bag_remove(pool, k as int);
                    assert(pool.remove(k as int) == rest);
                    assert(pool[k as int].spec_key() == job.spec_key());
                    assert(key_bag(pool).contains(job.spec_key())) by {
                        broadcast use vstd::seq_lib::group_to_multiset_ensures;

                        assert(pool.map_values(|j: Job| j.spec_key())[k as int] == job.spec_key());
                    }
                    lemma_bag_push(rest, job);
                    lemma_bag_push(done, job);
                    assert(key_bag(pending@).add(key_bag(ready@)).add(key_bag(finished@)).insert(new_job.spec_key())
                        =~= key_bag(input));
                }
                assert forall|p: int, t: int|
                    0 <= p < ready@.len() && #[trigger] ready@[p].runs_at(t) implies t < now && owner.contains_key(t)
                        && owner[t] == ready@[p].spec_key() by {
                    if p < rest.len() {
                        assert(ready@[p] == rest[p]);
                        assert(rest[p] == pool[if p < k { p } else { p + 1 }]);
                        assert(pool[if p < k { p } else { p + 1 }].runs_at(t));
                    } else {
                        assert(ready@[p] == job);
                        if before.runs_at(t) {
                            assert(pool[k as int] == before);
                        }
                    }
                }
                assert forall|p: int, t: int|
                    0 <= p < finished@.len() && #[trigger] finished@[p].runs_at(t) implies t < now
                        && owner.contains_key(t) && owner[t] == finished@[p].spec_key() by {
                    if p < done.len() {
                        assert(finished@[p] == done[p]);
                        assert(done[p].runs_at(t));
                    } else {
                        assert(finished@[p] == job);
                        if before.runs_at(t) {
                            assert(pool[k as int] == before);
                        }
                    }
                }
                assert forall|t: int| #[trigger] owner.contains_key(t) implies t < now by {}
                assert forall|p: int, t: int|
                    0 <= p < ready@.len() && #[trigger] owner.contains_key(t) && (#[trigger] ready@[p]).spec_arrival() <= t
                        implies owner[t].3 <= ready@[p].spec_deadline() by {
                    if p < rest.len() {
                        assert(ready@[p] == rest[p]);
                        assert(rest[p] == pool[if p < k { p } else { p + 1 }]);
                        if t < start {
                            assert(owner_before.contains_key(t));
                        }
                    } else {
                        assert(ready@[p] == job);
                        if t < start {
                            assert(owner_before.contains_key(t));
                            assert(pool[k as int] == before);
                        }
                    }
                }
                assert forall|p: int, t: int, u: int|
                    0 <= p < finished@.len() && #[trigger] owner.contains_key(t) && #[trigger] finished@[p].runs_at(u)
                        && finished@[p].spec_arrival() <= t < u implies owner[t].3 <= finished@[p].spec_deadline() by {
                    if p < done.len() {
                        assert(finished@[p] == done[p]);
                        assert(done[p].runs_at(u));
                        assert(u < start);
                        assert(owner_before.contains_key(t));
                    } else {
                        assert(finished@[p] == job);
                        if t < start {
                            assert(owner_before.contains_key(t));
                            assert(pool[k as int] == before);
                        }
                    }
                }
                assert forall|w: int| 0 <= w < job.spec_log().len() implies (#[trigger] job.spec_log()[w]).0 <= start
                    && job.spec_log()[w].1 <= now by {
                    if w < before.spec_log().len() {
                        assert(job.spec_log()[w] == before.spec_log()[w]);
                        assert(pool[k as int] == before);
                        let last = before.spec_log().len() - 1;
                        assert(before.spec_log()[last] == before.spec_log().last());
                    }
                }
                assert forall|p: int, w: int|
                    0 <= p < finished@.len() && 0 <= w < finished@[p].spec_log().len() implies (
                    #[trigger] finished@[p].spec_log()[w]).1 <= now by {
                    if p < done.len() {
                        assert(finished@[p] == done[p]);
                    }
                }
                assert forall|p: int, t: int, w: int|
                    0 <= p < finished@.len() && #[trigger] owner.contains_key(t) && 0 <= w
                        < finished@[p].spec_log().len() && finished@[p].spec_arrival() <= t < (
                    #[trigger] finished@[p].spec_log()[w]).0 implies owner[t].3 <= finished@[p].spec_deadline() by {
                    if p < done.len() {
                        assert(finished@[p] == done[p]);
                        assert(done[p].spec_log()[w].1 <= start);
                        assert(owner_before.contains_key(t));
                    } else {
                        assert(finished@[p] == job);
                        assert(job.spec_log()[w].0 <= start);
                        assert(owner_before.contains_key(t));
                        assert(pool[k as int] == before);
                    }
                }
            }
            let ghost rest = ready@;
            let ghost idrest = rid;
            proof {
                assert(target == (models(ready@), models(finished@), now as int));
            }
            now = arrival;
            ready.push(new_job);
            proof {
                assert(models(ready@) =~= models(rest).push(model(new_job)));
            }
            proof {
                broadcast use vstd::seq_lib::group_to_multiset_ensures, vstd::multiset::group_multiset_axioms;

                rid = rid.push(nid);
                assert(pid.to_multiset().add(rid.to_multiset()).add(fid.to_multiset()) =~= index_range(
                    input.len(),
                ).to_multiset());
            }
            assert forall|p: int, t: int|
                0 <= p < ready@.len() && #[trigger] ready@[p].runs_at(t) implies holder.contains_key(t)
                    && holder[t] == rid[p] by {
                if p < rest.len() {
                    assert(ready@[p] == rest[p]);
                    assert(rid[p] == idrest[p]);
                } else {
                    assert(ready@[p] == new_job);
                    assert(new_job.spec_log().len() == 0);
                }
            }
            proof {
                lemma_bag_push(rest, new_job);
                assert(key_bag(pending@).add(key_bag(ready@)).add(key_bag(finished@)) =~= key_bag(input));
            }
            assert forall|p: int, t: int|
                0 <= p < ready@.len() && #[trigger] ready@[p].runs_at(t) implies t < now && owner.contains_key(t)
                    && owner[t] == ready@[p].spec_key() by {
                if p < rest.len() {
                    assert(ready@[p] == rest[p]);
                    assert(rest[p].runs_at(t));
                } else {
                    assert(ready@[p] == new_job);
                    assert(new_job.spec_log().len() == 0);
                }
            }
            assert forall|p: int, t: int|
                0 <= p < ready@.len() && #[trigger] owner.contains_key(t) && (#[trigger] ready@[p]).spec_arrival() <= t
                    implies owner[t].3 <= ready@[p].spec_deadline() by {
                if p < rest.len() {
                    assert(ready@[p] == rest[p]);
                }
            }
            assert forall|i: int| 0 <= i < input.len() implies has_key(pending@, (#[trigger] input[i]).spec_key())
                || has_key(ready@, input[i].spec_key()) || has_key(finished@, input[i].spec_key()) by {
                lemma_key_push(rest, new_job, input[i].spec_key());
            }
        }
        assert forall|i: int, j: int|
            0 <= i < input.len() && 0 <= j < input.len() && (#[trigger] input[i]).spec_deadline()
                < (#[trigger] input[j]).spec_arrival() implies has_key(finished@, input[i].spec_key()) by {
            assert(!has_key(pending@, input[j].spec_key()));
            if has_key(ready@, input[i].spec_key()) {
                let w = choose|w: int| 0 <= w < ready@.len() && (#[trigger] ready@[w]).spec_key() == input[i].spec_key();
                assert(ready@[w].spec_deadline() >= now);
            }
        }
        assert forall|i: int, j: int, t: int|
            0 <= i < finished@.len() && 0 <= j < finished@.len() && (#[trigger] finished@[i].runs_at(t))
                && (#[trigger] finished@[j].runs_at(t)) implies finished@[i].spec_key() == finished@[j].spec_key() by {}
        assert forall|i: int, j: int, t: int, u: int|
            0 <= i < finished@.len() && 0 <= j < finished@.len() && #[trigger] finished@[i].runs_at(t)
                && #[trigger] finished@[j].runs_at(u) && finished@[j].spec_arrival() <= t < u
                implies finished@[i].spec_deadline() <= finished@[j].spec_deadline() by {
            assert(owner.contains_key(t));
        }
        assert forall|i: int, j: int, t: int, w: int|
            0 <= i < finished@.len() && 0 <= j < finished@.len() && #[trigger] finished@[i].runs_at(t)
                && 0 <= w < finished@[j].spec_log().len() && finished@[j].spec_arrival() <= t < (
            #[trigger] finished@[j].spec_log()[w]).0 implies finished@[i].spec_deadline()
                <= finished@[j].spec_deadline() by {
            assert(owner.contains_key(t));
        }
        assert(key_bag(finished@).subset_of(key_bag(input))) by {
            broadcast use vstd::multiset::group_multiset_axioms;

        }
        proof {
            broadcast use vstd::multiset::group_multiset_axioms;

            assert(pid.len() == 0);
            assert(pid.to_multiset().len() == 0) by {
                broadcast use vstd::seq_lib::group_to_multiset_ensures;

            }
            assert forall|i: int, j: int, t: int|
                0 <= i < finished@.len() && 0 <= j < finished@.len() && i != j
                    && #[trigger] finished@[i].runs_at(t) implies !#[trigger] finished@[j].runs_at(t) by {
                if finished@[j].runs_at(t) {
                    assert(fid[i] == fid[j]);
                    lemma_ids_twice(fid, i, j);
                    lemma_range_once(input.len(), fid[i]);
                    assert(rid.to_multiset().count(fid[i]) >= 0);
                }
            }
        }
        self.jobs = finished;
    }

    /// One entry per time unit in `[0, to)`: the `(task id, iteration)` of the
    /// job that ran then, `(0, 0)` for idle units. Activity at or after `to` is
    /// left out.
    pub fn timeline(&self, to: usize) -> (r: Vec<(usize, usize)>)
        ensures
            r@.len() == to,
            forall|t: int| 0 <= t < to ==> #[trigger] r@[t] == slot_owner(self@, t),
    {
        let mut line: Vec<(usize, usize)> = Vec::new();
        let mut t: usize = 0;
        while t < to
            invariant
                t <= to,
                line@.len() == t,
                forall|u: int| 0 <= u < t ==> #[trigger] line@[u] == (0usize, 0usize),
            decreases to - t,
        {
            line.push((0, 0));
            t = t + 1;
        }
        proof {
            assert forall|u: int| 0 <= u < to implies #[trigger] line@[u] == slot_owner(self.jobs@.take(0), u) by {
                assert(self.jobs@.take(0).len() == 0);
            }
        }
        let mut i: usize = 0;
        while i < self.jobs.len()
            invariant
                i <= self.jobs@.len(),
                line@.len() == to,
                forall|u: int| 0 <= u < to ==> #[trigger] line@[u] == slot_owner(self.jobs@.take(i as int), u),
            decreases self.jobs@.len() - i,
        {
            let job = &self.jobs[i];
            let owner = (job.id, job.iteration);
            let mut k: usize = 0;
            while k < job.log.len()
                invariant
                    i < self.jobs@.len(),
                    *job == self.jobs@[i as int],
                    owner == (job.spec_id(), job.spec_iteration()),
                    k <= job.log@.len(),
                    line@.len() == to,
                    forall|u: int| 0 <= u < to ==> #[trigger] line@[u] == if covered_by_prefix(job.log@, k as int, u) {
                        owner
                    } else {
                        slot_owner(self.jobs@.take(i as int), u)
                    },
                decreases job.log@.len() - k,
            {
                let (start, end) = job.log[k];
                let stop = if end < to { end } else { to };
                let mut c: usize = start;
                while c < stop
                    invariant
                        k < job.log@.len(),
                        job.log@[k as int] == (start, end),
                        stop <= to,
                        stop <= end,
                        start <= c,
                        c == start || c <= stop,
                        line@.len() == to,
                        forall|u: int| 0 <= u < to ==> #[trigger] line@[u] == if covered_by_prefix(job.log@, k as int, u) || (start <= u < c) {
                            owner
                        } else {
                            slot_owner(self.jobs@.take(i as int), u)
                        },
                    decreases stop - c,
                {
                    line.set(c, owner);
                    c = c + 1;
                }
                proof {
                    assert forall|u: int| 0 <= u < to implies covered_by_prefix(job.log@, k + 1, u) == (covered_by_prefix(job.log@, k as int, u) || (start <= u < c)) by {
                        if start <= u < c {
                            assert(interval_holds(job.log@[k as int], u));
                        }
                        if covered_by_prefix(job.log@, k + 1, u) {
                            let e = choose|e: int| 0 <= e < k + 1 && interval_holds(#[trigger] job.log@[e], u);
                            if e < k {
                                assert(covered_by_prefix(job.log@, k as int, u));
                            }
                        }
                        if covered_by_prefix(job.log@, k as int, u) {
                            let e = choose|e: int| 0 <= e < k && interval_holds(#[trigger] job.log@[e], u);
                            assert(interval_holds(job.log@[e], u));
                        }
                    }
                }
                k = k + 1;
            }
            proof {
                let prefix = self.jobs@.take(i + 1);
                assert(prefix.drop_last() == self.jobs@.take(i as int));
                assert(prefix.last() == *job);
                assert forall|u: int| 0 <= u < to implies #[trigger] line@[u] == slot_owner(prefix, u) by {
                    if covered_by_prefix(job.log@, job.log@.len() as int, u) {
                        let e = choose|e: int| 0 <= e < job.log@.len() && interval_holds(#[trigger] job.log@[e], u);
                        assert(job.spec_log()[e] == job.log@[e]);
                    }
                    if job.runs_at(u) {
                        let e = choose|e: int| 0 <= e < job.spec_log().len() && interval_holds(#[trigger] job.spec_log()[e], u);
                        assert(job.spec_log()[e] == job.log@[e]);
                    }
                }
            }
            i = i + 1;
        }
        proof {
            assert(self.jobs@.take(self.jobs@.len() as int) == self.jobs@);
        }
        line
    }
}

} // verus!
