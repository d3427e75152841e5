use vstd::prelude::*;

use vstd::arithmetic::div_mod::{lemma_fundamental_div_mod, lemma_mod_multiples_basic, lemma_small_mod};
use vstd::arithmetic::mul::{lemma_mul_inequality, lemma_mul_is_associative, lemma_mul_is_commutative};

use crate::job::{pending_jobs, Job, JobList};

verus! {

/// Whether `d` divides `m`.
pub open spec fn divides(d: int, m: int) -> bool {
    d != 0 && m % d == 0
}

/// A positive multiple of a positive number is at least that number.
pub proof fn lemma_divides_le(d: int, m: int)
    requires
        0 < d,
        0 < m,
        divides(d, m),
    ensures
        d <= m,
{
    if m < d {
        lemma_small_mod(m as nat, d as nat);
    }
}

/// Divisibility is transitive.
pub proof fn lemma_divides_trans(a: int, b: int, c: int)
    requires
        0 < a,
        divides(a, b),
        divides(b, c),
    ensures
        divides(a, c),
{
    lemma_fundamental_div_mod(b, a);
    lemma_fundamental_div_mod(c, b);
    let x = b / a;
    let y = c / b;
    assert(c == (a * x) * y);
    lemma_mul_is_associative(a, x, y);
    lemma_mul_is_commutative(a, x * y);
    lemma_mod_multiples_basic(x * y, a);
}

/// Relies on num::integer::lcm: on two positive integers whose product fits,
/// it computes `a * (b / gcd(a, b))`, their least common multiple.
#[verifier::external_body]
fn lcm(a: u128, b: u128) -> (r: u128)
    requires
        0 < a,
        0 < b,
        a * b <= u128::MAX,
    ensures
        0 < r,
        divides(a as int, r as int),
        divides(b as int, r as int),
        forall|m: int| divides(a as int, m) && divides(b as int, m) ==> #[trigger] divides(r as int, m),
{
    num::integer::lcm(a, b)
}

/// A periodic task with an implicit deadline equal to its period.
#[derive(Clone, Copy, Debug)]
pub struct Task {
    id: usize,
    wcet: usize,
    period: usize,
}

impl Task {
    #[verifier::type_invariant]
    spec fn inv(&self) -> bool {
        0 < self.period && self.wcet <= self.period
    }

    pub closed spec fn spec_id(&self) -> usize {
        self.id
    }

    pub closed spec fn spec_wcet(&self) -> usize {
        self.wcet
    }

    pub closed spec fn spec_period(&self) -> usize {
        self.period
    }

    /// A task with utilization `wcet / period`, which lies in `[0, 1]`.
    pub fn new(id: usize, wcet: usize, period: usize) -> (r: Self)
        requires
            0 < period,
            wcet <= period,
        ensures
            r.spec_id() == id,
            r.spec_wcet() == wcet,
            r.spec_period() == period,
    {
        Self { id, wcet, period }
    }

    pub fn id(&self) -> (r: usize)
        ensures
            r == self.spec_id(),
    {
        self.id
    }

    pub fn wcet(&self) -> (r: usize)
        ensures
            r == self.spec_wcet(),
    {
        self.wcet
    }

    pub fn period(&self) -> (r: usize)
        ensures
            r == self.spec_period(),
    {
        self.period
    }

    /// The jobs that the task releases at `0, period, 2 * period, ...` before
    /// `horizon`, each due one period after its release.
    pub fn jobs_till(&self, horizon: usize) -> (r: JobList)
        requires
            release_count(horizon as int, self.spec_period() as int) * self.spec_period()
                <= usize::MAX,
        ensures
            job_keys(r@) == releases(*self, horizon as int),
            pending_jobs(r@),
    {
        proof {
            use_type_invariant(self);
            lemma_release_count(horizon as int, self.period as int);
        }
        let ghost n = release_count(horizon as int, self.period as int);
        let p = self.period;
        let mut jobs = JobList::new();
        let mut now: usize = 0;
        let mut iteration: usize = 0;
        while now < horizon
            invariant
                0 < p,
                p == self.spec_period(),
                now == iteration * p,
                iteration <= n,
                n * p <= usize::MAX,
                n * p >= horizon,
                n == 0 || (n - 1) * p < horizon,
                jobs@.len() == iteration,
                pending_jobs(jobs@),
                forall|k: int| 0 <= k < iteration ==> (#[trigger] jobs@[k]).spec_key() == release_key(*self, k),
            decreases n - iteration,
        {
            proof {
                if iteration >= n {
                    lemma_mul_inequality(n, iteration as int, p as int);
                }
                lemma_mul_inequality(iteration + 1, n, p as int);
                assert((iteration + 1) * p == iteration * p + p) by (nonlinear_arith);
                assert(n <= n * p) by (nonlinear_arith)
                    requires
                        p >= 1,
                        n >= 0,
                ;
            }
            let end = now + p;
            let job = Job::new(self.id, iteration, now, self.wcet, end);
            jobs.push(job);
            iteration = iteration + 1;
            now = end;
        }
        proof {
            if iteration < n {
                lemma_mul_inequality(iteration as int, n - 1, p as int);
            }
            assert(job_keys(jobs@) =~= releases(*self, horizon as int));
        }
        jobs
    }
}

/// How many releases a task of period `period` makes before `horizon`.
pub open spec fn release_count(horizon: int, period: int) -> int {
    (horizon + period - 1) / period
}

/// The key (task id, iteration, arrival, deadline, demand) of the `k`-th job of
/// task `t`.
pub open spec fn release_key(t: Task, k: int) -> (usize, usize, usize, usize, usize) {
    (
        t.spec_id(),
        k as usize,
        (k * t.spec_period()) as usize,
        ((k + 1) * t.spec_period()) as usize,
        t.spec_wcet(),
    )
}

/// The keys of the jobs that task `t` releases before `horizon`.
pub open spec fn releases(t: Task, horizon: int) -> Seq<(usize, usize, usize, usize, usize)> {
    Seq::new(release_count(horizon, t.spec_period() as int) as nat, |k: int| release_key(t, k))
}

/// The keys of the jobs that the tasks release before `horizon`, task after
/// task.
pub open spec fn all_releases(tasks: Seq<Task>, horizon: int) -> Seq<
    (usize, usize, usize, usize, usize),
>
    decreases tasks.len(),
{
    if tasks.len() == 0 {
        Seq::empty()
    } else {
        all_releases(tasks.drop_last(), horizon) + releases(tasks.last(), horizon)
    }
}

/// The key of each job, in order.
pub open spec fn job_keys(jobs: Seq<Job>) -> Seq<(usize, usize, usize, usize, usize)> {
    jobs.map_values(|j: Job| j.spec_key())
}

/// The release count is the least number of periods that reach the horizon.
pub proof fn lemma_release_count(horizon: int, period: int)
    requires
        0 <= horizon,
        0 < period,
    ensures
        0 <= release_count(horizon, period),
        release_count(horizon, period) * period >= horizon,
        release_count(horizon, period) == 0 || (release_count(horizon, period) - 1) * period
            < horizon,
{
    let n = release_count(horizon, period);
    lemma_fundamental_div_mod(horizon + period - 1, period);
    lemma_mul_is_commutative(period, n);
    let r = (horizon + period - 1) % period;
    assert(0 <= r < period);
    assert(n * period == horizon + period - 1 - r);
    assert((n - 1) * period == n * period - period) by (nonlinear_arith);
    assert(0 <= n) by (nonlinear_arith)
        requires
            n * period >= 0,
            0 < period,
    ;
}

/// Whether `m` is a multiple of every task's period.
pub open spec fn common_multiple(m: int, tasks: Seq<Task>) -> bool {
    forall|i: int| 0 <= i < tasks.len() ==> divides((#[trigger] tasks[i]).spec_period() as int, m)
}

/// Whether `h` is the least positive common multiple of the tasks' periods
/// (the one that divides every other).
pub open spec fn is_hyperperiod(h: int, tasks: Seq<Task>) -> bool {
    &&& 0 < h
    &&& common_multiple(h, tasks)
    &&& forall|m: int| #[trigger] common_multiple(m, tasks) ==> divides(h, m)
}

/// The hyperperiod of the tasks, where there is one.
pub open spec fn hyperperiod_of(tasks: Seq<Task>) -> int {
    choose|h: int| is_hyperperiod(h, tasks)
}

/// Whether the tasks' periods have a common multiple that fits in `usize`.
pub open spec fn hyperperiod_fits(tasks: Seq<Task>) -> bool {
    exists|m: int| 0 < m <= usize::MAX && #[trigger] common_multiple(m, tasks)
}

/// There is at most one hyperperiod.
pub proof fn lemma_hyperperiod_unique(h: int, tasks: Seq<Task>)
    requires
        is_hyperperiod(h, tasks),
    ensures
        hyperperiod_of(tasks) == h,
{
    let g = hyperperiod_of(tasks);
    assert(is_hyperperiod(g, tasks));
    assert(divides(h, g));
    assert(divides(g, h));
    lemma_divides_le(h, g);
    lemma_divides_le(g, h);
}

/// Task `t`'s share of a processor, in units of `1 / scale` of its capacity.
pub open spec fn share(t: Task, scale: int) -> int {
    t.spec_wcet() * (scale / t.spec_period() as int)
}

/// Summed share of the tasks, in units of `1 / scale`.
pub open spec fn total_share(tasks: Seq<Task>, scale: int) -> int
    decreases tasks.len(),
{
    if tasks.len() == 0 {
        0
    } else {
        total_share(tasks.drop_last(), scale) + share(tasks.last(), scale)
    }
}

/// Whether the tasks' utilizations sum to at most 1: over a common multiple
/// `d` of the periods, `sum(wcet * (d / period)) <= d`.
pub open spec fn within_capacity(tasks: Seq<Task>) -> bool {
    exists|d: int| 0 < d && common_multiple(d, tasks) && #[trigger] total_share(tasks, d) <= d
}

/// Whether some task has id `id`.
pub open spec fn has_id(tasks: Seq<Task>, id: usize) -> bool {
    exists|i: int| 0 <= i < tasks.len() && (#[trigger] tasks[i]).spec_id() == id
}

/// No two tasks share an id.
pub open spec fn ids_unique(tasks: Seq<Task>) -> bool {
    forall|i: int, j: int|
        0 <= i < j < tasks.len() ==> (#[trigger] tasks[i]).spec_id() != (#[trigger] tasks[j]).spec_id()
}

/// Whether `t` is one of `tasks`.
pub open spec fn listed(t: Task, tasks: Seq<Task>) -> bool {
    exists|i: int| 0 <= i < tasks.len() && #[trigger] tasks[i] == t
}

/// Why a processor refused a task.
enum ProcessorError {
    TaskAlreadyExists(Task),
    NotEnoughCapacity(Task),
}

/// A capacity bin. Its load is kept exactly, in units of `1 / scale`, where
/// `scale` is a common multiple of the periods of every task it may take.
struct Processor {
    tasks: Vec<Task>,
    load: usize,
    scale: usize,
}

impl Processor {
    spec fn wf(&self) -> bool {
        &&& 0 < self.scale
        &&& common_multiple(self.scale as int, self.tasks@)
        &&& self.load == total_share(self.tasks@, self.scale as int)
        &&& self.load <= self.scale
        &&& ids_unique(self.tasks@)
    }

    /// Whether the admission check lets `t` in.
    spec fn admissible(&self, t: Task) -> bool {
        &&& !has_id(self.tasks@, t.spec_id())
        &&& self.load + share(t, self.scale as int) <= self.scale
    }

    fn new(scale: usize) -> (r: Self)
        requires
            0 < scale,
        ensures
            r.wf(),
            r.scale == scale,
            r.tasks@.len() == 0,
    {
        Self { tasks: Vec::new(), load: 0, scale }
    }

    /// `t`'s share, which is at most the whole scale.
    fn share_of(&self, t: Task) -> (r: usize)
        requires
            self.wf(),
            divides(t.spec_period() as int, self.scale as int),
        ensures
            r == share(t, self.scale as int),
            r <= self.scale,
    {
        proof {
            use_type_invariant(&t);
            lemma_fundamental_div_mod(self.scale as int, t.period as int);
            lemma_mul_inequality(t.wcet as int, t.period as int, self.scale as int / t.period as int);
            lemma_mul_is_commutative(t.period as int, self.scale as int / t.period as int);
        }
        t.wcet * (self.scale / t.period)
    }

    fn holds_id(&self, id: usize) -> (r: bool)
        ensures
            r == has_id(self.tasks@, id),
    {
        let mut i: usize = 0;
        while i < self.tasks.len()
            invariant
                i <= self.tasks@.len(),
                forall|k: int| 0 <= k < i ==> (#[trigger] self.tasks@[k]).spec_id() != id,
            decreases self.tasks@.len() - i,
        {
            if self.tasks[i].id == id {
                return true;
            }
            i = i + 1;
        }
        false
    }

    fn admits(&self, t: Task) -> (r: bool)
        requires
            self.wf(),
            divides(t.spec_period() as int, self.scale as int),
        ensures
            r == self.admissible(t),
    {
        !self.holds_id(t.id) && self.share_of(t) <= self.scale - self.load
    }

    /// The admission check: refuses a task whose id the processor already
    /// holds, then one whose utilization exceeds the remaining capacity;
    /// otherwise takes the task and reserves its share.
    fn push(&mut self, task: Task) -> (r: Result<(), ProcessorError>)
        requires
            old(self).wf(),
            divides(task.spec_period() as int, old(self).scale as int),
        ensures
            final(self).wf(),
            final(self).scale == old(self).scale,
            match r {
                Ok(()) => old(self).admissible(task) && final(self).tasks@ == old(
                    self,
                ).tasks@.push(task),
                Err(ProcessorError::TaskAlreadyExists(t)) => t == task && has_id(
                    old(self).tasks@,
                    task.spec_id(),
                ) && final(self).tasks@ == old(self).tasks@,
                Err(ProcessorError::NotEnoughCapacity(t)) => t == task && !has_id(
                    old(self).tasks@,
                    task.spec_id(),
                ) && !old(self).admissible(task) && final(self).tasks@ == old(self).tasks@,
            },
    {
        if self.holds_id(task.id) {
            return Err(ProcessorError::TaskAlreadyExists(task));
        }
        let s = self.share_of(task);
        if s > self.scale - self.load {
            return Err(ProcessorError::NotEnoughCapacity(task));
        }
        let ghost before = self.tasks@;
        self.tasks.push(task);
        self.load = self.load + s;
        proof {
            assert(self.tasks@.drop_last() == before);
            assert forall|i: int| 0 <= i < self.tasks@.len() implies divides((#[trigger] self.tasks@[i]).spec_period() as int, self.scale as int) by {
                if i < before.len() {
                    assert(self.tasks@[i] == before[i]);
                }
            }
            assert forall|i: int, j: int| 0 <= i < j < self.tasks@.len() implies (#[trigger] self.tasks@[i]).spec_id() != (#[trigger] self.tasks@[j]).spec_id() by {
                assert(self.tasks@[i] == before[i]);
                if j < before.len() {
                    assert(self.tasks@[j] == before[j]);
                } else {
                    assert(!has_id(before, task.spec_id()));
                }
            }
        }
        Ok(())
    }

    /// The processor's tasks, as a task list of its own.
    fn take(self) -> (r: TaskList)
        ensures
            r.spec_tasks() == self.tasks@,
            r.spec_replication() == 0,
    {
        TaskList { tasks: self.tasks, replication: 0 }
    }
}

/// How a heuristic picks among the processors that admit a task.
#[derive(Clone, Copy)]
pub enum Rule {
    /// The first in processor order.
    First,
    /// The one with the least remaining capacity (greatest load); the first in
    /// processor order among equals.
    LeastCapacity,
}

/// Whether the heuristic prefers processor `k` to processor `j`, both of
/// which admit the task.
spec fn preferred(rule: Rule, procs: Seq<Processor>, k: int, j: int) -> bool {
    match rule {
        Rule::First => k < j,
        Rule::LeastCapacity => procs[k].load > procs[j].load || (procs[k].load == procs[j].load
            && k < j),
    }
}

/// Whether a processor holding `bin` admits `t`, with capacity counted in
/// units of `1 / d`: it holds no task with `t`'s id, and `t`'s share fits.
pub open spec fn fits(bin: Seq<Task>, t: Task, d: int) -> bool {
    !has_id(bin, t.spec_id()) && total_share(bin, d) + share(t, d) <= d
}

/// Whether `rule` picks processor `k` of `bins` for `t`: `k` admits `t`, and
/// every other processor that admits it comes later (first-fit), or has a
/// smaller load, or the same load and comes later (least remaining capacity).
pub open spec fn chosen(bins: Seq<Seq<Task>>, t: Task, rule: Rule, d: int, k: int) -> bool {
    &&& 0 <= k < bins.len()
    &&& fits(bins[k], t, d)
    &&& forall|j: int|
        0 <= j < bins.len() && j != k && #[trigger] fits(bins[j], t, d) ==> match rule {
            Rule::First => k < j,
            Rule::LeastCapacity => total_share(bins[k], d) > total_share(bins[j], d) || (
            total_share(bins[k], d) == total_share(bins[j], d) && k < j),
        }
}

/// The processor that `rule` picks for `t`, or `None` where none admits it.
pub open spec fn pick(bins: Seq<Seq<Task>>, t: Task, rule: Rule, d: int) -> Option<int> {
    if exists|k: int| chosen(bins, t, rule, d, k) {
        Some(choose|k: int| chosen(bins, t, rule, d, k))
    } else {
        None
    }
}

/// At most one processor is picked.
proof fn lemma_chosen_unique(bins: Seq<Seq<Task>>, t: Task, rule: Rule, d: int, a: int, b: int)
    requires
        chosen(bins, t, rule, d, a),
        chosen(bins, t, rule, d, b),
    ensures
        a == b,
{
    if a != b {
        assert(fits(bins[a], t, d));
        assert(fits(bins[b], t, d));
    }
}

/// Places one copy of `t`: on the processor that `rule` picks, or nowhere
/// (`None`) where none admits it.
pub open spec fn place_copy(bins: Seq<Seq<Task>>, t: Task, rule: Rule, d: int) -> Option<Seq<Seq<Task>>> {
    match pick(bins, t, rule, d) {
        None => None,
        Some(k) => Some(bins.update(k, bins[k].push(t))),
    }
}

/// Places `c` copies of `t` one after another; the flag is false, with the
/// bins as they were, at the first copy that no processor admits.
pub open spec fn place_copies(bins: Seq<Seq<Task>>, t: Task, c: nat, rule: Rule, d: int) -> (Seq<Seq<Task>>, bool)
    decreases c,
{
    if c == 0 {
        (bins, true)
    } else {
        let (b, ok) = place_copies(bins, t, (c - 1) as nat, rule, d);
        if !ok {
            (b, false)
        } else {
            match place_copy(b, t, rule, d) {
                None => (b, false),
                Some(b2) => (b2, true),
            }
        }
    }
}

/// Places `copies` copies of each task, task after task; stops at the first
/// copy that no processor admits.
pub open spec fn place_tasks(bins: Seq<Seq<Task>>, tasks: Seq<Task>, copies: nat, rule: Rule, d: int) -> (Seq<Seq<Task>>, bool)
    decreases tasks.len(),
{
    if tasks.len() == 0 {
        (bins, true)
    } else {
        let (b, ok) = place_tasks(bins, tasks.drop_last(), copies, rule, d);
        if !ok {
            (b, false)
        } else {
            place_copies(b, tasks.last(), copies, rule, d)
        }
    }
}

/// `n` empty task sets.
pub open spec fn empty_bins(n: nat) -> Seq<Seq<Task>> {
    Seq::new(n, |i: int| Seq::<Task>::empty())
}

/// The task set of each of `num_proc` processors after placing
/// `replication + 1` copies of every task by `rule`, capacity counted over the
/// hyperperiod; and whether every copy found a processor.
pub open spec fn partition_result(tasks: Seq<Task>, replication: usize, num_proc: usize, rule: Rule) -> (Seq<Seq<Task>>, bool) {
    place_tasks(
        empty_bins(num_proc as nat),
        tasks,
        (replication + 1) as nat,
        rule,
        hyperperiod_of(tasks),
    )
}

/// Once a copy finds no processor, later copies change nothing.
proof fn lemma_copies_stay_failed(bins: Seq<Seq<Task>>, t: Task, c: nat, m: nat, rule: Rule, d: int)
    requires
        c <= m,
        !place_copies(bins, t, c, rule, d).1,
    ensures
        place_copies(bins, t, m, rule, d) == place_copies(bins, t, c, rule, d),
    decreases m - c,
{
    if c < m {
        lemma_copies_stay_failed(bins, t, c, (m - 1) as nat, rule, d);
    }
}

/// Once a task fails, the later tasks change nothing.
proof fn lemma_tasks_stay_failed(bins: Seq<Seq<Task>>, tasks: Seq<Task>, i: int, j: int, copies: nat, rule: Rule, d: int)
    requires
        0 <= i <= j <= tasks.len(),
        !place_tasks(bins, tasks.take(i), copies, rule, d).1,
    ensures
        place_tasks(bins, tasks.take(j), copies, rule, d) == place_tasks(bins, tasks.take(i), copies, rule, d),
    decreases j - i,
{
    if i < j {
        lemma_tasks_stay_failed(bins, tasks, i, j - 1, copies, rule, d);
        assert(tasks.take(j).drop_last() == tasks.take(j - 1));
    }
}

/// The processor that the heuristic picks for `task`, or `None` where no
/// processor admits it.
fn select(procs: &Vec<Processor>, task: Task, rule: Rule, scale: Ghost<int>) -> (r: Option<usize>)
    requires
        forall|k: int|
            0 <= k < procs@.len() ==> (#[trigger] procs@[k]).wf() && divides(
                task.spec_period() as int,
                procs@[k].scale as int,
            ) && procs@[k].scale == scale@,
    ensures
        r matches Some(k) ==> pick(sets_of(procs@), task, rule, scale@) == Some(k as int),
        r is None ==> pick(sets_of(procs@), task, rule, scale@) is None,
        r is None ==> forall|j: int| 0 <= j < procs@.len() ==> !(#[trigger] procs@[j]).admissible(task),
        r matches Some(k) ==> k < procs@.len() && procs@[k as int].admissible(task) && forall|j: int|
            0 <= j < procs@.len() && j != k && (#[trigger] procs@[j]).admissible(task) ==> preferred(
                rule,
                procs@,
                k as int,
                j,
            ),
{
    let mut best: Option<usize> = None;
    let mut i: usize = 0;
    while i < procs.len()
        invariant
            i <= procs@.len(),
            forall|k: int|
                0 <= k < procs@.len() ==> (#[trigger] procs@[k]).wf() && divides(
                    task.spec_period() as int,
                    procs@[k].scale as int,
                ) && procs@[k].scale == scale@,
            best is None ==> forall|j: int| 0 <= j < i ==> !(#[trigger] procs@[j]).admissible(task),
            best matches Some(k) ==> k < i && procs@[k as int].admissible(task) && forall|j: int|
                0 <= j < i && j != k && (#[trigger] procs@[j]).admissible(task) ==> preferred(
                    rule,
                    procs@,
                    k as int,
                    j,
                ),
        decreases procs@.len() - i,
    {
        proof {
            let sets = sets_of(procs@);
            assert forall|k: int| 0 <= k < procs@.len() implies #[trigger] sets[k] == procs@[k].tasks@
                && total_share(sets[k], scale@) == procs@[k].load by {}
            assert(sets[i as int] == procs@[i as int].tasks@);
        }
        if procs[i].admits(task) {
            match best {
                None => {
                    best = Some(i);
                },
                Some(b) => {
                    let better = match rule {
                        Rule::First => false,
                        Rule::LeastCapacity => procs[i].load > procs[b].load,
                    };
                    if better {
                        best = Some(i);
                    }
                },
            }
        }
        i = i + 1;
    }
    proof {
        let sets = sets_of(procs@);
        assert forall|k: int| 0 <= k < procs@.len() implies #[trigger] sets[k] == procs@[k].tasks@
            && total_share(sets[k], scale@) == procs@[k].load && (fits(sets[k], task, scale@)
            == procs@[k].admissible(task)) by {}
        match best {
            Some(b) => {
                assert(chosen(sets, task, rule, scale@, b as int));
                let c = choose|k: int| chosen(sets, task, rule, scale@, k);
                lemma_chosen_unique(sets, task, rule, scale@, b as int, c);
            },
            None => {
                if exists|k: int| chosen(sets, task, rule, scale@, k) {
                    let c = choose|k: int| chosen(sets, task, rule, scale@, k);
                    assert(procs@[c].admissible(task));
                }
            },
        }
    }
    best
}

/// Turns each processor into the task list it holds, in processor order.
fn take_all(procs: Vec<Processor>) -> (r: Vec<TaskList>)
    ensures
        r@.len() == procs@.len(),
        forall|k: int|
            0 <= k < r@.len() ==> (#[trigger] r@[k]).spec_tasks() == procs@[k].tasks@
                && r@[k].spec_replication() == 0,
{
    let mut procs = procs;
    let ghost all = procs@;
    let mut lists: Vec<TaskList> = Vec::new();
    while procs.len() > 0
        invariant
            lists@.len() + procs@.len() == all.len(),
            procs@ == all.subrange(lists@.len() as int, all.len() as int),
            forall|k: int|
                0 <= k < lists@.len() ==> (#[trigger] lists@[k]).spec_tasks() == all[k].tasks@
                    && lists@[k].spec_replication() == 0,
        decreases procs@.len(),
    {
        let p = procs.remove(0);
        lists.push(p.take());
    }
    lists
}

/// How many of the task sets hold a task with id `id`.
pub open spec fn holders(sets: Seq<Seq<Task>>, id: usize) -> nat
    decreases sets.len(),
{
    if sets.len() == 0 {
        0
    } else {
        holders(sets.drop_last(), id) + if has_id(sets.last(), id) {
            1nat
        } else {
            0nat
        }
    }
}

/// The task set of each list.
pub open spec fn task_sets(lists: Seq<TaskList>) -> Seq<Seq<Task>> {
    lists.map_values(|l: TaskList| l.spec_tasks())
}

/// The task lists of a partition, whether it succeeded or not.
pub open spec fn outcome(r: Result<Vec<TaskList>, Vec<TaskList>>) -> Seq<TaskList> {
    match r {
        Ok(v) => v@,
        Err(v) => v@,
    }
}

/// What holds of every partition of `tasks` onto `num_proc` processors, a
/// partial one included: one list per processor, no id twice on a
/// processor, no processor's utilization above 1, and only tasks of the
/// input placed.
pub open spec fn placement_sound(tasks: Seq<Task>, num_proc: usize, out: Seq<TaskList>) -> bool {
    &&& out.len() == num_proc
    &&& forall|k: int| 0 <= k < out.len() ==> (#[trigger] out[k]).spec_replication() == 0
    &&& forall|k: int| 0 <= k < out.len() ==> ids_unique((#[trigger] out[k]).spec_tasks())
    &&& forall|k: int| 0 <= k < out.len() ==> within_capacity((#[trigger] out[k]).spec_tasks())
    &&& forall|k: int, j: int|
        0 <= k < out.len() && 0 <= j < out[k].spec_tasks().len() ==> listed(
            #[trigger] out[k].spec_tasks()[j],
            tasks,
        )
}

/// Every task's id is held by at least `replication + 1` processors.
pub open spec fn all_placed(tasks: Seq<Task>, replication: usize, out: Seq<TaskList>) -> bool {
    forall|i: int|
        0 <= i < tasks.len() ==> holders(task_sets(out), (#[trigger] tasks[i]).spec_id())
            >= replication + 1
}

/// Replacing one set changes the count by what that set contributes.
pub proof fn lemma_holders_update(sets: Seq<Seq<Task>>, k: int, new: Seq<Task>, id: usize)
    requires
        0 <= k < sets.len(),
    ensures
        holders(sets.update(k, new), id) + (if has_id(sets[k], id) {
            1int
        } else {
            0int
        }) == holders(sets, id) + (if has_id(new, id) {
            1int
        } else {
            0int
        }),
    decreases sets.len(),
{
    let upd = sets.update(k, new);
    if k == sets.len() - 1 {
        assert(upd.drop_last() == sets.drop_last());
    } else {
        assert(upd.drop_last() == sets.drop_last().update(k, new));
        lemma_holders_update(sets.drop_last(), k, new, id);
    }
}

/// At most every set holds the id, and where the count reaches the number of
/// sets, each of them does.
pub proof fn lemma_holders_bound(sets: Seq<Seq<Task>>, id: usize)
    ensures
        holders(sets, id) <= sets.len(),
        holders(sets, id) == sets.len() ==> forall|k: int|
            0 <= k < sets.len() ==> has_id(#[trigger] sets[k], id),
    decreases sets.len(),
{
    if sets.len() > 0 {
        lemma_holders_bound(sets.drop_last(), id);
        if holders(sets, id) == sets.len() {
            assert forall|k: int| 0 <= k < sets.len() implies has_id(#[trigger] sets[k], id) by {
                if k < sets.len() - 1 {
                    assert(sets[k] == sets.drop_last()[k]);
                }
            }
        }
    }
}

/// Empty sets share nothing.
proof fn lemma_empty_bins_share(n: nat, d: int)
    ensures
        bins_share(empty_bins(n), d) == 0,
    decreases n,
{
    if n > 0 {
        assert(empty_bins(n).drop_last() =~= empty_bins((n - 1) as nat));
        lemma_empty_bins_share((n - 1) as nat, d);
    }
}

/// The summed share of all the sets, in units of `1 / d`.
pub open spec fn bins_share(sets: Seq<Seq<Task>>, d: int) -> int
    decreases sets.len(),
{
    if sets.len() == 0 {
        0
    } else {
        bins_share(sets.drop_last(), d) + total_share(sets.last(), d)
    }
}

/// Replacing one set changes the summed share by the difference.
proof fn lemma_bins_share_update(sets: Seq<Seq<Task>>, k: int, new: Seq<Task>, d: int)
    requires
        0 <= k < sets.len(),
    ensures
        bins_share(sets.update(k, new), d) + total_share(sets[k], d) == bins_share(sets, d)
            + total_share(new, d),
    decreases sets.len(),
{
    let upd = sets.update(k, new);
    if k == sets.len() - 1 {
        assert(upd.drop_last() == sets.drop_last());
    } else {
        assert(upd.drop_last() == sets.drop_last().update(k, new));
        lemma_bins_share_update(sets.drop_last(), k, new, d);
    }
}

/// Sets that each stay within `d` sum to at most `d` per set.
proof fn lemma_bins_share_bound(sets: Seq<Seq<Task>>, d: int)
    requires
        forall|k: int| 0 <= k < sets.len() ==> total_share(#[trigger] sets[k], d) <= d,
    ensures
        bins_share(sets, d) <= sets.len() * d,
    decreases sets.len(),
{
    if sets.len() > 0 {
        assert forall|k: int| 0 <= k < sets.len() - 1 implies total_share(#[trigger] sets.drop_last()[k], d) <= d by {
            assert(sets.drop_last()[k] == sets[k]);
        }
        lemma_bins_share_bound(sets.drop_last(), d);
        assert(total_share(sets[sets.len() - 1], d) <= d);
        assert((sets.len() - 1) * d + d == sets.len() * d) by (nonlinear_arith);
    }
}

/// The task set of each processor.
spec fn sets_of(procs: Seq<Processor>) -> Seq<Seq<Task>> {
    procs.map_values(|p: Processor| p.tasks@)
}

/// The lists taken from well-formed processors make a sound placement.
proof fn lemma_placement(
    tasks: Seq<Task>,
    procs: Seq<Processor>,
    out: Seq<TaskList>,
    scale: usize,
    num_proc: usize,
)
    requires
        procs.len() == num_proc,
        out.len() == procs.len(),
        forall|k: int|
            0 <= k < out.len() ==> (#[trigger] out[k]).spec_tasks() == procs[k].tasks@
                && out[k].spec_replication() == 0,
        forall|k: int| 0 <= k < procs.len() ==> (#[trigger] procs[k]).wf() && procs[k].scale == scale,
        forall|k: int, j: int|
            0 <= k < procs.len() && 0 <= j < procs[k].tasks@.len() ==> listed(
                #[trigger] procs[k].tasks@[j],
                tasks,
            ),
    ensures
        placement_sound(tasks, num_proc, out),
{
    assert forall|k: int| 0 <= k < out.len() implies within_capacity((#[trigger] out[k]).spec_tasks()) by {
        assert(procs[k].wf());
        assert(total_share(out[k].spec_tasks(), procs[k].scale as int) <= procs[k].scale);
    }
    assert forall|k: int| 0 <= k < out.len() implies ids_unique((#[trigger] out[k]).spec_tasks()) by {
        assert(procs[k].wf());
    }
    assert forall|k: int, j: int|
        0 <= k < out.len() && 0 <= j < out[k].spec_tasks().len() implies listed(
            #[trigger] out[k].spec_tasks()[j],
            tasks,
        ) by {
        assert(out[k].spec_tasks()[j] == procs[k].tasks@[j]);
    }
}

/// A set of tasks, with the number of extra copies of each task that a
/// partition places on distinct processors.
#[derive(Debug)]
pub struct TaskList {
    tasks: Vec<Task>,
    replication: usize,
}

impl TaskList {
    pub closed spec fn spec_tasks(&self) -> Seq<Task> {
        self.tasks@
    }

    pub closed spec fn spec_replication(&self) -> usize {
        self.replication
    }

    pub fn new() -> (r: Self)
        ensures
            r.spec_tasks() == Seq::<Task>::empty(),
            r.spec_replication() == 0,
    {
        Self { tasks: Vec::new(), replication: 0 }
    }

    /// The same tasks, each to be placed `replication + 1` times.
    pub fn with_replication(self, replication: usize) -> (r: Self)
        ensures
            r.spec_tasks() == self.spec_tasks(),
            r.spec_replication() == replication,
    {
        Self { tasks: self.tasks, replication }
    }

    pub fn push(&mut self, task: Task)
        ensures
            final(self).spec_tasks() == old(self).spec_tasks().push(task),
            final(self).spec_replication() == old(self).spec_replication(),
    {
        self.tasks.push(task)
    }

    pub fn tasks(&self) -> (r: &Vec<Task>)
        ensures
            r@ == self.spec_tasks(),
    {
        &self.tasks
    }

    pub fn replication(&self) -> (r: usize)
        ensures
            r == self.spec_replication(),
    {
        self.replication
    }

    /// The ids of the tasks, in order.
    pub fn task_ids(&self) -> (r: Vec<usize>)
        ensures
            r@.len() == self.spec_tasks().len(),
            forall|i: int| 0 <= i < r@.len() ==> r@[i] == (#[trigger] self.spec_tasks()[i]).spec_id(),
    {
        let mut ids: Vec<usize> = Vec::new();
        let mut i: usize = 0;
        while i < self.tasks.len()
            invariant
                i <= self.tasks@.len(),
                ids@.len() == i,
                forall|k: int| 0 <= k < i ==> ids@[k] == (#[trigger] self.tasks@[k]).spec_id(),
            decreases self.tasks@.len() - i,
        {
            ids.push(self.tasks[i].id);
            i = i + 1;
        }
        ids
    }

    /// The least common multiple of the periods (1 for no tasks), or `None`
    /// where no common multiple fits in `usize`.
    pub fn hyperperiod(&self) -> (r: Option<usize>)
        ensures
            match r {
                Some(h) => is_hyperperiod(h as int, self.spec_tasks()),
                None => !hyperperiod_fits(self.spec_tasks()),
            },
    {
        let ghost tasks = self.tasks@;
        let mut h: u128 = 1;
        let mut i: usize = 0;
        assert forall|m: int| #[trigger] common_multiple(m, tasks.take(0)) implies divides(1, m) by {}
        while i < self.tasks.len()
            invariant
                tasks == self.tasks@,
                i <= tasks.len(),
                0 < h <= usize::MAX,
                common_multiple(h as int, tasks.take(i as int)),
                forall|m: int| #[trigger] common_multiple(m, tasks.take(i as int)) ==> divides(h as int, m),
            decreases tasks.len() - i,
        {
            let task = self.tasks[i];
            proof {
                use_type_invariant(&task);
            }
            let p = task.period as u128;
            assert(h * p <= u128::MAX) by (nonlinear_arith)
                requires
                    0 < h <= 0xffff_ffff_ffff_ffffu128,
                    0 < p <= 0xffff_ffff_ffff_ffffu128,
            ;
            let l = lcm(h, p);
            let ghost next = tasks.take(i + 1);
            proof {
                assert forall|j: int| 0 <= j < next.len() implies divides((#[trigger] next[j]).spec_period() as int, l as int) by {
                    if j < i {
                        assert(next[j] == tasks.take(i as int)[j]);
                        lemma_divides_trans(next[j].spec_period() as int, h as int, l as int);
                    }
                }
                assert forall|m: int| #[trigger] common_multiple(m, next) implies divides(l as int, m) by {
                    assert forall|j: int| 0 <= j < i implies divides((#[trigger] tasks.take(i as int)[j]).spec_period() as int, m) by {
                        assert(tasks.take(i as int)[j] == next[j]);
                    }
                    assert(common_multiple(m, tasks.take(i as int)));
                    assert(next[i as int] == task);
                }
            }
            if l > usize::MAX as u128 {
                proof {
                    assert forall|m: int| 0 < m <= usize::MAX implies !#[trigger] common_multiple(m, tasks) by {
                        if common_multiple(m, tasks) {
                            assert forall|j: int| 0 <= j < next.len() implies divides((#[trigger] next[j]).spec_period() as int, m) by {
                                assert(next[j] == tasks[j]);
                            }
                            assert(common_multiple(m, next));
                            lemma_divides_le(l as int, m);
                        }
                    }
                }
                return None;
            }
            h = l;
            i = i + 1;
        }
        proof {
            assert(tasks.take(tasks.len() as int) == tasks);
        }
        Some(h as usize)
    }

    /// First-fit: each copy goes to the first processor, in processor order,
    /// that admits it. The result is exactly `partition_result` under
    /// `Rule::First`; `Err` carries the placement as it stood when a copy
    /// found no processor.
    ///
    /// The periods must have a common multiple that fits in `usize`:
    /// capacity is counted exactly, in units of one over the hyperperiod.
    pub fn first_fit(&self, num_proc: usize) -> (r: Result<Vec<TaskList>, Vec<TaskList>>)
        requires
            hyperperiod_fits(self.spec_tasks()),
        ensures
            placement_sound(self.spec_tasks(), num_proc, outcome(r)),
            task_sets(outcome(r)) == partition_result(
                self.spec_tasks(),
                self.spec_replication(),
                num_proc,
                Rule::First,
            ).0,
            r is Ok <==> partition_result(
                self.spec_tasks(),
                self.spec_replication(),
                num_proc,
                Rule::First,
            ).1,
            r is Ok ==> all_placed(self.spec_tasks(), self.spec_replication(), outcome(r)),
            r is Err && ids_unique(self.spec_tasks()) ==> !all_placed(
                self.spec_tasks(),
                self.spec_replication(),
                outcome(r),
            ),
            self.spec_tasks().len() > 0 && self.spec_replication() >= num_proc ==> r is Err,
            r is Ok ==> (self.spec_replication() + 1) * total_share(
                self.spec_tasks(),
                hyperperiod_of(self.spec_tasks()),
            ) <= num_proc * hyperperiod_of(self.spec_tasks()),
    {
        self.partition(num_proc, Rule::First)
    }

    /// Worst-fit, as the reference scenario fixes it (four tasks of
    /// utilization 0.4 with one replica each on four processors give the
    /// pairs {1, 2}, {1, 2}, {3, 4}, {3, 4}): each copy goes to the admitting
    /// processor with the least remaining capacity (the first in processor
    /// order among equals), so that copies gather on processors already in
    /// use and fresh ones are kept for the copies that cannot share. The
    /// result is exactly `partition_result` under `Rule::LeastCapacity`;
    /// `Err` carries the placement as it stood when a copy found no
    /// processor.
    ///
    /// The periods must have a common multiple that fits in `usize`:
    /// capacity is counted exactly, in units of one over the hyperperiod.
    pub fn worst_fit(&self, num_proc: usize) -> (r: Result<Vec<TaskList>, Vec<TaskList>>)
        requires
            hyperperiod_fits(self.spec_tasks()),
        ensures
            placement_sound(self.spec_tasks(), num_proc, outcome(r)),
            task_sets(outcome(r)) == partition_result(
                self.spec_tasks(),
                self.spec_replication(),
                num_proc,
                Rule::LeastCapacity,
            ).0,
            r is Ok <==> partition_result(
                self.spec_tasks(),
                self.spec_replication(),
                num_proc,
                Rule::LeastCapacity,
            ).1,
            r is Ok ==> all_placed(self.spec_tasks(), self.spec_replication(), outcome(r)),
            r is Err && ids_unique(self.spec_tasks()) ==> !all_placed(
                self.spec_tasks(),
                self.spec_replication(),
                outcome(r),
            ),
            self.spec_tasks().len() > 0 && self.spec_replication() >= num_proc ==> r is Err,
            r is Ok ==> (self.spec_replication() + 1) * total_share(
                self.spec_tasks(),
                hyperperiod_of(self.spec_tasks()),
            ) <= num_proc * hyperperiod_of(self.spec_tasks()),
    {
        self.partition(num_proc, Rule::LeastCapacity)
    }

    /// Best-fit: each copy goes to the admitting processor with the least
    /// remaining capacity, the tightest fit (the first in processor order
    /// among equals). The result is exactly `partition_result` under
    /// `Rule::LeastCapacity`; `Err` carries the placement as it stood when a
    /// copy found no processor.
    ///
    /// The periods must have a common multiple that fits in `usize`:
    /// capacity is counted exactly, in units of one over the hyperperiod.
    pub fn best_fit(&self, num_proc: usize) -> (r: Result<Vec<TaskList>, Vec<TaskList>>)
        requires
            hyperperiod_fits(self.spec_tasks()),
        ensures
            placement_sound(self.spec_tasks(), num_proc, outcome(r)),
            task_sets(outcome(r)) == partition_result(
                self.spec_tasks(),
                self.spec_replication(),
                num_proc,
                Rule::LeastCapacity,
            ).0,
            r is Ok <==> partition_result(
                self.spec_tasks(),
                self.spec_replication(),
                num_proc,
                Rule::LeastCapacity,
            ).1,
            r is Ok ==> all_placed(self.spec_tasks(), self.spec_replication(), outcome(r)),
            r is Err && ids_unique(self.spec_tasks()) ==> !all_placed(
                self.spec_tasks(),
                self.spec_replication(),
                outcome(r),
            ),
            self.spec_tasks().len() > 0 && self.spec_replication() >= num_proc ==> r is Err,
            r is Ok ==> (self.spec_replication() + 1) * total_share(
                self.spec_tasks(),
                hyperperiod_of(self.spec_tasks()),
            ) <= num_proc * hyperperiod_of(self.spec_tasks()),
    {
        self.partition(num_proc, Rule::LeastCapacity)
    }

    /// Places `replication + 1` copies of every task on `num_proc`
    /// processors, task after task and one copy at a time, each copy on the
    /// processor that `rule` picks among those that admit it. Fails, with the
    /// partial placement, as soon as no processor admits a copy.
    fn partition(&self, num_proc: usize, rule: Rule) -> (r: Result<Vec<TaskList>, Vec<TaskList>>)
        requires
            hyperperiod_fits(self.spec_tasks()),
        ensures
            placement_sound(self.spec_tasks(), num_proc, outcome(r)),
            task_sets(outcome(r)) == partition_result(
                self.spec_tasks(),
                self.spec_replication(),
                num_proc,
                rule,
            ).0,
            r is Ok <==> partition_result(
                self.spec_tasks(),
                self.spec_replication(),
                num_proc,
                rule,
            ).1,
            r is Ok ==> all_placed(self.spec_tasks(), self.spec_replication(), outcome(r)),
            r is Err && ids_unique(self.spec_tasks()) ==> !all_placed(
                self.spec_tasks(),
                self.spec_replication(),
                outcome(r),
            ),
            self.spec_tasks().len() > 0 && self.spec_replication() >= num_proc ==> r is Err,
            r is Ok ==> (self.spec_replication() + 1) * total_share(
                self.spec_tasks(),
                hyperperiod_of(self.spec_tasks()),
            ) <= num_proc * hyperperiod_of(self.spec_tasks()),
    {
        let scale = match self.hyperperiod() {
            Some(h) => h,
            None => {
                // cannot happen: the periods have a common multiple that fits
                return Err(Vec::new());
            },
        };
        let ghost tasks = self.tasks@;
        let ghost init = empty_bins(num_proc as nat);
        proof {
            lemma_hyperperiod_unique(scale as int, tasks);
        }
        let mut procs: Vec<Processor> = Vec::new();
        while procs.len() < num_proc
            invariant
                procs@.len() <= num_proc,
                0 < scale,
                forall|k: int|
                    0 <= k < procs@.len() ==> (#[trigger] procs@[k]).wf() && procs@[k].scale
                        == scale && procs@[k].tasks@.len() == 0,
                forall|x: usize| #[trigger] holders(sets_of(procs@), x) == 0,
            decreases num_proc - procs@.len(),
        {
            let ghost before = procs@;
            let fresh = Processor::new(scale);
            procs.push(fresh);
            proof {
                assert(sets_of(procs@) =~= sets_of(before).push(fresh.tasks@));
                assert forall|x: usize| #[trigger] holders(sets_of(procs@), x) == 0 by {
                    assert(sets_of(procs@).drop_last() =~= sets_of(before));
                    assert(sets_of(procs@).last() == fresh.tasks@);
                    assert(!has_id(fresh.tasks@, x));
                    assert(holders(sets_of(before), x) == 0);
                }
            }
        }
        let copies: u128 = self.replication as u128 + 1;
        let mut i: usize = 0;
        proof {
            assert forall|k: int| 0 <= k < num_proc implies #[trigger] sets_of(procs@)[k] == init[k] by {
                assert(procs@[k].tasks@ =~= Seq::<Task>::empty());
            }
            assert(sets_of(procs@) =~= init);
            assert(tasks.take(0) =~= Seq::<Task>::empty());
            lemma_empty_bins_share(num_proc as nat, scale as int);
        }
        while i < self.tasks.len()
            invariant
                tasks == self.tasks@,
                place_tasks(init, tasks.take(i as int), copies as nat, rule, scale as int) == (sets_of(procs@), true),
                init == empty_bins(num_proc as nat),
                hyperperiod_of(tasks) == scale as int,
                bins_share(sets_of(procs@), scale as int) == copies * total_share(tasks.take(i as int), scale as int),
                copies == self.replication + 1,
                i <= tasks.len(),
                common_multiple(scale as int, tasks),
                procs@.len() == num_proc,
                forall|k: int|
                    0 <= k < procs@.len() ==> (#[trigger] procs@[k]).wf() && procs@[k].scale
                        == scale,
                forall|k: int, j: int|
                    0 <= k < procs@.len() && 0 <= j < procs@[k].tasks@.len() ==> listed(
                        #[trigger] procs@[k].tasks@[j],
                        tasks,
                    ),
                forall|j: int| 0 <= j < i ==> holders(sets_of(procs@), (#[trigger] tasks[j]).spec_id()) >= copies,
                ids_unique(tasks) ==> forall|j: int|
                    i <= j < tasks.len() ==> holders(sets_of(procs@), (#[trigger] tasks[j]).spec_id()) == 0,
                i > 0 ==> copies <= num_proc,
            decreases tasks.len() - i,
        {
            let task = self.tasks[i];
            let mut c: u128 = 0;
            let ghost start = sets_of(procs@);
            while c < copies
                invariant
                    tasks == self.tasks@,
                    place_tasks(init, tasks.take(i as int), copies as nat, rule, scale as int) == (start, true),
                    init == empty_bins(num_proc as nat),
                    hyperperiod_of(tasks) == scale as int,
                    place_copies(start, task, c as nat, rule, scale as int) == (sets_of(procs@), true),
                    bins_share(sets_of(procs@), scale as int) == copies * total_share(tasks.take(i as int), scale as int)
                        + c * share(task, scale as int),
                    i < tasks.len(),
                    task == tasks[i as int],
                    copies == self.replication + 1,
                    c <= copies,
                    common_multiple(scale as int, tasks),
                    procs@.len() == num_proc,
                    forall|k: int|
                        0 <= k < procs@.len() ==> (#[trigger] procs@[k]).wf() && procs@[k].scale
                            == scale,
                    forall|k: int, j: int|
                        0 <= k < procs@.len() && 0 <= j < procs@[k].tasks@.len() ==> listed(
                            #[trigger] procs@[k].tasks@[j],
                            tasks,
                        ),
                    forall|j: int| 0 <= j < i ==> holders(sets_of(procs@), (#[trigger] tasks[j]).spec_id()) >= copies,
                    holders(sets_of(procs@), task.spec_id()) >= c,
                    ids_unique(tasks) ==> holders(sets_of(procs@), task.spec_id()) == c,
                    ids_unique(tasks) ==> forall|j: int|
                        i < j < tasks.len() ==> holders(sets_of(procs@), (#[trigger] tasks[j]).spec_id()) == 0,
                    c <= num_proc,
                decreases copies - c,
            {
                assert(divides(task.spec_period() as int, scale as int));
                match select(&procs, task, rule, Ghost(scale as int)) {
                    None => {
                        let ghost last = procs@;
                        let out = take_all(procs);
                        proof {
                            lemma_placement(tasks, last, out@, scale, num_proc);
                            assert(task_sets(out@) =~= sets_of(last));
                            assert(place_copies(start, task, (c + 1) as nat, rule, scale as int) == (sets_of(last), false));
                            lemma_copies_stay_failed(start, task, (c + 1) as nat, copies as nat, rule, scale as int);
                            assert(tasks.take(i + 1).drop_last() == tasks.take(i as int));
                            assert(tasks.take(i + 1).last() == task);
                            assert(place_tasks(init, tasks.take(i + 1), copies as nat, rule, scale as int) == (sets_of(last), false));
                            lemma_tasks_stay_failed(init, tasks, i + 1, tasks.len() as int, copies as nat, rule, scale as int);
                            assert(tasks.take(tasks.len() as int) == tasks);
                            assert(place_tasks(init, tasks, copies as nat, rule, scale as int) == (sets_of(last), false));
                            assert(partition_result(tasks, self.replication, num_proc, rule) == (sets_of(last), false));
                            if ids_unique(tasks) {
                                assert(holders(task_sets(out@), tasks[i as int].spec_id()) < copies);
                            }
                        }
                        return Err(out);
                    },
                    Some(k) => {
                        let ghost before = procs@;
                        let mut p = procs.remove(k);
                        let _ = p.push(task);
                        procs.insert(k, p);
                        proof {
                            assert(procs@ =~= before.update(k as int, p));
                            assert(sets_of(procs@) =~= sets_of(before).update(k as int, p.tasks@));
                            assert(sets_of(before)[k as int] == before[k as int].tasks@);
                            assert(p.tasks@ == before[k as int].tasks@.push(task));
                            assert(place_copies(start, task, (c + 1) as nat, rule, scale as int) == (sets_of(procs@), true));
                            assert(p.tasks@.drop_last() == before[k as int].tasks@);
                            lemma_bins_share_update(sets_of(before), k as int, p.tasks@, scale as int);
                            assert((c + 1) * share(task, scale as int) == c * share(task, scale as int) + share(task, scale as int)) by (nonlinear_arith);
                            assert(p.tasks@.last() == task);
                            assert(has_id(p.tasks@, task.spec_id()));
                            assert forall|x: usize| has_id(before[k as int].tasks@, x) implies has_id(p.tasks@, x) by {
                                let w = choose|w: int| 0 <= w < before[k as int].tasks@.len() && (#[trigger] before[k as int].tasks@[w]).spec_id() == x;
                                assert(p.tasks@[w] == before[k as int].tasks@[w]);
                            }
                            assert(sets_of(before)[k as int] == before[k as int].tasks@);
                            lemma_holders_update(sets_of(before), k as int, p.tasks@, task.spec_id());
                            assert forall|j: int| 0 <= j < i implies holders(sets_of(procs@), (#[trigger] tasks[j]).spec_id()) >= copies by {
                                lemma_holders_update(sets_of(before), k as int, p.tasks@, tasks[j].spec_id());
                            }
                            if ids_unique(tasks) {
                                assert forall|j: int| i < j < tasks.len() implies holders(sets_of(procs@), (#[trigger] tasks[j]).spec_id()) == 0 by {
                                    let x = tasks[j].spec_id();
                                    assert(tasks[i as int].spec_id() != x);
                                    lemma_holders_update(sets_of(before), k as int, p.tasks@, x);
                                    if has_id(p.tasks@, x) {
                                        let w = choose|w: int| 0 <= w < p.tasks@.len() && (#[trigger] p.tasks@[w]).spec_id() == x;
                                        if w < before[k as int].tasks@.len() {
                                            assert(p.tasks@[w] == before[k as int].tasks@[w]);
                                        }
                                    }
                                    lemma_holders_bound(sets_of(before), x);
                                }
                            }
                            lemma_holders_bound(sets_of(before), task.spec_id());
                            lemma_holders_bound(sets_of(procs@), task.spec_id());
                            if holders(sets_of(before), task.spec_id()) == num_proc {
                                assert(has_id(sets_of(before)[k as int], task.spec_id()));
                            }
                            assert forall|m: int, j: int|
                                0 <= m < procs@.len() && 0 <= j < procs@[m].tasks@.len() implies listed(
                                    #[trigger] procs@[m].tasks@[j],
                                    tasks,
                                ) by {
                                if m == k {
                                    if j < before[m].tasks@.len() {
                                        assert(procs@[m].tasks@[j] == before[m].tasks@[j]);
                                    } else {
                                        assert(tasks[i as int] == task);
                                    }
                                } else {
                                    assert(procs@[m] == before[m]);
                                }
                            }
                        }
                        c = c + 1;
                    },
                }
            }
            proof {
                assert(tasks.take(i + 1).drop_last() == tasks.take(i as int));
                assert(tasks.take(i + 1).last() == task);
                let x = total_share(tasks.take(i as int), scale as int);
                let y = share(task, scale as int);
                assert(copies * (x + y) == copies * x + copies * y) by (nonlinear_arith);
            }
            i = i + 1;
        }
        let ghost last = procs@;
        let out = take_all(procs);
        proof {
            lemma_placement(tasks, last, out@, scale, num_proc);
            assert(task_sets(out@) =~= sets_of(last));
            assert(tasks.take(tasks.len() as int) == tasks);
            assert forall|k: int| 0 <= k < sets_of(last).len() implies total_share(#[trigger] sets_of(last)[k], scale as int) <= scale by {
                assert(last[k].wf());
            }
            lemma_bins_share_bound(sets_of(last), scale as int);
        }
        Ok(out)
    }

    /// The jobs that the tasks release over one hyperperiod, task after task,
    /// or `None` where the hyperperiod does not fit in `usize`.
    pub fn jobs_till_hyperperiod(&self) -> (r: Option<JobList>)
        ensures
            r is None <==> !hyperperiod_fits(self.spec_tasks()),
            r matches Some(jobs) ==> job_keys(jobs@) == all_releases(
                self.spec_tasks(),
                hyperperiod_of(self.spec_tasks()),
            ) && pending_jobs(jobs@),
    {
        let h = match self.hyperperiod() {
            Some(h) => h,
            None => {
                return None;
            },
        };
        proof {
            lemma_hyperperiod_unique(h as int, self.tasks@);
        }
        let ghost tasks = self.tasks@;
        let mut jobs = JobList::new();
        let mut i: usize = 0;
        while i < self.tasks.len()
            invariant
                tasks == self.tasks@,
                i <= tasks.len(),
                is_hyperperiod(h as int, tasks),
                job_keys(jobs@) == all_releases(tasks.take(i as int), h as int),
                pending_jobs(jobs@),
            decreases tasks.len() - i,
        {
            let task = self.tasks[i];
            proof {
                use_type_invariant(&task);
                let p = task.spec_period() as int;
                let n = release_count(h as int, p);
                lemma_release_count(h as int, p);
                assert(divides(p, h as int));
                lemma_fundamental_div_mod(h as int, p);
                let q = (h as int) / p;
                lemma_mul_is_commutative(p, q);
                assert(n * p <= h) by (nonlinear_arith)
                    requires
                        n == 0 || (n - 1) * p < q * p,
                        q * p == h,
                        0 < p,
                        0 <= n,
                ;
            }
            let more = task.jobs_till(h);
            let ghost before = jobs@;
            jobs.join(more);
            proof {
                let prefix = tasks.take(i + 1);
                assert(prefix.drop_last() == tasks.take(i as int));
                assert(prefix.last() == task);
                assert(job_keys(before + more@) =~= job_keys(before) + job_keys(more@));
                assert forall|k: int| 0 <= k < jobs@.len() implies (#[trigger] jobs@[k]).wf() && jobs@[k].spec_status() == crate::job::JobStatus::Ready by {
                    if k < before.len() {
                        assert(jobs@[k] == before[k]);
                    } else {
                        assert(jobs@[k] == more@[k - before.len()]);
                    }
                }
            }
            i = i + 1;
        }
        proof {
            assert(tasks.take(tasks.len() as int) == tasks);
        }
        Some(jobs)
    }
}

impl From<Vec<Task>> for TaskList {
    fn from(tasks: Vec<Task>) -> (r: Self) {
        Self { tasks, replication: 0 }
    }
}

impl vstd::std_specs::convert::FromSpecImpl<Vec<Task>> for TaskList {
    open spec fn obeys_from_spec() -> bool {
        true
    }

    closed spec fn from_spec(v: Vec<Task>) -> Self {
        TaskList { tasks: v, replication: 0 }
    }
}


} // verus!
