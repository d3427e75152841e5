use scheduling::{Job, JobList, JobStatus, Task};

#[test]
fn smoke() {
    let t1 = Task::new(1, 2, 6);
    let t2 = Task::new(2, 2, 8);
    let t3 = Task::new(3, 3, 12);
    let mut jobs = JobList::new();
    jobs.join(t1.jobs_till(24))
        .join(t2.jobs_till(24))
        .join(t3.jobs_till(24));
    let timeline = vec![
        (1, 0), (1, 0), (2, 0), (2, 0), (3, 0), (3, 0),
        (3, 0), (1, 1), (1, 1), (2, 1), (2, 1), (0, 0),
        (1, 2), (1, 2), (3, 1), (3, 1), (3, 1), (0, 0),
        (0, 0), (0, 0), (0, 0), (0, 0), (0, 0), (0, 0),
    ];

    jobs.schedule();
    assert_eq!(timeline, jobs.timeline(24));
}

#[test]
fn smoke2() {
    let t1 = Task::new(1, 1, 3);
    let t2 = Task::new(2, 1, 4);
    let t3 = Task::new(3, 2, 8);
    let mut jobs = JobList::new();
    jobs.join(t1.jobs_till(24))
        .join(t2.jobs_till(24))
        .join(t3.jobs_till(24));
    let timeline = vec![
        (1, 0), (2, 0), (3, 0), (1, 1), (3, 0), (2, 1),
        (1, 2), (0, 0), (2, 2), (1, 3), (3, 1), (3, 1),
        (1, 4), (2, 3), (0, 0), (1, 5), (2, 4), (3, 2),
        (1, 6), (3, 2), (2, 5), (0, 0), (0, 0), (0, 0),
    ];

    jobs.schedule();
    assert_eq!(timeline, jobs.timeline(24));
}

fn scheduled_example() -> JobList {
    let t1 = Task::new(1, 2, 6);
    let t2 = Task::new(2, 2, 8);
    let t3 = Task::new(3, 3, 12);
    let mut jobs = JobList::new();
    jobs.join(t1.jobs_till(24))
        .join(t2.jobs_till(24))
        .join(t3.jobs_till(24));
    jobs.schedule();
    jobs
}

#[test]
fn timeline_twice_is_the_same() {
    let jobs = scheduled_example();
    let first = jobs.timeline(24);
    let second = jobs.timeline(24);
    assert_eq!(first, second);
}

#[test]
fn scheduled_jobs_are_finished_with_consistent_logs() {
    let jobs = scheduled_example();
    assert!(jobs.len() > 0);
    for i in 0..jobs.len() {
        let job = jobs.get(i);
        assert!(matches!(job.status(), JobStatus::Done | JobStatus::DeadlineExceeded));
        let log = job.log();
        let mut served = 0;
        for (k, run) in log.iter().enumerate() {
            assert!(run.0 <= run.1);
            assert!(job.arrival_time() <= run.0 && run.1 <= job.deadline());
            if k > 0 {
                assert!(log[k - 1].1 <= run.0);
            }
            served += run.1 - run.0;
        }
        if job.status() == JobStatus::Done {
            assert_eq!(job.remaining(), 0);
            assert!(served > 0);
        }
    }
}

#[test]
fn deadline_miss_is_recorded() {
    let mut jobs = JobList::new();
    jobs.push(Job::new(7, 0, 0, 5, 4));
    jobs.push(Job::new(8, 0, 10, 1, 11));
    jobs.schedule();
    assert_eq!(jobs.len(), 1);
    let job = jobs.get(0);
    assert_eq!(job.id(), 7);
    assert_eq!(job.status(), JobStatus::DeadlineExceeded);
    assert_eq!(job.remaining(), 1);
    assert_eq!(job.log().clone(), vec![(0, 4)]);
    let mut expected = vec![(7, 0); 4];
    expected.extend(vec![(0, 0); 8]);
    assert_eq!(jobs.timeline(12), expected);
}

#[test]
fn timeline_clips_at_horizon() {
    let mut jobs = JobList::new();
    jobs.push(Job::new(7, 0, 0, 5, 4));
    jobs.push(Job::new(8, 0, 10, 1, 11));
    jobs.schedule();
    assert_eq!(jobs.timeline(2), vec![(7, 0), (7, 0)]);
    assert_eq!(jobs.timeline(0), Vec::new());
}

#[test]
fn empty_list_schedules_to_idle_timeline() {
    let mut jobs = JobList::new();
    jobs.schedule();
    assert_eq!(jobs.len(), 0);
    assert_eq!(jobs.timeline(3), vec![(0, 0); 3]);
}

#[test]
fn job_finishing_on_time_is_done() {
    let mut jobs = JobList::new();
    jobs.push(Job::new(1, 0, 0, 3, 5));
    jobs.push(Job::new(2, 0, 6, 1, 7));
    jobs.schedule();
    assert_eq!(jobs.len(), 1);
    assert_eq!(jobs.get(0).status(), JobStatus::Done);
    assert_eq!(jobs.get(0).log().clone(), vec![(0, 3)]);
}

#[test]
fn push_pop_join() {
    let mut a = JobList::new();
    assert!(a.pop().is_none());
    a.push(Job::new(1, 0, 0, 1, 2));
    let mut b = JobList::new();
    b.push(Job::new(2, 3, 4, 1, 6));
    a.join(b);
    assert_eq!(a.len(), 2);
    let last = a.pop().unwrap();
    assert_eq!((last.id(), last.iteration(), last.arrival_time(), last.deadline()), (2, 3, 4, 6));
    assert_eq!(a.len(), 1);
}

#[test]
fn jobs_till_releases_each_period() {
    let jobs = Task::new(1, 2, 6).jobs_till(13);
    assert_eq!(jobs.len(), 3);
    for i in 0..3 {
        let job = jobs.get(i);
        assert_eq!(job.id(), 1);
        assert_eq!(job.iteration(), i);
        assert_eq!(job.arrival_time(), 6 * i);
        assert_eq!(job.deadline(), 6 * i + 6);
        assert_eq!(job.remaining(), 2);
        assert_eq!(job.status(), JobStatus::Ready);
    }
    assert_eq!(Task::new(1, 2, 6).jobs_till(0).len(), 0);
}
