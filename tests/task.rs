use scheduling::{Task, TaskList};

fn utilization_sum(list: &TaskList) -> f64 {
    list.tasks().iter().map(|t| t.wcet() as f64 / t.period() as f64).sum()
}

#[test]
fn split_tasks() {
    let t1 = Task::new(1, 2, 6);
    let t2 = Task::new(2, 2, 8);
    let t3 = Task::new(3, 3, 12);
    let tasklist = TaskList::from(vec![t1, t2, t3]).with_replication(1);
    for tasks in tasklist.first_fit(2).unwrap() {
        assert_eq!(tasks.task_ids(), vec![1, 2, 3]);
    }

    for tasks in tasklist.worst_fit(2).unwrap() {
        assert_eq!(tasks.task_ids(), vec![1, 2, 3]);
    }

    for tasks in tasklist.best_fit(2).unwrap() {
        assert_eq!(tasks.task_ids(), vec![1, 2, 3]);
    }
}

#[test]
fn num_proc_lt_replication() {
    let t1 = Task::new(1, 2, 6);
    let t2 = Task::new(2, 2, 8);
    let t3 = Task::new(3, 3, 12);
    let tasklist = TaskList::from(vec![t1, t2, t3]).with_replication(1);
    assert!(matches!(tasklist.first_fit(1), Err(_)));
    assert!(matches!(tasklist.worst_fit(1), Err(_)));
    assert!(matches!(tasklist.best_fit(1), Err(_)));
}

#[test]
fn total_util_gt_num_proc() {
    let t1 = Task::new(1, 8, 10);
    let t2 = Task::new(2, 6, 10);
    let t3 = Task::new(3, 2, 10);
    let tasklist = TaskList::from(vec![t1, t2, t3]).with_replication(4);
    assert!(matches!(tasklist.first_fit(7), Err(_)));
    assert!(matches!(tasklist.worst_fit(7), Err(_)));
    assert!(matches!(tasklist.best_fit(7), Err(_)));
}

#[test]
fn total_util_le_num_proc() {
    let t1 = Task::new(1, 4, 10);
    let t2 = Task::new(2, 3, 10);
    let t3 = Task::new(3, 1, 10);
    let tasklist = TaskList::from(vec![t1, t2, t3]).with_replication(4);
    assert!(matches!(tasklist.first_fit(5), Ok(_)));
    assert!(matches!(tasklist.worst_fit(5), Ok(_)));
    assert!(matches!(tasklist.best_fit(5), Ok(_)));
}

#[test]
fn first_fit() {
    let t1 = Task::new(1, 7, 10);
    let t2 = Task::new(2, 1, 10);
    let t3 = Task::new(3, 1, 10);
    let tasklist = TaskList::from(vec![t1, t2, t3]).with_replication(1);
    let ids: Vec<Vec<usize>> = tasklist
        .first_fit(3)
        .unwrap()
        .iter()
        .map(|tasks| tasks.task_ids())
        .collect();
    assert_eq!(ids[0], vec![1, 2, 3]);
    assert_eq!(ids[1], vec![1, 2, 3]);
    assert_eq!(ids[2], Vec::<usize>::new());
}

#[test]
fn best_fit() {
    let t1 = Task::new(1, 7, 10);
    let t2 = Task::new(2, 1, 10);
    let t3 = Task::new(3, 1, 10);
    let tasklist = TaskList::from(vec![t1, t2, t3]).with_replication(1);
    let ids: Vec<Vec<usize>> = tasklist
        .best_fit(3)
        .unwrap()
        .iter()
        .map(|tasks| tasks.task_ids())
        .collect();
    assert_eq!(ids[0], vec![1, 2, 3]);
    assert_eq!(ids[1], vec![1, 2, 3]);
    assert_eq!(ids[2], Vec::<usize>::new());
}

#[test]
fn best_fit_takes_the_tightest_processor() {
    let tasklist = TaskList::from(vec![Task::new(1, 1, 2), Task::new(2, 1, 4)]);
    let ids: Vec<Vec<usize>> = tasklist
        .best_fit(2)
        .unwrap()
        .iter()
        .map(|tasks| tasks.task_ids())
        .collect();
    assert_eq!(ids[0], vec![1, 2]);
    assert_eq!(ids[1], Vec::<usize>::new());
}

#[test]
fn worst_fit() {
    let t1 = Task::new(1, 4, 10);
    let t2 = Task::new(2, 4, 10);
    let t3 = Task::new(3, 4, 10);
    let t4 = Task::new(4, 4, 10);
    let tasklist = TaskList::from(vec![t1, t2, t3, t4]).with_replication(1);
    let ids: Vec<Vec<usize>> = tasklist
        .worst_fit(4)
        .unwrap()
        .iter()
        .map(|tasks| tasks.task_ids())
        .collect();
    assert_eq!(ids[0], vec![1, 2]);
    assert_eq!(ids[1], vec![1, 2]);
    assert_eq!(ids[2], vec![3, 4]);
    assert_eq!(ids[3], vec![3, 4]);
}

#[test]
fn partial_placement_on_failure() {
    let t1 = Task::new(1, 2, 6);
    let t2 = Task::new(2, 2, 8);
    let t3 = Task::new(3, 3, 12);
    let tasklist = TaskList::from(vec![t1, t2, t3]).with_replication(1);
    for result in [tasklist.first_fit(1), tasklist.worst_fit(1), tasklist.best_fit(1)] {
        let partial = result.unwrap_err();
        assert_eq!(partial.len(), 1);
        assert_eq!(partial[0].task_ids(), vec![1]);
    }
}

#[test]
fn capacity_failure_keeps_placed_tasks() {
    let t1 = Task::new(1, 6, 10);
    let t2 = Task::new(2, 5, 10);
    let tasklist = TaskList::from(vec![t1, t2]);
    let partial = tasklist.first_fit(1).unwrap_err();
    assert_eq!(partial[0].task_ids(), vec![1]);
    let placed = tasklist.first_fit(2).unwrap();
    assert_eq!(placed[0].task_ids(), vec![1]);
    assert_eq!(placed[1].task_ids(), vec![2]);
}

#[test]
fn exact_capacity_is_admitted() {
    let t1 = Task::new(1, 1, 3);
    let t2 = Task::new(2, 2, 3);
    let tasklist = TaskList::from(vec![t1, t2]);
    let placed = tasklist.first_fit(1).unwrap();
    assert_eq!(placed[0].task_ids(), vec![1, 2]);
    let t3 = Task::new(3, 1, 2);
    let t4 = Task::new(4, 1, 3);
    let t5 = Task::new(5, 1, 6);
    let placed = TaskList::from(vec![t3, t4, t5]).best_fit(1).unwrap();
    assert_eq!(placed[0].task_ids(), vec![3, 4, 5]);
}

#[test]
fn placements_stay_within_capacity_and_ids_unique() {
    let tasks = vec![
        Task::new(1, 3, 10),
        Task::new(2, 1, 4),
        Task::new(3, 2, 5),
        Task::new(4, 1, 2),
        Task::new(5, 1, 20),
    ];
    let tasklist = TaskList::from(tasks).with_replication(2);
    for result in [tasklist.first_fit(4), tasklist.worst_fit(4), tasklist.best_fit(4)] {
        let lists = match result {
            Ok(v) => v,
            Err(v) => v,
        };
        assert_eq!(lists.len(), 4);
        for list in &lists {
            assert!(utilization_sum(list) <= 1.0 + 1e-9);
            let mut ids = list.task_ids();
            let n = ids.len();
            ids.sort();
            ids.dedup();
            assert_eq!(ids.len(), n);
            assert_eq!(list.replication(), 0);
        }
    }
}

#[test]
fn hyperperiod_is_lcm_of_periods() {
    let tasklist = TaskList::from(vec![
        Task::new(1, 2, 6),
        Task::new(2, 2, 8),
        Task::new(3, 3, 12),
    ]);
    assert_eq!(tasklist.hyperperiod(), Some(24));
    assert_eq!(TaskList::new().hyperperiod(), Some(1));
    let mut single = TaskList::new();
    single.push(Task::new(1, 1, 7));
    assert_eq!(single.hyperperiod(), Some(7));
}

#[test]
fn hyperperiod_that_does_not_fit() {
    let tasklist = TaskList::from(vec![
        Task::new(1, 1, usize::MAX),
        Task::new(2, 1, usize::MAX - 1),
    ]);
    assert_eq!(tasklist.hyperperiod(), None);
    assert!(tasklist.jobs_till_hyperperiod().is_none());
}

#[test]
fn jobs_till_hyperperiod_counts_releases() {
    let tasklist = TaskList::from(vec![
        Task::new(1, 2, 6),
        Task::new(2, 2, 8),
        Task::new(3, 3, 12),
    ]);
    let mut jobs = tasklist.jobs_till_hyperperiod().unwrap();
    assert_eq!(jobs.len(), 4 + 3 + 2);
    assert_eq!(jobs.get(0).id(), 1);
    assert_eq!(jobs.get(4).id(), 2);
    assert_eq!(jobs.get(8).id(), 3);
    assert_eq!(jobs.get(8).arrival_time(), 12);
    jobs.schedule();
    let expected = vec![
        (1, 0), (1, 0), (2, 0), (2, 0), (3, 0), (3, 0),
        (3, 0), (1, 1), (1, 1), (2, 1), (2, 1), (0, 0),
        (1, 2), (1, 2), (3, 1), (3, 1), (3, 1), (0, 0),
        (0, 0), (0, 0), (0, 0), (0, 0), (0, 0), (0, 0),
    ];
    assert_eq!(jobs.timeline(24), expected);
}

#[test]
fn empty_task_list_partitions_into_empty_lists() {
    let tasklist = TaskList::new().with_replication(3);
    let lists = tasklist.worst_fit(2).unwrap();
    assert_eq!(lists.len(), 2);
    assert!(lists.iter().all(|l| l.task_ids().is_empty()));
    assert_eq!(TaskList::new().jobs_till_hyperperiod().unwrap().len(), 0);
}

#[test]
fn task_accessors() {
    let t = Task::new(4, 3, 9);
    assert_eq!((t.id(), t.wcet(), t.period()), (4, 3, 9));
    let list = TaskList::from(vec![t]).with_replication(2);
    assert_eq!(list.replication(), 2);
    assert_eq!(list.tasks().len(), 1);
}
