use dircompare::schedule::{plan_jobs, WalkBarrier};
use dircompare::types::{DirSide, HashTask, Job};

fn task(side: DirSide, name: &str) -> HashTask {
    HashTask { side, path: vec![b"root".to_vec(), name.as_bytes().to_vec()] }
}

#[test]
fn plan_keeps_every_task_and_ends_with_one_marker_per_worker() {
    let tasks = vec![
        task(DirSide::Left, "a"),
        task(DirSide::Right, "a"),
        task(DirSide::Left, "b"),
        task(DirSide::Right, "c"),
        task(DirSide::Left, "d"),
    ];
    let jobs = plan_jobs(tasks, 3);
    assert_eq!(jobs.len(), 8);
    let mut seen: Vec<(DirSide, Vec<u8>)> = Vec::new();
    for j in jobs[..5].iter() {
        match j {
            Job::Task(t) => seen.push((t.side, t.path[1].clone())),
            Job::End => panic!("end marker before the last task"),
        }
    }
    for j in jobs[5..].iter() {
        assert!(matches!(j, Job::End));
    }
    let key = |s: &(DirSide, Vec<u8>)| (s.0 == DirSide::Right, s.1.clone());
    seen.sort_by_key(key);
    let mut expected = vec![
        (DirSide::Left, b"a".to_vec()),
        (DirSide::Right, b"a".to_vec()),
        (DirSide::Left, b"b".to_vec()),
        (DirSide::Right, b"c".to_vec()),
        (DirSide::Left, b"d".to_vec()),
    ];
    expected.sort_by_key(key);
    assert_eq!(seen, expected);
}

#[test]
fn plan_of_no_tasks_is_only_markers() {
    let jobs = plan_jobs(Vec::new(), 2);
    assert_eq!(jobs.len(), 2);
    assert!(jobs.iter().all(|j| matches!(j, Job::End)));
}

#[test]
fn second_walk_to_finish_sends_the_markers() {
    let mut b = WalkBarrier::new();
    assert_eq!(b.arrive(4), 0);
    assert_eq!(b.arrive(4), 4);
}
