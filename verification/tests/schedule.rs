use nbody::schedule::Task;

fn step_tasks(n: usize) -> Vec<Task> {
    let mut tasks = vec![Task::first(n)];
    loop {
        let last = tasks[tasks.len() - 1];
        match last.next(n) {
            Some(t) => tasks.push(t),
            None => return tasks,
        }
    }
}

fn pull(target: usize, source: usize) -> Task {
    Task::Accumulate { target, source }
}

#[test]
fn step_of_three_bodies_in_order() {
    assert_eq!(
        step_tasks(3),
        vec![
            pull(0, 1),
            pull(0, 2),
            pull(1, 0),
            pull(1, 2),
            pull(2, 0),
            pull(2, 1),
            Task::Integrate { body: 0 },
            Task::Integrate { body: 1 },
            Task::Integrate { body: 2 },
            Task::Record,
        ]
    );
}

#[test]
fn step_of_two_bodies_in_order() {
    assert_eq!(
        step_tasks(2),
        vec![
            pull(0, 1),
            pull(1, 0),
            Task::Integrate { body: 0 },
            Task::Integrate { body: 1 },
            Task::Record,
        ]
    );
}

#[test]
fn step_of_one_body_has_no_pull() {
    assert_eq!(step_tasks(1), vec![Task::Integrate { body: 0 }, Task::Record]);
}

#[test]
fn step_of_no_body_only_records() {
    assert_eq!(step_tasks(0), vec![Task::Record]);
    assert_eq!(Task::first(0), Task::Record);
}

#[test]
fn recording_ends_the_step() {
    assert_eq!(Task::Record.next(0), None);
    assert_eq!(Task::Record.next(7), None);
}

#[test]
fn next_skips_the_target_itself() {
    assert_eq!(pull(3, 2).next(6), Some(pull(3, 4)));
    assert_eq!(pull(3, 4).next(6), Some(pull(3, 5)));
    assert_eq!(pull(3, 5).next(6), Some(pull(4, 0)));
    assert_eq!(pull(4, 3).next(6), Some(pull(4, 5)));
    assert_eq!(pull(5, 3).next(6), Some(pull(5, 4)));
    assert_eq!(pull(5, 4).next(6), Some(Task::Integrate { body: 0 }));
    assert_eq!(pull(0, 5).next(6), Some(pull(1, 0)));
}

#[test]
fn last_update_is_followed_by_recording() {
    assert_eq!(Task::Integrate { body: 4 }.next(6), Some(Task::Integrate { body: 5 }));
    assert_eq!(Task::Integrate { body: 5 }.next(6), Some(Task::Record));
}

#[test]
fn every_ordered_pair_once_and_before_any_update() {
    for n in 0..9usize {
        let tasks = step_tasks(n);
        let pairs = if n == 0 { 0 } else { n * (n - 1) };
        assert_eq!(tasks.len(), pairs + n + 1);
        let mut seen = vec![false; n * n];
        for (place, task) in tasks.iter().enumerate() {
            match *task {
                Task::Accumulate { target, source } => {
                    assert!(place < pairs);
                    assert!(target < n && source < n && target != source);
                    assert!(!seen[target * n + source]);
                    seen[target * n + source] = true;
                    let k = if source < target { source } else { source - 1 };
                    assert_eq!(place, target * (n - 1) + k);
                }
                Task::Integrate { body } => {
                    assert_eq!(place, pairs + body);
                    assert!(body < n);
                }
                Task::Record => assert_eq!(place, pairs + n),
            }
        }
        for target in 0..n {
            for source in 0..n {
                assert_eq!(seen[target * n + source], target != source);
            }
        }
    }
}

#[test]
fn indices_near_the_word_limit() {
    let n = usize::MAX;
    assert_eq!(pull(n - 1, n - 3).next(n), Some(pull(n - 1, n - 2)));
    assert_eq!(pull(n - 1, n - 2).next(n), Some(Task::Integrate { body: 0 }));
    assert_eq!(pull(n - 2, n - 3).next(n), Some(pull(n - 2, n - 1)));
    assert_eq!(pull(n - 2, n - 1).next(n), Some(pull(n - 1, 0)));
    assert_eq!(Task::Integrate { body: n - 1 }.next(n), Some(Task::Record));
}
