use minigrep::Config;
use minigrep::thread_pool::Job;
use minigrep::thread_pool::ThreadPool;
use minigrep::thread_pool::WorkerState;
use minigrep::thread_pool::worker_step;

fn job_named(path: &str) -> Job {
    let config = Config::build(
        String::from("foo"),
        String::from(path),
        String::from("/base"),
        false,
        false,
        false,
        6,
    )
    .unwrap();
    Job { config }
}

#[test]
fn dispose_delivers_every_job_once_in_order() {
    for workers in [1usize, 2, 16] {
        let mut pool = ThreadPool::new(workers);
        pool.execute(job_named("a"));
        pool.execute(job_named("b"));
        pool.execute(job_named("c"));
        let jobs = pool.dispose();
        let paths: Vec<String> = jobs.into_iter().map(|j| j.config.file_path).collect();
        assert_eq!(vec!["a".to_string(), "b".to_string(), "c".to_string()], paths);
    }
}

#[test]
fn dispose_of_empty_pool_returns_at_once() {
    let mut pool = ThreadPool::new(4);
    let jobs = pool.dispose();
    assert!(jobs.is_empty());
}

#[test]
fn execute_after_disposal_is_dropped_silently() {
    let mut pool = ThreadPool::new(2);
    pool.execute(job_named("kept"));
    let jobs = pool.dispose();
    assert_eq!(1, jobs.len());

    pool.execute(job_named("late"));
    let after = pool.dispose();
    assert!(after.is_empty());
}

#[test]
fn worker_waits_executes_and_terminates() {
    let (state, to_run) = worker_step(WorkerState::Waiting, Some(job_named("a")));
    assert_eq!(WorkerState::Executing, state);
    assert_eq!("a", to_run.unwrap().config.file_path);

    let (state, to_run) = worker_step(state, None);
    assert_eq!(WorkerState::Waiting, state);
    assert!(to_run.is_none());

    let (state, to_run) = worker_step(state, None);
    assert_eq!(WorkerState::Terminated, state);
    assert!(to_run.is_none());
}

#[test]
fn terminated_worker_never_runs_again() {
    let (state, to_run) = worker_step(WorkerState::Terminated, Some(job_named("a")));
    assert_eq!(WorkerState::Terminated, state);
    assert!(to_run.is_none());
}
