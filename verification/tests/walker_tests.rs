use minigrep::Config;
use minigrep::thread_pool::ThreadPool;
use minigrep::walker::FsNode;
use minigrep::walker::FsTree;
use minigrep::walker::walk;

fn file(name: &str) -> FsTree {
    FsTree { name: name.to_string(), ignored: false, node: FsNode::File }
}

fn ignored_file(name: &str) -> FsTree {
    FsTree { name: name.to_string(), ignored: true, node: FsNode::File }
}

fn dir(name: &str, entries: Vec<FsTree>) -> FsTree {
    FsTree { name: name.to_string(), ignored: false, node: FsNode::Dir(entries) }
}

fn config(hidden_files: bool, force_git: bool, thread_count: usize) -> Config {
    Config::build(
        String::from("foo"),
        String::from("root"),
        String::from("/base"),
        false,
        hidden_files,
        force_git,
        thread_count,
    )
    .unwrap()
}

fn submitted_paths(entries: &Vec<FsTree>, cfg: &Config) -> Vec<String> {
    let mut pool = ThreadPool::new(cfg.thread_count);
    let dir = String::from("root");
    walk(entries, cfg, &dir, &mut pool);
    pool.dispose().into_iter().map(|j| j.config.file_path).collect()
}

fn sample_tree() -> Vec<FsTree> {
    vec![file("a.txt"), file(".secret"), dir("sub", vec![file("b.txt")])]
}

#[test]
fn hidden_off_submits_two_jobs() {
    let cfg = config(false, false, 6);
    let paths = submitted_paths(&sample_tree(), &cfg);
    assert_eq!(vec!["root/a.txt".to_string(), "root/sub/b.txt".to_string()], paths);
}

#[test]
fn hidden_on_submits_three_jobs() {
    let cfg = config(true, false, 6);
    let paths = submitted_paths(&sample_tree(), &cfg);
    assert_eq!(
        vec![
            "root/a.txt".to_string(),
            "root/.secret".to_string(),
            "root/sub/b.txt".to_string()
        ],
        paths
    );
}

#[test]
fn hidden_directory_is_neither_descended_nor_submitted() {
    let entries = vec![file("a.txt"), dir(".git", vec![file("config")])];
    let cfg = config(false, false, 6);
    let paths = submitted_paths(&entries, &cfg);
    assert_eq!(vec!["root/a.txt".to_string()], paths);

    let all = config(true, false, 6);
    let paths = submitted_paths(&entries, &all);
    assert_eq!(vec!["root/a.txt".to_string(), "root/.git/config".to_string()], paths);
}

#[test]
fn one_job_per_file_whatever_the_worker_count() {
    let entries = vec![
        file("a.txt"),
        dir("sub", vec![file("b.txt"), dir("deep", vec![file("c.txt")])]),
        file("d.txt"),
    ];
    let expected = vec![
        "root/a.txt".to_string(),
        "root/sub/b.txt".to_string(),
        "root/sub/deep/c.txt".to_string(),
        "root/d.txt".to_string(),
    ];
    for workers in [1usize, 2, 16] {
        let cfg = config(true, true, workers);
        assert_eq!(expected, submitted_paths(&entries, &cfg));
    }
}

#[test]
fn ignore_verdict_respected_without_override() {
    let entries = vec![file("a.txt"), ignored_file("target.log")];
    let cfg = config(true, false, 6);
    let paths = submitted_paths(&entries, &cfg);
    assert_eq!(vec!["root/a.txt".to_string()], paths);
}

#[test]
fn ignore_override_includes_rejected_entries() {
    let entries = vec![file("a.txt"), ignored_file("target.log")];
    let cfg = config(true, true, 6);
    let paths = submitted_paths(&entries, &cfg);
    assert_eq!(vec!["root/a.txt".to_string(), "root/target.log".to_string()], paths);
}

#[test]
fn hidden_filter_still_applies_under_ignore_override() {
    let entries = vec![file("a.txt"), file(".secret")];
    let cfg = config(false, true, 6);
    let paths = submitted_paths(&entries, &cfg);
    assert_eq!(vec!["root/a.txt".to_string()], paths);
}

#[test]
fn chosen_files_do_not_depend_on_worker_count_or_query() {
    let entries = sample_tree();
    let one = config(false, false, 1);
    let mut eight = config(false, false, 8);
    eight.query = String::from("bar");
    eight.ignore_case = true;
    assert_eq!(submitted_paths(&entries, &one), submitted_paths(&entries, &eight));
}

#[test]
fn submitted_job_carries_callers_configuration() {
    let cfg = config(true, false, 3);
    let mut pool = ThreadPool::new(cfg.thread_count);
    let dir_name = String::from("root");
    let entries = vec![file("a.txt")];
    walk(&entries, &cfg, &dir_name, &mut pool);
    let jobs = pool.dispose();
    assert_eq!(1, jobs.len());
    let job_cfg = &jobs[0].config;
    assert_eq!("root/a.txt", job_cfg.file_path);
    assert_eq!("foo", job_cfg.query);
    assert_eq!("/base", job_cfg.original_path);
    assert_eq!(3, job_cfg.thread_count);
    assert!(job_cfg.hidden_files);
    assert!(!job_cfg.force_git);
    assert!(!job_cfg.ignore_case);
}

#[test]
fn walk_after_disposal_submits_nothing() {
    let cfg = config(true, true, 2);
    let mut pool = ThreadPool::new(cfg.thread_count);
    let _ = pool.dispose();
    let dir_name = String::from("root");
    let entries = sample_tree();
    walk(&entries, &cfg, &dir_name, &mut pool);
    assert!(pool.dispose().is_empty());
}
