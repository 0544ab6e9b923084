use minigrep::Config;

#[test]
fn build_keeps_every_setting() {
    let cfg = Config::build(
        String::from("needle"),
        String::from("src"),
        String::from("/home/user"),
        true,
        false,
        true,
        4,
    )
    .unwrap();
    assert_eq!("needle", cfg.query);
    assert_eq!("src", cfg.file_path);
    assert_eq!("/home/user", cfg.original_path);
    assert!(cfg.ignore_case);
    assert!(!cfg.hidden_files);
    assert!(cfg.force_git);
    assert_eq!(4, cfg.thread_count);
}

#[test]
fn clone_copies_every_setting() {
    let cfg = Config::build(
        String::from("needle"),
        String::from("src"),
        String::from("/home/user"),
        false,
        true,
        false,
        2,
    )
    .unwrap();
    let copy = cfg.clone();
    assert_eq!(cfg.query, copy.query);
    assert_eq!(cfg.file_path, copy.file_path);
    assert_eq!(cfg.original_path, copy.original_path);
    assert_eq!(cfg.ignore_case, copy.ignore_case);
    assert_eq!(cfg.hidden_files, copy.hidden_files);
    assert_eq!(cfg.force_git, copy.force_git);
    assert_eq!(cfg.thread_count, copy.thread_count);
}
