use minigrep::Config;
use minigrep::Span;
use minigrep::report::file_report;
use minigrep::report::indices_fit;
use minigrep::report::relative_to;

fn config(query: &str, ignore_case: bool) -> Config {
    Config::build(
        query.to_string(),
        String::from("root/a.txt"),
        String::from("/base"),
        ignore_case,
        false,
        false,
        6,
    )
    .unwrap()
}

#[test]
fn report_lists_matching_lines_with_marked_pieces() {
    let cfg = config("foo", false);
    let report = file_report(&cfg, "foo\nbar\nxfoo");

    assert_eq!(2, report.len());

    assert_eq!(0, report[0].line_number);
    assert_eq!(
        vec![Span { text: "foo", matched: true }, Span { text: "", matched: false }],
        report[0].spans
    );

    assert_eq!(2, report[1].line_number);
    assert_eq!(
        vec![
            Span { text: "x", matched: false },
            Span { text: "foo", matched: true },
            Span { text: "", matched: false },
        ],
        report[1].spans
    );
}

#[test]
fn report_ignoring_case_splits_the_original_line() {
    let cfg = config("FOO", true);
    let report = file_report(&cfg, "a Foo b\nnothing");

    assert_eq!(1, report.len());
    assert_eq!(0, report[0].line_number);
    assert_eq!(
        vec![
            Span { text: "a ", matched: false },
            Span { text: "Foo", matched: true },
            Span { text: " b", matched: false },
        ],
        report[0].spans
    );
}

#[test]
fn report_of_file_without_occurrences_is_empty() {
    let cfg = config("absent", false);
    assert!(file_report(&cfg, "foo\nbar").is_empty());
}

#[test]
fn indices_fit_rejects_positions_outside_the_line() {
    assert!(!indices_fit("abc", &vec![5], 4));
    assert!(!indices_fit("abcdef", &vec![0, 2], 4));
    assert!(indices_fit("abcdef", &vec![0, 4], 2));
    assert!(indices_fit("abc", &Vec::new(), 4));
}

#[test]
fn relative_path_drops_the_invocation_root() {
    assert_eq!(Some("/sub/a.txt"), relative_to("/base/sub/a.txt", "/base"));
    assert_eq!(None, relative_to("/elsewhere/a.txt", "/base"));
    assert_eq!(None, relative_to("/b", "/base"));
}
