use minigrep::search;
use minigrep::search_case_insensitive;
use minigrep::split_by_matches;
use minigrep::Span;
use minigrep::search::match_positions_in;
use minigrep::search::split_lines;

#[test]
fn case_sensitive() {
    let query = "duct";
    let contents = "\
Rust:
safe, fast, productive.
Pick three.
DUCT TAPE!";

    assert_eq!(vec![(vec![15], (1, "safe, fast, productive."))], search(query, contents));
}

#[test]
fn case_insensitive() {
    let query = "rUsT";
    let contents = "\
Rust:
safe, fast, productive.
Pick three, rustrust.
Trust me.";

    assert_eq!(
        vec![
            (vec![0], (0, "Rust:")),
            (vec![12, 16], (2, "Pick three, rustrust.")),
            (vec![1], (3, "Trust me."))
        ],
        search_case_insensitive(query, contents)
    );
}

#[test]
fn split_one_match() {
    let query = "duct";
    let contents = "\
Rust:
safe, fast, productive.
Pick three.
DUCT TAPE!";

    let res = search(query, contents);
    let (indices, (_num, line)) = res.first().unwrap().to_owned();

    assert_eq!(
        vec![
            Span { text: "safe, fast, pro", matched: false },
            Span { text: "duct", matched: true },
            Span { text: "ive.", matched: false },
        ],
        split_by_matches(line, indices, query.len())
    );
}

#[test]
fn split_at_zero() {
    let text = "Rust";
    let (pre, rest) = text.split_at(0);

    assert_eq!("", pre);
    assert_eq!("Rust", rest);
}

#[test]
fn split_multiple_matches() {
    let query = "rUsT";
    let contents = "\
Rust:
safe, fast, productive.
Pick three, rustrust.
Trust me.";

    let matches = search_case_insensitive(query, contents);
    let mut match_iter = matches.iter();

    match_iter.next();
    let (indices, (_num, line)) = match_iter.next().unwrap().to_owned();

    assert_eq!(
        vec![
            Span { text: "Pick three, ", matched: false },
            Span { text: "rust", matched: true },
            Span { text: "rust", matched: true },
            Span { text: ".", matched: false },
        ],
        split_by_matches(line, indices, query.len())
    );
}

#[test]
fn occurrences_do_not_overlap() {
    assert_eq!(vec![0], match_positions_in("aaa", "aa"));
    assert_eq!(vec![0, 2], match_positions_in("aaaa", "aa"));
}

#[test]
fn empty_query_matches_at_every_position() {
    assert_eq!(vec![0, 1, 2], match_positions_in("ab", ""));
    assert_eq!(vec![(vec![0, 1, 2], (0, "ab"))], search("", "ab"));
}

#[test]
fn query_longer_than_line_never_matches() {
    let empty: Vec<usize> = Vec::new();
    assert_eq!(empty, match_positions_in("ab", "abc"));
    assert!(search("abc", "ab\nb").is_empty());
}

#[test]
fn lines_split_at_newlines() {
    assert_eq!(vec!["a", "b", "", "c"], split_lines("a\r\nb\n\nc"));
    assert_eq!(vec!["a", "b"], split_lines("a\nb\n"));
    assert!(split_lines("").is_empty());
    assert_eq!(vec![""], split_lines("\n"));
    assert_eq!(vec!["a\r"], split_lines("a\r"));
}

#[test]
fn match_on_last_line_without_newline() {
    let contents = "foo\nbar\nfoo foo";
    assert_eq!(
        vec![(vec![0], (0, "foo")), (vec![0, 4], (2, "foo foo"))],
        search("foo", contents)
    );
}
