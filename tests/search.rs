use quewuigrep::{contains_str, lines, search, search_case_insensitive};

#[test]
fn case_sensitive() {
    let query = "duct";
    let contents = "\
Rust:
safe, fast, productive.
Pick three.
Duct tape. ";

    assert_eq!(vec!["safe, fast, productive."], search(query, contents));
}

#[test]
fn case_insensitive() {
    let query = "rUsT";
    let contents = "\
Rust:
safe, fast, productive.
Pick three.
Trust me.";

    assert_eq!(
        vec!["Rust:", "Trust me."],
        search_case_insensitive(query, contents)
    );
}

#[test]
fn returned_lines_hold_query_and_others_do_not() {
    let contents = "one apple\ntwo pears\napple pie\n";
    let found = search("apple", contents);
    assert_eq!(found, vec!["one apple", "apple pie"]);
    for line in lines(contents) {
        assert_eq!(found.contains(&line), line.contains("apple"));
    }
}

#[test]
fn order_and_original_text_are_kept() {
    let contents = "Zeta ONE\nalpha one\nBeta One";
    assert_eq!(
        search_case_insensitive("one", contents),
        vec!["Zeta ONE", "alpha one", "Beta One"]
    );
    assert_eq!(search("One", contents), vec!["Beta One"]);
}

#[test]
fn ignoring_case_finds_every_exact_match() {
    let contents = "Rust:\nsafe, fast, productive.\nPick three.\nTrust me.\nrust";
    let exact = search("rust", contents);
    let folded = search_case_insensitive("rust", contents);
    assert_eq!(exact, vec!["Trust me.", "rust"]);
    for line in &exact {
        assert!(folded.contains(line));
    }
    assert_eq!(folded, vec!["Rust:", "Trust me.", "rust"]);
}

#[test]
fn empty_query_keeps_every_line() {
    let contents = "a\n\nB c\nd";
    assert_eq!(search("", contents), vec!["a", "", "B c", "d"]);
    assert_eq!(search_case_insensitive("", contents), vec!["a", "", "B c", "d"]);
}

#[test]
fn empty_contents_give_nothing() {
    assert!(search("x", "").is_empty());
    assert!(search_case_insensitive("x", "").is_empty());
    assert!(search("", "").is_empty());
}

#[test]
fn no_match_gives_nothing() {
    assert!(search("zzz", "abc\ndef").is_empty());
    assert!(search_case_insensitive("ZZZ", "abc\ndef").is_empty());
}

#[test]
fn lines_split_like_str_lines() {
    assert_eq!(lines("a\r\nb\n\nc\r"), vec!["a", "b", "", "c\r"]);
    assert_eq!(lines("one\ntwo\n"), vec!["one", "two"]);
    assert_eq!(lines("\n"), vec![""]);
    assert!(lines("").is_empty());
    let text = "x\r\ny\n\r\nz\n";
    assert_eq!(lines(text), text.lines().collect::<Vec<&str>>());
}

#[test]
fn carriage_return_is_not_matched_at_line_end() {
    assert!(search("a\r", "a\r\nb").is_empty());
    assert_eq!(search("b", "a\r\nb"), vec!["b"]);
}

#[test]
fn substring_test_is_exact() {
    assert!(contains_str("productive", "duct"));
    assert!(!contains_str("Duct tape", "duct"));
    assert!(contains_str("abc", ""));
    assert!(!contains_str("", "a"));
    assert!(!contains_str("ab", "abc"));
    assert!(contains_str("aaab", "aab"));
    assert!(contains_str("héllo wörld", "ö"));
}

#[test]
fn lowercasing_is_applied_to_query_and_lines() {
    // the query only matches once both sides are lowercased
    assert_eq!(search_case_insensitive("ÄB", "xäbx\nAB"), vec!["xäbx"]);
    assert!(search("ÄB", "xäbx\nAB").is_empty());
}
