use quewuigrep::{search_with, Config, MISSING_FILENAME, MISSING_QUERY};

fn args(items: &[&str]) -> Vec<String> {
    items.iter().map(|s| s.to_string()).collect()
}

#[test]
fn config_takes_query_and_filename() {
    let c = Config::new(&args(&["program", "query", "filename.txt"]), false).unwrap();
    assert_eq!(c.query, "query");
    assert_eq!(c.filename, "filename.txt");
    assert!(c.case_sensitive);
}

#[test]
fn config_ignores_case_when_asked() {
    let c = Config::new(&args(&["program", "q", "f", "extra"]), true).unwrap();
    assert_eq!(c.query, "q");
    assert_eq!(c.filename, "f");
    assert!(!c.case_sensitive);
}

#[test]
fn config_missing_filename() {
    let r = Config::new(&args(&["program", "query"]), false);
    assert_eq!(r.err(), Some(MISSING_FILENAME));
    assert_eq!(MISSING_FILENAME, "Didn't get a filename!");
}

#[test]
fn config_missing_query() {
    assert_eq!(Config::new(&args(&["program"]), false).err(), Some(MISSING_QUERY));
    assert_eq!(Config::new(&args(&[]), true).err(), Some(MISSING_QUERY));
    assert_eq!(MISSING_QUERY, "Didn't get a query string!");
}

#[test]
fn search_with_follows_case_setting() {
    let contents = "Rust:\nsafe, fast, productive.\nPick three.\nTrust me.";
    let exact = Config::new(&args(&["p", "rUsT", "f"]), false).unwrap();
    assert!(search_with(&exact, contents).is_empty());
    let folded = Config::new(&args(&["p", "rUsT", "f"]), true).unwrap();
    assert_eq!(search_with(&folded, contents), vec!["Rust:", "Trust me."]);
}
