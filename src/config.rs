//! The settings of one search, and the search that they select.
use vstd::prelude::*;

use crate::search::{
    matching_lines,
    matching_lines_ignore_case,
    search,
    search_case_insensitive,
};
use crate::text::views;

verus! {

/// The message when no query follows the program name.
pub const MISSING_QUERY: &'static str = "Didn't get a query string!";

/// The message when no file name follows the query.
pub const MISSING_FILENAME: &'static str = "Didn't get a filename!";

/// The query, the file to search and whether case counts.
pub struct Config {
    pub query: String,
    pub filename: String,
    pub case_sensitive: bool,
}

impl Config {
    /// Builds the settings from the program's arguments (the program name
    /// first, then the query, then the file name; further ones are ignored)
    /// and from whether case was asked to be ignored.
    pub fn new(args: &Vec<String>, ignore_case: bool) -> (r: Result<Config, &'static str>)
        ensures
            args@.len() < 2 ==> r == Err::<Config, &'static str>(MISSING_QUERY),
            args@.len() == 2 ==> r == Err::<Config, &'static str>(MISSING_FILENAME),
            args@.len() > 2 <==> r is Ok,
            r matches Ok(c) ==> (c.query@ == args@[1]@ && c.filename@ == args@[2]@
                && c.case_sensitive == !ignore_case),
    {
        if args.len() < 2 {
            return Err(MISSING_QUERY);
        }
        let query = args[1].clone();
        if args.len() < 3 {
            return Err(MISSING_FILENAME);
        }
        let filename = args[2].clone();
        Ok(Config { query, filename, case_sensitive: !ignore_case })
    }
}

/// The lines of `contents` that the settings select: an exact search when
/// case counts, else one that ignores case.
pub fn search_with<'a>(config: &Config, contents: &'a str) -> (r: Vec<&'a str>)
    ensures
        config.case_sensitive ==> views(r@) == matching_lines(config.query@, contents@),
        !config.case_sensitive ==> views(r@) == matching_lines_ignore_case(
            config.query@,
            contents@,
        ),
{
    if config.case_sensitive {
        search(config.query.as_str(), contents)
    } else {
        search_case_insensitive(config.query.as_str(), contents)
    }
}

} // verus!
