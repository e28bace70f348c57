//! The settings of one search, taken from the command line.
use vstd::prelude::*;

verus! {

/// What to search for, where, and how.
pub struct Config {
    pub query: String,
    pub filename: String,
    pub case_sensitive: bool,
}

impl Config {
    /// Builds the settings from the command-line arguments, program name
    /// first, then the query, then the file name; further arguments are
    /// ignored. `case_insensitive_requested` tells whether the environment
    /// asked for case-insensitive matching.
    pub fn new(args: &[String], case_insensitive_requested: bool) -> (r: Result<Config, &'static str>)
        ensures
            args@.len() < 2 ==> r == Err::<Config, &'static str>("Didn't get a query string"),
            args@.len() == 2 ==> r == Err::<Config, &'static str>("Didn't get a filename"),
            args@.len() > 2 ==> r is Ok,
            r is Ok ==> r->Ok_0.query@ == args@[1]@ && r->Ok_0.filename@ == args@[2]@
                && r->Ok_0.case_sensitive == !case_insensitive_requested,
    {
        if args.len() < 2 {
            return Err("Didn't get a query string");
        }
        let query = args[1].clone();
        if args.len() < 3 {
            return Err("Didn't get a filename");
        }
        let filename = args[2].clone();
        Ok(Config { query, filename, case_sensitive: !case_insensitive_requested })
    }
}

} // verus!
