//! The search request and its construction from the command line: exactly two
//! positional arguments (query, then filename), with case sensitivity derived
//! from the presence of an environment toggle that the caller looks up.

use vstd::prelude::*;

verus! {

/// Why the command line was rejected. Each variant carries the user-facing
/// message, which includes the usage syntax.
#[derive(Debug)]
pub enum ConfigError {
    MissingArgument(&'static str),
    TooManyArguments(&'static str),
}

impl ConfigError {
    /// The user-facing message carried by this error.
    pub fn message(&self) -> (r: &'static str)
        ensures
            self matches ConfigError::MissingArgument(m) ==> r@ == m@,
            self matches ConfigError::TooManyArguments(m) ==> r@ == m@,
    {
        match self {
            ConfigError::MissingArgument(m) => m,
            ConfigError::TooManyArguments(m) => m,
        }
    }
}

/// A validated search request: what to look for, in which file, and whether
/// matching is case-sensitive.
#[derive(Debug)]
pub struct Config {
    pub query: String,
    pub filename: String,
    pub case_sensitive: bool,
}

impl Config {
    /// Build a request from the positional arguments, the program name
    /// excluded: the query, then the filename, and nothing after those.
    /// `case_insensitive` tells whether the environment toggle was present
    /// (with any value, even empty).
    pub fn new(args: &Vec<String>, case_insensitive: bool) -> (res: Result<Config, ConfigError>)
        ensures
            args@.len() == 2 ==> (res matches Ok(c) && c.query@ == args@[0]@
                && c.filename@ == args@[1]@ && c.case_sensitive == !case_insensitive),
            args@.len() == 0 ==> (res matches Err(ConfigError::MissingArgument(m)) && m@
                == "Query not specified USE: ./greppy 'query' 'filename'"@),
            args@.len() == 1 ==> (res matches Err(ConfigError::MissingArgument(m)) && m@
                == "Filename not specified USE: ./greppy 'query' 'filename'"@),
            args@.len() > 2 ==> (res matches Err(ConfigError::TooManyArguments(m)) && m@
                == "Too many arguments USE: ./greppy 'query' 'filename'"@),
    {
        if args.len() == 0 {
            return Err(
                ConfigError::MissingArgument(
                    "Query not specified USE: ./greppy 'query' 'filename'",
                ),
            );
        }
        if args.len() == 1 {
            return Err(
                ConfigError::MissingArgument(
                    "Filename not specified USE: ./greppy 'query' 'filename'",
                ),
            );
        }
        if args.len() > 2 {
            return Err(
                ConfigError::TooManyArguments(
                    "Too many arguments USE: ./greppy 'query' 'filename'",
                ),
            );
        }
        let query = args[0].clone();
        let filename = args[1].clone();
        Ok(Config { query, filename, case_sensitive: !case_insensitive })
    }
}

} // verus!
