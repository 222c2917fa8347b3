//! The configuration resolver: validates the positional arguments and the
//! case-sensitivity toggle into an immutable `Config` value.

use vstd::prelude::*;
use vstd::string::StringExecFns;

verus! {

/// The resolved run parameters: the query to search for, the name of the
/// file to search in, and whether the search is case-sensitive. The query
/// and filename are verbatim copies of the second and third positional
/// arguments.
#[derive(Debug)]
pub struct Config {
    pub query: String,
    pub filename: String,
    pub case_sensitive: bool,
}

/// The only way configuration resolution can fail: fewer positional
/// arguments than the required query and filename.
#[derive(PartialEq, Eq, Structural, Clone, Copy, Debug)]
pub enum ConfigError {
    NotEnoughArguments,
}

impl ConfigError {
    /// A human-readable description of the error.
    pub fn message(&self) -> (text: String)
        ensures
            text@ == "Not enough arguments"@,
    {
        String::from_str("Not enough arguments")
    }
}

impl Config {
    /// Resolves a configuration from the argument list and the presence of
    /// the case-insensitivity environment toggle. The first argument slot is
    /// the program's own invocation name and is ignored; the next two are
    /// taken verbatim as query and filename. Fails if and only if fewer than
    /// three argument slots are given. The search is case-sensitive exactly
    /// when the toggle is absent; the toggle's value never matters.
    pub fn new(args: &Vec<String>, case_insensitive_set: bool) -> (resolved: Result<
        Config,
        ConfigError,
    >)
        ensures
            args@.len() < 3 ==> resolved == Result::<Config, ConfigError>::Err(
                ConfigError::NotEnoughArguments,
            ),
            args@.len() >= 3 ==> match resolved {
                Ok(config) => {
                    &&& config.query@ == args@[1]@
                    &&& config.filename@ == args@[2]@
                    &&& config.case_sensitive == !case_insensitive_set
                },
                Err(_) => false,
            },
    {
        if args.len() < 3 {
            return Err(ConfigError::NotEnoughArguments);
        }
        let query = args[1].clone();
        let filename = args[2].clone();
        Ok(Config { query, filename, case_sensitive: !case_insensitive_set })
    }
}

} // verus!
