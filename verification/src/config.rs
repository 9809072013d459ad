//! What a run searches for and where, made from the command-line arguments.

use vstd::prelude::*;

verus! {

/// The name of the environment variable that, when it is set, to whatever
/// value, makes the search ignore letter case.
pub const CASE_INSENSITIVE_VARIABLE: &'static str = "CASE_INSENSITIVE";

/// The arguments that a run needs, in the order in which the command line
/// gives them.
#[derive(Debug, Clone, Copy, PartialEq, Eq, Structural)]
pub enum Argument {
    /// The text to look for: the first argument after the program's name.
    Query,
    /// The path of the file to search: the second argument after the
    /// program's name.
    Filename,
}

/// Why no configuration could be made from the arguments.
#[derive(Debug, Clone, Copy, PartialEq, Eq, Structural)]
pub enum ArgumentError {
    /// The command line ends before the argument `which`.
    MissingArgument { which: Argument },
}

impl ArgumentError {
    /// The text that tells the user of the error.
    pub open spec fn message_of(self) -> Seq<char> {
        match self {
            ArgumentError::MissingArgument { which: Argument::Query } => "Query string not present"@,
            ArgumentError::MissingArgument { which: Argument::Filename } => "Filename not present"@,
        }
    }

    /// The text that tells the user of the error.
    pub fn message(&self) -> (text: &'static str)
        ensures
            text@ == self.message_of(),
    {
        match self {
            ArgumentError::MissingArgument { which: Argument::Query } => "Query string not present",
            ArgumentError::MissingArgument { which: Argument::Filename } => "Filename not present",
        }
    }
}

/// What to search for, in which file, and whether letter case counts.
#[derive(Debug, PartialEq, Eq)]
pub struct Config {
    pub query: String,
    pub filename: String,
    pub case_sensitive: bool,
}

impl Config {
    /// Neither the query nor the file's name is empty. `new` takes the
    /// arguments as they come, so this holds of its result exactly when the
    /// caller gave two arguments that are not empty.
    pub open spec fn is_well_formed(&self) -> bool {
        self.query@.len() > 0 && self.filename@.len() > 0
    }

    /// Makes the configuration from the command line `args`, which begins with
    /// the program's name, and from `case_insensitive`, the value of the
    /// environment variable `CASE_INSENSITIVE_VARIABLE` if it is set.
    ///
    /// The query is the first argument after the program's name and the file's
    /// name the second. Arguments after these two are ignored. Where one of
    /// the two is missing the error names the first that is. Letter case
    /// counts unless the variable is set; its value, be it empty, does not
    /// matter.
    pub fn new(args: Vec<String>, case_insensitive: Option<String>) -> (made: Result<
        Config,
        ArgumentError,
    >)
        ensures
            args@.len() < 2 ==> made == Err::<Config, ArgumentError>(
                (ArgumentError::MissingArgument { which: Argument::Query }),
            ),
            args@.len() == 2 ==> made == Err::<Config, ArgumentError>(
                (ArgumentError::MissingArgument { which: Argument::Filename }),
            ),
            args@.len() >= 3 ==> (made matches Ok(config) && {
                &&& config.query@ == args@[1]@
                &&& config.filename@ == args@[2]@
                &&& config.case_sensitive == (case_insensitive is None)
                &&& config.is_well_formed() <==> args@[1]@.len() > 0 && args@[2]@.len() > 0
            }),
    {
        let mut args = args;
        if args.len() < 2 {
            return Err(ArgumentError::MissingArgument { which: Argument::Query });
        }
        if args.len() < 3 {
            return Err(ArgumentError::MissingArgument { which: Argument::Filename });
        }
        let filename = args.remove(2);
        let query = args.remove(1);
        Ok(Config { query, filename, case_sensitive: case_insensitive.is_none() })
    }
}

} // verus!
