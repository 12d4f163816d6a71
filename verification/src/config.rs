//! What the command line asks for.

use vstd::prelude::*;
use vstd::string::*;

verus! {

/// Whether one transcript is to be split or every transcript of a directory.
#[derive(Clone, Copy, Debug, PartialEq, Eq, Structural)]
pub enum Operation {
    SingleFile,
    Directory,
}

/// The path to work on and what to do with it.
pub struct Config {
    path: String,
    pub operation: Operation,
}

/// A configuration as a plain value.
pub struct ConfigView {
    pub path: Seq<char>,
    pub operation: Operation,
}

impl View for Config {
    type V = ConfigView;

    closed spec fn view(&self) -> ConfigView {
        ConfigView { path: self.path@, operation: self.operation }
    }
}

/// The message for a command line without an argument.
pub open spec fn usage(program: Seq<char>) -> Seq<char> {
    "Usage: "@ + program + " chat.html"@
}

impl Config {
    /// A configuration for the resolved path `path`; `is_directory` says
    /// whether the path names a directory.
    pub fn new(path: String, is_directory: bool) -> (config: Config)
        ensures
            config@.path == path@,
            config@.operation == if is_directory {
                Operation::Directory
            } else {
                Operation::SingleFile
            },
    {
        let operation = if is_directory {
            Operation::Directory
        } else {
            Operation::SingleFile
        };
        Config { path, operation }
    }

    /// The path to work on.
    pub fn path(&self) -> (path: &str)
        ensures
            path@ == self@.path,
    {
        self.path.as_str()
    }

    /// What to do with the path.
    pub fn operation(&self) -> (operation: Operation)
        ensures
            operation == self@.operation,
    {
        self.operation
    }
}

/// Picks the path out of the command line `args`, which begins with the
/// name of the program: the argument behind that name, or the usage message
/// where there is none.
pub fn input_argument(args: &Vec<String>) -> (r: Result<String, String>)
    requires
        args@.len() >= 1,
    ensures
        match r {
            Ok(path) => args@.len() >= 2 && path@ == args@[1]@,
            Err(message) => args@.len() < 2 && message@ == usage(args@[0]@),
        },
{
    if args.len() < 2 {
        let message = String::from_str("Usage: ").concat(args[0].as_str()).concat(" chat.html");
        return Err(message);
    }
    Ok(args[1].clone())
}

} // verus!
