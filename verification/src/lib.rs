use vstd::prelude::*;

pub mod args;
pub mod blueprint;
pub mod overrides;
pub mod render;
pub mod resolver;
pub mod transaction;
pub mod strutil;
pub mod vartree;

verus! {

/// Errors of the generate pipeline.
#[derive(Debug)]
pub enum Error {
    /// A command was used that needs the experimental privilege.
    ExperimentalCommand(String),
    /// A malformed argument, such as an override entry without `=`.
    Argument(String),
    /// No known subcommand was given.
    UnknownCommand,
    /// A template failed to render: an undefined variable or helper in
    /// strict mode, a template syntax error, or a failing helper command.
    Render(String),
}

impl Error {
    /// A human-readable description of the error.
    pub fn message(&self) -> (r: String)
        ensures
            self matches Error::ExperimentalCommand(s) ==> r@ == s@,
            self matches Error::Argument(s) ==> r@ == s@,
            self matches Error::Render(s) ==> r@ == s@,
            self is UnknownCommand ==> r@ == "unknown command"@,
    {
        match self {
            Error::ExperimentalCommand(s) => s.clone(),
            Error::Argument(s) => s.clone(),
            Error::UnknownCommand => String::from_str("unknown command"),
            Error::Render(s) => s.clone(),
        }
    }
}

} // verus!
