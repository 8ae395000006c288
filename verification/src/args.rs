use vstd::prelude::*;

use crate::Error;

verus! {

/// The privilege level a caller runs with.
pub enum Privilege {
    Normal,
    Experimental,
}

/// The output format of the rendered manual.
pub enum ManualFormat {
    Manpages,
    Markdown,
}

/// A shell for which completion scripts can be rendered.
pub enum ShellKind {
    Bash,
    Zsh,
    Fish,
    Elvish,
    Powershell,
}

/// A generate invocation: from a local folder, or from a freshly fetched
/// git repository snapshot. Variable overrides are ordered (key, value)
/// pairs, file-sourced entries first, flag entries after, so flags win.
pub enum GenerateCommand {
    Local {
        out: String,
        folder: String,
        vars: Vec<(String, String)>,
        interactive: bool,
        force: bool,
    },
    Git {
        out: String,
        repo: String,
        branch: String,
        folder: String,
        vars: Vec<(String, String)>,
        interactive: bool,
        force: bool,
    },
}

/// A parsed top-level command.
pub enum Command {
    Manual { path: String, format: ManualFormat },
    Autocomplete { path: String, shell: ShellKind },
    Generate(GenerateCommand),
}

/// A parsed invocation: the privilege level and the command to run.
pub struct CallArgs {
    pub privileges: Privilege,
    pub command: Command,
}

impl CallArgs {
    /// Checks that the command is allowed under the given privileges; every
    /// current command is allowed at every level.
    pub fn validate(&self) -> (r: Result<(), Error>)
        ensures
            r is Ok,
    {
        match self.privileges {
            Privilege::Experimental => Ok(()),
            Privilege::Normal => Ok(()),
        }
    }
}

} // verus!
