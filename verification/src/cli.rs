//! The command line: what the user asks for.

use vstd::prelude::*;

verus! {

/// A shell whose startup file can load the secrets.
#[derive(Clone, Copy, Debug, PartialEq, Eq, Structural)]
pub enum Shell {
    Bash,
    Zsh,
    Fish,
}

/// What the user asks for.
#[derive(Debug)]
pub enum Command {
    /// Create the config file and offer to hook into the shell's rc file.
    Init,
    /// Add or update a secret (prompts for the value, hidden input).
    Add { name: String },
    /// Remove a secret from the keyring and the config.
    Remove { name: String },
    /// List configured secrets and whether they are present in the keyring.
    List,
    /// Print shell code that exports configured secrets as env vars.
    Hook { shell: Shell },
}

/// A parsed command line.
#[derive(Debug)]
pub struct Cli {
    pub command: Command,
}

} // verus!
