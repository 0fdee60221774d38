//! What a command-line run does, decided from its arguments.
use vstd::prelude::*;

verus! {

/// How the program presents its results.
#[derive(Debug, Clone, Copy, PartialEq, Eq, Structural)]
pub enum Mode {
    Cli,
    Ui,
}

/// The command-line arguments: a mode, and a directory or a configuration
/// file to analyse.
#[derive(Debug)]
pub struct Cli {
    pub mode: Mode,
    pub dir: Option<String>,
    pub cfg: Option<String>,
}

/// What a command-line run does.
#[derive(Debug, PartialEq, Eq)]
pub enum Action {
    /// Print the usage text.
    ShowHelp,
    /// Count the directory with the built-in languages.
    Defaults(String),
    /// Load the configuration file and count as it says.
    Configured(String),
}

impl Cli {
    /// A directory, if given, is counted with the built-in languages;
    /// otherwise a configuration file, if given, decides; with neither, the
    /// usage text is shown.
    pub fn action(&self) -> (r: Action)
        ensures
            match self.dir {
                Some(d) => r == Action::Defaults(d),
                None => match self.cfg {
                    Some(c) => r == Action::Configured(c),
                    None => r == Action::ShowHelp,
                },
            },
    {
        match &self.dir {
            Some(d) => Action::Defaults(d.clone()),
            None => match &self.cfg {
                Some(c) => Action::Configured(c.clone()),
                None => Action::ShowHelp,
            },
        }
    }
}

} // verus!
