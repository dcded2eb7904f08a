//! The command line: which mode a run is in. A file runs that script; a
//! project runs the entry point of the project found from a directory; an
//! expression runs that text; with none of them the REPL starts. The
//! remaining arguments are handed to the script.

use vstd::prelude::*;

verus! {

/// The options of the command line.
#[derive(Debug, Clone)]
pub struct Cli {
    /// File to run.
    pub file: Option<String>,
    /// Project to run (a directory).
    pub project: Option<String>,
    /// Raw expression to run.
    pub expr: Option<String>,
    /// Script arguments.
    pub args: Vec<String>,
}

/// What a run does.
#[derive(Debug, Clone)]
pub enum Mode {
    File(String),
    Project { path: String, entrypoint: Option<String> },
    Expr(String),
    Repl,
}

impl Cli {
    /// The mode of the run, and the script arguments. A file wins over a
    /// project, a project over an expression.
    pub fn resolve_mode(self) -> (r: (Mode, Vec<String>))
        ensures
            r.1@ == self.args@,
            match self.file {
                Some(f) => r.0 matches Mode::File(g) && g@ == f@,
                None => match self.project {
                    Some(p) => r.0 matches Mode::Project { path, entrypoint } && path@ == p@
                        && entrypoint is None,
                    None => match self.expr {
                        Some(e) => r.0 matches Mode::Expr(c) && c@ == e@,
                        None => r.0 is Repl,
                    },
                },
            },
    {
        let mode = if let Some(path) = self.file {
            Mode::File(path)
        } else if let Some(path) = self.project {
            Mode::Project { path, entrypoint: None }
        } else if let Some(code) = self.expr {
            Mode::Expr(code)
        } else {
            Mode::Repl
        };
        (mode, self.args)
    }
}

} // verus!
