//! Naming the external tools this process runs: which `git`, and the
//! search path its helpers see.
//!
//! A GUI app launched from the Finder inherits a bare system `PATH`, so a
//! `git` installed elsewhere is located before the app starts and handed
//! to the git runner with the merged search path.

use vstd::prelude::*;

verus! {

/// The bare name of the `git` program, which the spawn looks up itself.
pub const GIT_PROGRAM: &'static str = "git";

/// How the git runner starts `git`: the program, and the search path its
/// environment carries.
#[derive(Debug, Clone, PartialEq, Eq)]
pub struct GitProgram {
    pub program: String,
    pub search_path: Option<String>,
}

/// The `git` to configure: the located one, or the bare name when none was
/// located (the app still starts, and the spawn's own lookup is what it
/// always used), with the merged `search_path` carried either way.
pub fn git_program(resolved: Option<String>, search_path: String) -> (r: GitProgram)
    ensures
        r.program@ == match resolved {
            Some(path) => path@,
            None => GIT_PROGRAM@,
        },
        r.search_path == Some(search_path),
{
    let program = match resolved {
        Some(path) => path,
        None => GIT_PROGRAM.to_string(),
    };
    GitProgram { program, search_path: Some(search_path) }
}

} // verus!
