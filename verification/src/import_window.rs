//! What the Import window says after an import runs.
//!
//! An import always says what it did: one that failed says so with the
//! error, one that did nothing says it did nothing, and one that succeeded
//! lists what it added, skipped and could not read. No combination of
//! inputs gives an empty summary, which is what once left a successful
//! import looking identical to a broken one.

use vstd::prelude::*;

verus! {

/// The summary of one import, and whether it failed.
#[derive(Debug, Clone, PartialEq, Eq)]
pub struct ImportOutcome {
    pub lines: Vec<String>,
    /// Drawn in the error colour and kept on screen rather than read as an
    /// ordinary summary.
    pub failed: bool,
}

/// What to show for an import. `result` is the failure, already put in
/// words, or the lines the import's result gives once what the scan could
/// not read is folded in; `nothing_to_do` is the line that says the import
/// did nothing.
pub fn summarise(result: Result<Vec<String>, String>, nothing_to_do: String) -> (r: ImportOutcome)
    ensures
        match result {
            Err(line) => r.failed && r.lines@ == seq![line],
            Ok(lines) => !r.failed && r.lines@ == if lines@.len() == 0 {
                seq![nothing_to_do]
            } else {
                lines@
            },
        },
        r.lines@.len() > 0,
{
    match result {
        Err(line) => ImportOutcome { lines: vec![line], failed: true },
        Ok(lines) => {
            let lines = if lines.len() == 0 {
                vec![nothing_to_do]
            } else {
                lines
            };
            ImportOutcome { lines, failed: false }
        },
    }
}

} // verus!
