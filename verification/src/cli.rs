//! The command-line surface, as plain data. Argument parsing itself lives
//! outside the library; a parser converts what it accepts into this form.

use vstd::prelude::*;

verus! {

/// The options the tool runs under: the directory to scan, optional
/// instructions for the document, whether to generate XML, whether to show
/// per-file token counts, an optional output file, and the debug level.
pub struct Cli {
    pub directory: String,
    pub instructions: Option<String>,
    pub xml: bool,
    pub per_file: bool,
    pub output: Option<String>,
    pub debug: u8,
}

} // verus!
