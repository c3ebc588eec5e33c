//! The command options: which mode runs, on which input and output,
//! and with which settings.

use vstd::prelude::*;

verus! {

/// The parsed command options. `None` for an input or output means
/// the standard stream.
pub enum CmdOpts {
    /// Generate mask statistics; masks go to the output, distribution
    /// summaries to the diagnostic stream.
    Statsgen {
        /// Input path, standard input when absent.
        input: Option<String>,
        /// Output path, standard output when absent.
        output: Option<String>,
        /// Field separator of the mask report; tab when absent.
        separator: Option<char>,
        /// Smallest accepted logical length, inclusive.
        min_length: u16,
        /// Largest accepted logical length, inclusive.
        max_length: u16,
    },
    /// Decode `$HEX[...]`-wrapped lines.
    Unhex {
        /// Input path, standard input when absent.
        input: Option<String>,
        /// Output path, standard output when absent.
        output: Option<String>,
    },
    /// Filter lines by a mask.
    Filtermask {
        /// The mask to filter by.
        mask: String,
        /// Input path, standard input when absent.
        input: Option<String>,
        /// Output path, standard output when absent.
        output: Option<String>,
    },
    /// Split lines on charset boundaries.
    Cgrams {
        /// Input path, standard input when absent.
        input: Option<String>,
        /// Output path, standard output when absent.
        output: Option<String>,
        /// Sort the c-grams by frequency instead of streaming them.
        sort: bool,
    },
}

/// The separator the mask report uses: the configured one, or a tab.
pub fn resolve_separator(separator: Option<char>) -> (r: char)
    ensures
        r == match separator {
            Some(c) => c,
            None => '\t',
        },
{
    match separator {
        Some(c) => c,
        None => '\t',
    }
}

} // verus!
