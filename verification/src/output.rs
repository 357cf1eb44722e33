//! Choosing where a resolved field value is sent.  Performing the output
//! (printing, the system clipboard) belongs to the surrounding
//! application; the library only picks and carries the destination.

use vstd::prelude::*;

use crate::strutil::{fold_case, fold_case_exec, str_eq};

verus! {

/// Where a resolved field value is sent.
#[derive(Clone, Copy, Debug, PartialEq, Eq, Structural)]
pub enum OutputType {
    Stdout,
    Clipboard,
}

/// What `OutputType::from_str` accepts: one of the two destination names,
/// compared after a simple case fold.
pub open spec fn spec_output_type(s: Seq<char>) -> Option<OutputType> {
    if fold_case(s) == "stdout"@ {
        Some(OutputType::Stdout)
    } else if fold_case(s) == "clipboard"@ {
        Some(OutputType::Clipboard)
    } else {
        None
    }
}

impl OutputType {
    /// Parse a destination name, ignoring case.
    pub fn from_str(s: &str) -> (r: Option<OutputType>)
        ensures
            r == spec_output_type(s@),
    {
        let folded = fold_case_exec(s);
        if str_eq(folded.as_str(), "stdout") {
            Some(OutputType::Stdout)
        } else if str_eq(folded.as_str(), "clipboard") {
            Some(OutputType::Clipboard)
        } else {
            None
        }
    }
}

/// How output is performed: the destination, and for the clipboard an
/// optional clear timeout in seconds.
pub struct Handler {
    pub output_type: OutputType,
    pub clipboard_timeout: Option<u64>,
}

impl Handler {
    pub fn new(output_type: OutputType, clipboard_timeout: Option<u64>) -> (r: Handler)
        ensures
            r.output_type == output_type,
            r.clipboard_timeout == clipboard_timeout,
    {
        Handler { output_type, clipboard_timeout }
    }
}

/// The view of an optional borrowed string.
pub open spec fn opt_str_view(o: Option<&str>) -> Option<Seq<char>> {
    match o {
        Some(s) => Some(s@),
        None => None,
    }
}

/// The first of the three sources that names a destination.
pub open spec fn spec_pick(o: Option<Seq<char>>) -> Option<OutputType> {
    match o {
        Some(s) => spec_output_type(s),
        None => None,
    }
}

/// Which destination wins: the command-line flag, then the environment
/// override, then the configured default, then standard output.
pub open spec fn spec_resolve_output_type(
    flag: Option<Seq<char>>,
    env: Option<Seq<char>>,
    dflt: Option<Seq<char>>,
) -> OutputType {
    match spec_pick(flag) {
        Some(t) => t,
        None => match spec_pick(env) {
            Some(t) => t,
            None => match spec_pick(dflt) {
                Some(t) => t,
                None => OutputType::Stdout,
            },
        },
    }
}

/// Pick the output destination from the flag, the environment override
/// and the configured default, in that order of precedence.
pub fn resolve_output_type(
    flag_out: Option<&str>,
    env_out: Option<&str>,
    default_out: Option<&str>,
) -> (r: OutputType)
    ensures
        r == spec_resolve_output_type(
            opt_str_view(flag_out),
            opt_str_view(env_out),
            opt_str_view(default_out),
        ),
{
    if let Some(s) = flag_out {
        if let Some(t) = OutputType::from_str(s) {
            return t;
        }
    }
    if let Some(s) = env_out {
        if let Some(t) = OutputType::from_str(s) {
            return t;
        }
    }
    if let Some(s) = default_out {
        if let Some(t) = OutputType::from_str(s) {
            return t;
        }
    }
    OutputType::Stdout
}

} // verus!
