//! How JSON output is laid out.

use vstd::prelude::*;

verus! {

/// Compact (the default) or pretty-printed JSON.
#[derive(Clone, Copy, Debug, PartialEq, Eq, Structural)]
pub enum JsonStyle {
    Compact,
    Pretty,
}

impl JsonStyle {
    /// `Pretty` when `pretty` is set, else `Compact`.
    pub fn from_pretty(pretty: bool) -> (s: JsonStyle)
        ensures
            s == if pretty { JsonStyle::Pretty } else { JsonStyle::Compact },
    {
        if pretty {
            JsonStyle::Pretty
        } else {
            JsonStyle::Compact
        }
    }
}

} // verus!
