use vstd::prelude::*;

verus! {

/// Severity of a diagnostic line.
#[derive(Debug, Clone, Copy, PartialEq, Eq, Structural)]
pub enum Level {
    Warning,
    Error,
}

/// The label that heads a diagnostic line of the given severity.
pub open spec fn level_label(level: Level) -> Seq<char> {
    match level {
        Level::Warning => "WARNING"@,
        Level::Error => "ERROR"@,
    }
}

impl Level {
    /// Upper-case label of this severity, without any colouring.
    pub fn label(&self) -> (r: String)
        ensures
            r@ == level_label(*self),
    {
        match self {
            Level::Warning => String::from_str("WARNING"),
            Level::Error => String::from_str("ERROR"),
        }
    }
}

} // verus!
