use vstd::prelude::*;

verus! {

/// What to do when one entry of a directory walk cannot be read.
#[derive(Debug, Clone, Copy, PartialEq, Eq, Structural)]
pub enum ErrorBehavior {
    Ignore,
    Display,
    Stop,
}

/// What a walk does with an entry it could not read.
#[derive(Debug, Clone, Copy, PartialEq, Eq, Structural)]
pub enum ErrorAction {
    /// Leave the entry out and go on.
    Skip,
    /// Show the error, leave the entry out and go on.
    Report,
    /// Give up the whole walk with the error.
    Abort,
}

/// The action that an error policy asks for on an unreadable entry.
pub fn error_action(behavior: ErrorBehavior) -> (r: ErrorAction)
    ensures
        r == match behavior {
            ErrorBehavior::Ignore => ErrorAction::Skip,
            ErrorBehavior::Display => ErrorAction::Report,
            ErrorBehavior::Stop => ErrorAction::Abort,
        },
{
    match behavior {
        ErrorBehavior::Ignore => ErrorAction::Skip,
        ErrorBehavior::Display => ErrorAction::Report,
        ErrorBehavior::Stop => ErrorAction::Abort,
    }
}

} // verus!
