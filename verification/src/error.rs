use vstd::prelude::*;

verus! {

/// A library error, produced while parsing a crontab schedule.
#[derive(Clone, Debug)]
pub enum CrontabError {
    /// The schedule violates the cron grammar: wrong field count, a value out
    /// of range, or a list that is not strictly ascending. Carries the
    /// offending text.
    ErrCronFormat(String),
    /// A field token that should be a base-10 unsigned integer is not one.
    /// Carries the offending token.
    ErrParseInt(String),
}

impl CrontabError {
    /// True for the format-error variant; used by callers that only need the
    /// error's kind.
    pub fn is_format_error(&self) -> (r: bool)
        ensures
            r == (self is ErrCronFormat),
    {
        match self {
            CrontabError::ErrCronFormat(_) => true,
            CrontabError::ErrParseInt(_) => false,
        }
    }
}

} // verus!
