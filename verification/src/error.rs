//! Why a transcript cannot be split.

use vstd::prelude::*;

verus! {

/// A transcript that lacks a marker, or holds one where no page can end.
#[derive(Clone, Copy, Debug, PartialEq, Eq, Structural)]
pub enum SplitError {
    /// The marker that opens the log is nowhere in the transcript.
    MissingChatLog,
    /// No message group follows the opening of the log.
    MissingMessageGroup,
    /// No closing boilerplate follows the last message group.
    MissingPostamble,
    /// The closing boilerplate begins at index 1, so the final boundary,
    /// two bytes before it, would lie in front of the transcript.
    PostambleTooEarly,
}

} // verus!
