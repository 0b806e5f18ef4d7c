//! Flash messages shown to the user after an action. The surrounding
//! application serializes them into a short-lived cookie.

use vstd::prelude::*;

verus! {

#[derive(Debug, Clone, Copy, PartialEq, Eq, Structural)]
pub enum FlashMessageLevel {
    Info,
    Error,
}

/// A one-shot message with a severity level.
#[derive(Debug)]
pub struct FlashMessage {
    pub level: FlashMessageLevel,
    pub message: String,
}

impl FlashMessage {
    pub fn new(level: FlashMessageLevel, message: &str) -> (r: FlashMessage)
        ensures
            r.level == level,
            r.message@ == message@,
    {
        FlashMessage { level, message: message.to_owned() }
    }

    /// An informational message.
    pub fn info(message: &str) -> (r: FlashMessage)
        ensures
            r.level == FlashMessageLevel::Info,
            r.message@ == message@,
    {
        FlashMessage::new(FlashMessageLevel::Info, message)
    }

    /// An error message.
    pub fn error(message: &str) -> (r: FlashMessage)
        ensures
            r.level == FlashMessageLevel::Error,
            r.message@ == message@,
    {
        FlashMessage::new(FlashMessageLevel::Error, message)
    }
}

} // verus!
