//! The error type of the enumerations.
use vstd::prelude::*;

verus! {

/// Why an operation failed.
#[derive(Debug, Clone, PartialEq, Eq)]
pub enum PokerError {
    /// Input validation failed (duplicate cards, invalid masks).
    InvalidInput(String),
    /// More players than allowed.
    TooManyPlayers,
    /// The variant is not supported.
    UnsupportedGameType,
    /// The board does not suit the variant.
    UnsupportedBoardConfiguration,
    /// The cards are not a valid configuration.
    InvalidCardConfiguration(String),
    /// A simulation or enumeration failed.
    ExecutionError(String),
    /// An internal error.
    InternalError(String),
    /// Any other error, with its description.
    Other(String),
}

impl PokerError {
    /// The message describing the error.
    pub fn message(&self) -> (s: String)
        ensures
            s@ == poker_error_text(*self),
    {
        let mut s = String::new();
        match self {
            PokerError::InvalidInput(msg) => {
                crate::text::push_str(&mut s, "Invalid Input: ");
                crate::text::push_str(&mut s, msg.as_str());
            },
            PokerError::TooManyPlayers => crate::text::push_str(&mut s, "Too many players"),
            PokerError::UnsupportedGameType => crate::text::push_str(&mut s, "Unsupported game type"),
            PokerError::UnsupportedBoardConfiguration => crate::text::push_str(&mut s, "Unsupported board configuration"),
            PokerError::InvalidCardConfiguration(msg) => {
                crate::text::push_str(&mut s, "Invalid card configuration: ");
                crate::text::push_str(&mut s, msg.as_str());
            },
            PokerError::ExecutionError(msg) => {
                crate::text::push_str(&mut s, "Execution Error: ");
                crate::text::push_str(&mut s, msg.as_str());
            },
            PokerError::InternalError(msg) => {
                crate::text::push_str(&mut s, "Internal Error: ");
                crate::text::push_str(&mut s, msg.as_str());
            },
            PokerError::Other(msg) => {
                crate::text::push_str(&mut s, "Error: ");
                crate::text::push_str(&mut s, msg.as_str());
            },
        }
        s
    }
}

/// The message of the error `e`.
pub open spec fn poker_error_text(e: PokerError) -> Seq<char> {
    match e {
        PokerError::InvalidInput(msg) => "Invalid Input: "@ + msg@,
        PokerError::TooManyPlayers => "Too many players"@,
        PokerError::UnsupportedGameType => "Unsupported game type"@,
        PokerError::UnsupportedBoardConfiguration => "Unsupported board configuration"@,
        PokerError::InvalidCardConfiguration(msg) => "Invalid card configuration: "@ + msg@,
        PokerError::ExecutionError(msg) => "Execution Error: "@ + msg@,
        PokerError::InternalError(msg) => "Internal Error: "@ + msg@,
        PokerError::Other(msg) => "Error: "@ + msg@,
    }
}

} // verus!
