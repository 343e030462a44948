//! Games, their parameters, and kinds of enumeration.
use vstd::prelude::*;
pub use crate::enumerate::result::EnumResult;

verus! {

/// The maximum number of players of an enumeration.
pub const ENUM_MAXPLAYERS: usize = 12;

/// The poker variants.
#[derive(Debug, Clone, Copy, PartialEq, Eq, Structural, Hash)]
pub enum Game {
    Holdem,
    Holdem8,
    Omaha,
    Omaha5,
    Omaha6,
    Omaha8,
    Omaha85,
    Stud7,
    Stud78,
    Stud7nsq,
    Razz,
    Draw5,
    Draw58,
    Draw5nsq,
    Lowball,
    Lowball27,
    ShortDeck,
    NumGames,
}

/// The parameters of a variant.
pub struct GameParams {
    /// The variant.
    pub game: Game,
    /// Minimum number of hole cards.
    pub minpocket: i32,
    /// Maximum number of hole cards.
    pub maxpocket: i32,
    /// Maximum number of board cards.
    pub maxboard: i32,
    /// 1 when the variant has a low pot.
    pub haslopot: i32,
    /// 1 when the variant has a high pot.
    pub hashipot: i32,
    /// The name of the variant.
    pub name: &'static str,
}

/// How an enumeration visits the possible deals.
#[derive(Debug, Clone, Copy, PartialEq, Eq, Structural, Hash)]
pub enum SampleType {
    /// Every possible deal.
    Exhaustive,
    /// Random deals.
    Sample,
    /// Deals from a low-discrepancy sequence.
    QuasiMonteCarlo,
}

} // verus!
