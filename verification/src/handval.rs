//! Hand values: a hand type and up to five ranks packed into one `u32`, so that
//! a greater value is a stronger high hand (and a smaller one a better low hand).
use vstd::prelude::*;

verus! {

/// Bit position of the hand type inside a hand value.
pub const HANDTYPE_SHIFT: u32 = 24;
/// Mask of the hand type bits inside a hand value.
pub const HANDTYPE_MASK: u32 = 0x0F00_0000;
/// Width in bits of one card rank inside a hand value.
pub const CARD_WIDTH: u32 = 4;
/// Mask of one card rank, once shifted down.
pub const CARD_MASK: u32 = 0x0F;
pub const TOP_CARD_SHIFT: u32 = 16;
pub const SECOND_CARD_SHIFT: u32 = 12;
pub const THIRD_CARD_SHIFT: u32 = 8;
pub const FOURTH_CARD_SHIFT: u32 = 4;
pub const FIFTH_CARD_SHIFT: u32 = 0;
pub const TOP_CARD_MASK: u32 = 0x000F_0000;
pub const SECOND_CARD_MASK: u32 = 0x0000_F000;
pub const THIRD_CARD_MASK: u32 = 0x0000_0F00;
pub const FOURTH_CARD_MASK: u32 = 0x0000_00F0;
pub const FIFTH_CARD_MASK: u32 = 0x0000_000F;

/// The value of a low hand that does not qualify.
pub const LOW_HAND_VAL_NOTHING: u32 = 0x0900_0000;
/// The value of the worst qualifying eight-or-better low hand (8-7-6-5-4).
pub const LOW_HAND_VAL_WORST_EIGHT: u32 = 0x0007_6543;

/// Categories of standard poker hands, weakest first.
#[derive(Clone, Copy, Debug, PartialEq, Eq, Structural, Hash)]
pub enum HandType {
    NoPair,
    OnePair,
    TwoPair,
    Trips,
    Straight,
    Flush,
    FullHouse,
    Quads,
    StFlush,
}

/// The number of a hand type, from 0 (no pair) to 8 (straight flush).
pub open spec fn hand_type_number(t: HandType) -> nat {
    match t {
        HandType::NoPair => 0,
        HandType::OnePair => 1,
        HandType::TwoPair => 2,
        HandType::Trips => 3,
        HandType::Straight => 4,
        HandType::Flush => 5,
        HandType::FullHouse => 6,
        HandType::Quads => 7,
        HandType::StFlush => 8,
    }
}

impl HandType {
    /// The number of this hand type (0 for no pair, 8 for a straight flush).
    pub fn as_usize(self) -> (n: usize)
        ensures
            n == hand_type_number(self),
    {
        match self {
            HandType::NoPair => 0,
            HandType::OnePair => 1,
            HandType::TwoPair => 2,
            HandType::Trips => 3,
            HandType::Straight => 4,
            HandType::Flush => 5,
            HandType::FullHouse => 6,
            HandType::Quads => 7,
            HandType::StFlush => 8,
        }
    }

    /// The hand type of a given number, `None` past 8.
    pub fn from_usize(n: usize) -> (t: Option<HandType>)
        ensures
            n <= 8 <==> t is Some,
            t matches Some(ht) ==> hand_type_number(ht) == n,
    {
        match n {
            0 => Some(HandType::NoPair),
            1 => Some(HandType::OnePair),
            2 => Some(HandType::TwoPair),
            3 => Some(HandType::Trips),
            4 => Some(HandType::Straight),
            5 => Some(HandType::Flush),
            6 => Some(HandType::FullHouse),
            7 => Some(HandType::Quads),
            8 => Some(HandType::StFlush),
            _ => None,
        }
    }
}

/// Packs a hand type and five ranks into one value.
pub open spec fn pack(ht: int, top: int, second: int, third: int, fourth: int, fifth: int) -> int {
    ht * 0x0100_0000 + top * 0x1_0000 + second * 0x1000 + third * 0x100 + fourth * 0x10 + fifth
}

/// The first rank field of a packed value.
pub open spec fn top_field(v: int) -> int {
    v / 0x1_0000 % 16
}

/// The second rank field of a packed value.
pub open spec fn second_field(v: int) -> int {
    v / 0x1000 % 16
}

/// The third rank field of a packed value.
pub open spec fn third_field(v: int) -> int {
    v / 0x100 % 16
}

/// The fourth rank field of a packed value.
pub open spec fn fourth_field(v: int) -> int {
    v / 0x10 % 16
}

/// The fifth rank field of a packed value.
pub open spec fn fifth_field(v: int) -> int {
    v % 16
}

/// Each field of a packed value reads back what was packed there.
pub proof fn lemma_pack_fields(ht: int, a: int, b: int, c: int, d: int, e: int)
    requires
        0 <= ht < 16,
        0 <= a < 16,
        0 <= b < 16,
        0 <= c < 16,
        0 <= d < 16,
        0 <= e < 16,
    ensures
        pack(ht, a, b, c, d, e) / 0x0100_0000 == ht,
        top_field(pack(ht, a, b, c, d, e)) == a,
        second_field(pack(ht, a, b, c, d, e)) == b,
        third_field(pack(ht, a, b, c, d, e)) == c,
        fourth_field(pack(ht, a, b, c, d, e)) == d,
        fifth_field(pack(ht, a, b, c, d, e)) == e,
{
    let v = pack(ht, a, b, c, d, e);
    assert(v / 0x0100_0000 == ht) by (nonlinear_arith)
        requires
            v == ht * 0x0100_0000 + a * 0x1_0000 + b * 0x1000 + c * 0x100 + d * 0x10 + e,
            0 <= a < 16, 0 <= b < 16, 0 <= c < 16, 0 <= d < 16, 0 <= e < 16,
    ;
    assert(v / 0x1_0000 == ht * 0x100 + a) by (nonlinear_arith)
        requires
            v == ht * 0x0100_0000 + a * 0x1_0000 + b * 0x1000 + c * 0x100 + d * 0x10 + e,
            0 <= b < 16, 0 <= c < 16, 0 <= d < 16, 0 <= e < 16,
    ;
    assert(v / 0x1000 == ht * 0x1000 + a * 0x10 + b) by (nonlinear_arith)
        requires
            v == ht * 0x0100_0000 + a * 0x1_0000 + b * 0x1000 + c * 0x100 + d * 0x10 + e,
            0 <= c < 16, 0 <= d < 16, 0 <= e < 16,
    ;
    assert(v / 0x100 == ht * 0x1_0000 + a * 0x100 + b * 0x10 + c) by (nonlinear_arith)
        requires
            v == ht * 0x0100_0000 + a * 0x1_0000 + b * 0x1000 + c * 0x100 + d * 0x10 + e,
            0 <= d < 16, 0 <= e < 16,
    ;
    assert(v / 0x10 == ht * 0x10_0000 + a * 0x1000 + b * 0x100 + c * 0x10 + d) by (nonlinear_arith)
        requires
            v == ht * 0x0100_0000 + a * 0x1_0000 + b * 0x1000 + c * 0x100 + d * 0x10 + e,
            0 <= e < 16,
    ;
    assert((ht * 0x100 + a) % 16 == a) by (nonlinear_arith)
        requires
            0 <= a < 16,
    ;
    assert((ht * 0x1000 + a * 0x10 + b) % 16 == b) by (nonlinear_arith)
        requires
            0 <= b < 16,
    ;
    assert((ht * 0x1_0000 + a * 0x100 + b * 0x10 + c) % 16 == c) by (nonlinear_arith)
        requires
            0 <= c < 16,
    ;
    assert((ht * 0x10_0000 + a * 0x1000 + b * 0x100 + c * 0x10 + d) % 16 == d) by (nonlinear_arith)
        requires
            0 <= d < 16,
    ;
    assert(v % 16 == e) by (nonlinear_arith)
        requires
            v == ht * 0x0100_0000 + a * 0x1_0000 + b * 0x1000 + c * 0x100 + d * 0x10 + e,
            0 <= e < 16,
    ;
}

/// A high-hand value: greater is stronger.
#[derive(Clone, Copy, Debug, PartialEq, Eq, Structural, PartialOrd, Ord, Hash)]
pub struct HandVal {
    pub value: u32,
}

impl HandVal {
    /// Builds the value of a hand of type `ht` with the given ranks, highest
    /// significance first.
    pub fn new(ht: u8, top: u8, second: u8, third: u8, fourth: u8, fifth: u8) -> (h: HandVal)
        requires
            ht < 16,
            top < 16,
            second < 16,
            third < 16,
            fourth < 16,
            fifth < 16,
        ensures
            h.value == pack(ht as int, top as int, second as int, third as int, fourth as int, fifth as int),
    {
        HandVal {
            value: (ht as u32) * 0x0100_0000 + (top as u32) * 0x1_0000 + (second as u32) * 0x1000
                + (third as u32) * 0x100 + (fourth as u32) * 0x10 + (fifth as u32),
        }
    }

    /// The hand type of this value.
    pub fn hand_type(&self) -> (t: u32)
        ensures
            t == self.value / 0x0100_0000,
    {
        self.value / 0x0100_0000
    }
}

/// A low-hand value: smaller is better.
#[derive(Clone, Copy, Debug, PartialEq, Eq, Structural, PartialOrd, Ord, Hash)]
pub struct LowHandVal {
    pub value: u32,
}

/// Moves the ace (bit 12) of a rank mask down to bit 0 and every other rank up one.
pub open spec fn rotate_ranks_spec(ranks: u32) -> u32 {
    ((ranks & !(1u32 << 12u32)) << 1u32) | ((ranks >> 12u32) & 1u32)
}

impl LowHandVal {
    /// Builds the value of a low hand of type `ht` with the given ranks.
    pub fn new(ht: u8, top: u8, second: u8, third: u8, fourth: u8, fifth: u8) -> (h: LowHandVal)
        requires
            ht < 16,
            top < 16,
            second < 16,
            third < 16,
            fourth < 16,
            fifth < 16,
        ensures
            h.value == pack(ht as int, top as int, second as int, third as int, fourth as int, fifth as int),
    {
        LowHandVal {
            value: (ht as u32) * 0x0100_0000 + (top as u32) * 0x1_0000 + (second as u32) * 0x1000
                + (third as u32) * 0x100 + (fourth as u32) * 0x10 + (fifth as u32),
        }
    }

    /// Rotates a rank mask so that the ace ranks lowest (see `rotate_ranks_spec`).
    pub fn rotate_ranks(ranks: u32) -> (r: u32)
        ensures
            r == rotate_ranks_spec(ranks),
    {
        ((ranks & !(1u32 << 12u32)) << 1u32) | ((ranks >> 12u32) & 1u32)
    }
}

} // verus!
