//! Enumeration of deals: card masks seen as sets, the parameters of each variant.
use vstd::prelude::*;
use crate::enumdefs::{Game, GameParams};
use crate::tables::{JokerDeckCardMask, StdDeckCardMask, cards_of, joker_cards_below};
use crate::deck::std_deck::cards_text;
use crate::deck::joker::joker_cards_text;
use crate::text::{push_char, push_str};

pub mod card_enum;
pub mod card_enum_dead;
pub mod evaluation;
pub mod inner_loops;
pub mod qmc;
pub mod montecarlo;
pub mod result;
pub mod sampling;
pub mod independent;
pub mod independent_joker;

verus! {

/// Card masks seen as sets of bits, for the enumerations.
pub trait CardMask: Sized + Copy {
    /// The bits of the mask.
    spec fn bits(&self) -> u64;

    /// The raw bits of the mask.
    fn mask(&self) -> (m: u64)
        ensures
            m == self.bits(),
    ;

    /// Tells whether the two masks share a card.
    fn overlaps(&self, other: &Self) -> (b: bool)
        ensures
            b == (self.bits() & other.bits() != 0),
    ;

    /// A debugging description of the mask.
    fn to_debug_string(&self) -> String;

    /// The names of the cards of the mask.
    fn to_string_representation(&self) -> String;
}

/// The bit `i` (counted from the top, `i` in 0..64) of `x` as a binary digit.
pub open spec fn binary_digit(x: u64, i: int) -> char {
    if (x >> ((63 - i) as u64)) & 1 == 1 {
        '1'
    } else {
        '0'
    }
}

/// `x` in binary, as `{:#066b}` prints it: "0b" then the 64 bits, highest first.
pub open spec fn binary_text(x: u64) -> Seq<char> {
    seq!['0', 'b'] + Seq::new(64, |i: int| binary_digit(x, i))
}

/// Writes `x` in binary (see `binary_text`).
pub fn binary_string(x: u64) -> (s: String)
    ensures
        s@ == binary_text(x),
{
    let mut s = String::new();
    push_char(&mut s, '0');
    push_char(&mut s, 'b');
    let mut i: u64 = 0;
    while i < 64
        invariant
            i <= 64,
            s@ == seq!['0', 'b'] + Seq::new(i as nat, |j: int| binary_digit(x, j)),
        decreases 64 - i,
    {
        let c = if (x >> (63 - i)) & 1 == 1 {
            '1'
        } else {
            '0'
        };
        push_char(&mut s, c);
        i = i + 1;
        proof {
            assert(s@ =~= seq!['0', 'b'] + Seq::new(i as nat, |j: int| binary_digit(x, j)));
        }
    }
    s
}

impl CardMask for StdDeckCardMask {
    open spec fn bits(&self) -> u64 {
        self.mask
    }

    fn mask(&self) -> (m: u64) {
        self.as_raw()
    }

    fn overlaps(&self, other: &Self) -> (b: bool) {
        (self.as_raw() & other.as_raw()) != 0
    }

    fn to_debug_string(&self) -> (s: String)
        ensures
            s@ == "StdDeckCardMask: mask="@ + binary_text(self.mask),
    {
        let mut s = String::new();
        push_str(&mut s, "StdDeckCardMask: mask=");
        let b = binary_string(self.as_raw());
        push_str(&mut s, b.as_str());
        s
    }

    fn to_string_representation(&self) -> (s: String)
        ensures
            s@ == cards_text(cards_of(self.mask)),
    {
        self.mask_to_string()
    }
}

impl CardMask for JokerDeckCardMask {
    open spec fn bits(&self) -> u64 {
        self.cards_n
    }

    fn mask(&self) -> (m: u64) {
        self.cards_n
    }

    fn overlaps(&self, other: &Self) -> (b: bool) {
        (self.cards_n & other.cards_n) != 0
    }

    fn to_debug_string(&self) -> (s: String)
        ensures
            s@ == "JokerDeckCardMask: cards_n="@ + binary_text(self.cards_n),
    {
        let mut s = String::new();
        push_str(&mut s, "JokerDeckCardMask: cards_n=");
        let b = binary_string(self.cards_n);
        push_str(&mut s, b.as_str());
        s
    }

    fn to_string_representation(&self) -> (s: String)
        ensures
            s@ == joker_cards_text(joker_cards_below(self.cards_n, 53)),
    {
        self.mask_to_string()
    }
}

impl core::ops::BitOr for StdDeckCardMask {
    type Output = Self;

    fn bitor(self, rhs: Self) -> (r: Self) {
        StdDeckCardMask::from_raw(self.as_raw() | rhs.as_raw())
    }
}

impl vstd::std_specs::ops::BitOrSpecImpl for StdDeckCardMask {
    open spec fn obeys_bitor_spec() -> bool {
        true
    }

    open spec fn bitor_req(self, rhs: Self) -> bool {
        true
    }

    open spec fn bitor_spec(self, rhs: Self) -> Self {
        StdDeckCardMask { mask: self.mask | rhs.mask }
    }
}

impl core::ops::BitOr for JokerDeckCardMask {
    type Output = Self;

    fn bitor(self, rhs: Self) -> (r: Self) {
        JokerDeckCardMask { cards_n: self.cards_n | rhs.cards_n }
    }
}

impl vstd::std_specs::ops::BitOrSpecImpl for JokerDeckCardMask {
    open spec fn obeys_bitor_spec() -> bool {
        true
    }

    open spec fn bitor_req(self, rhs: Self) -> bool {
        true
    }

    open spec fn bitor_spec(self, rhs: Self) -> Self {
        JokerDeckCardMask { cards_n: self.cards_n | rhs.cards_n }
    }
}

/// The parameters of variant `g` (`None` for the variants without any).
pub open spec fn params_of(g: Game) -> Option<GameParams> {
    match g {
        Game::Holdem => Some(
            GameParams {
                game: Game::Holdem,
                minpocket: 2,
                maxpocket: 2,
                maxboard: 5,
                haslopot: 0,
                hashipot: 1,
                name: "Holdem Hi",
            },
        ),
        Game::Holdem8 => Some(
            GameParams {
                game: Game::Holdem8,
                minpocket: 2,
                maxpocket: 2,
                maxboard: 5,
                haslopot: 1,
                hashipot: 1,
                name: "Holdem Hi/Low 8-or-better",
            },
        ),
        Game::Omaha => Some(
            GameParams {
                game: Game::Omaha,
                minpocket: 4,
                maxpocket: 4,
                maxboard: 5,
                haslopot: 0,
                hashipot: 1,
                name: "Omaha Hi",
            },
        ),
        Game::Omaha5 => Some(
            GameParams {
                game: Game::Omaha5,
                minpocket: 5,
                maxpocket: 5,
                maxboard: 5,
                haslopot: 0,
                hashipot: 1,
                name: "Omaha 5cards Hi",
            },
        ),
        Game::Omaha6 => Some(
            GameParams {
                game: Game::Omaha6,
                minpocket: 6,
                maxpocket: 6,
                maxboard: 5,
                haslopot: 0,
                hashipot: 1,
                name: "Omaha 6cards Hi",
            },
        ),
        Game::Omaha8 => Some(
            GameParams {
                game: Game::Omaha8,
                minpocket: 4,
                maxpocket: 4,
                maxboard: 5,
                haslopot: 1,
                hashipot: 1,
                name: "Omaha Hi/Low 8-or-better",
            },
        ),
        Game::Omaha85 => Some(
            GameParams {
                game: Game::Omaha85,
                minpocket: 5,
                maxpocket: 5,
                maxboard: 5,
                haslopot: 1,
                hashipot: 1,
                name: "Omaha 5cards Hi/Low",
            },
        ),
        Game::Stud7 => Some(
            GameParams {
                game: Game::Stud7,
                minpocket: 3,
                maxpocket: 7,
                maxboard: 0,
                haslopot: 0,
                hashipot: 1,
                name: "Stud 7cards Hi",
            },
        ),
        Game::Stud78 => Some(
            GameParams {
                game: Game::Stud78,
                minpocket: 3,
                maxpocket: 7,
                maxboard: 0,
                haslopot: 1,
                hashipot: 1,
                name: "Stud 7cards Hi/Low",
            },
        ),
        Game::Stud7nsq => Some(
            GameParams {
                game: Game::Stud7nsq,
                minpocket: 3,
                maxpocket: 7,
                maxboard: 0,
                haslopot: 1,
                hashipot: 1,
                name: "Stud 7cards Hi/Low no qualifier",
            },
        ),
        Game::Razz => Some(
            GameParams {
                game: Game::Razz,
                minpocket: 3,
                maxpocket: 7,
                maxboard: 0,
                haslopot: 1,
                hashipot: 0,
                name: "Razz (7-card Stud A-5 Low)",
            },
        ),
        Game::Draw5 => Some(
            GameParams {
                game: Game::Draw5,
                minpocket: 0,
                maxpocket: 5,
                maxboard: 0,
                haslopot: 0,
                hashipot: 1,
                name: "5-card Draw Hi with joker",
            },
        ),
        Game::Draw58 => Some(
            GameParams {
                game: Game::Draw58,
                minpocket: 0,
                maxpocket: 5,
                maxboard: 0,
                haslopot: 1,
                hashipot: 1,
                name: "5-card Draw Hi/Low 8-or-better with joker",
            },
        ),
        Game::Draw5nsq => Some(
            GameParams {
                game: Game::Draw5nsq,
                minpocket: 0,
                maxpocket: 5,
                maxboard: 0,
                haslopot: 1,
                hashipot: 1,
                name: "5-card Draw Hi/Low no qualifier with joker",
            },
        ),
        Game::Lowball => Some(
            GameParams {
                game: Game::Lowball,
                minpocket: 0,
                maxpocket: 5,
                maxboard: 0,
                haslopot: 1,
                hashipot: 0,
                name: "5-card Draw A-5 Lowball with joker",
            },
        ),
        Game::Lowball27 => Some(
            GameParams {
                game: Game::Lowball27,
                minpocket: 0,
                maxpocket: 5,
                maxboard: 0,
                haslopot: 1,
                hashipot: 0,
                name: "5-card Draw 2-7 Lowball",
            },
        ),
        _ => None,
    }
}

impl Game {
    /// The parameters of this variant, `None` when it has none.
    pub fn game_params(self) -> (r: Option<GameParams>)
        ensures
            r == params_of(self),
    {
        match self {
            Game::Holdem => Some(
                GameParams {
                    game: Game::Holdem,
                    minpocket: 2,
                    maxpocket: 2,
                    maxboard: 5,
                    haslopot: 0,
                    hashipot: 1,
                    name: "Holdem Hi",
                },
            ),
            Game::Holdem8 => Some(
                GameParams {
                    game: Game::Holdem8,
                    minpocket: 2,
                    maxpocket: 2,
                    maxboard: 5,
                    haslopot: 1,
                    hashipot: 1,
                    name: "Holdem Hi/Low 8-or-better",
                },
            ),
            Game::Omaha => Some(
                GameParams {
                    game: Game::Omaha,
                    minpocket: 4,
                    maxpocket: 4,
                    maxboard: 5,
                    haslopot: 0,
                    hashipot: 1,
                    name: "Omaha Hi",
                },
            ),
            Game::Omaha5 => Some(
                GameParams {
                    game: Game::Omaha5,
                    minpocket: 5,
                    maxpocket: 5,
                    maxboard: 5,
                    haslopot: 0,
                    hashipot: 1,
                    name: "Omaha 5cards Hi",
                },
            ),
            Game::Omaha6 => Some(
                GameParams {
                    game: Game::Omaha6,
                    minpocket: 6,
                    maxpocket: 6,
                    maxboard: 5,
                    haslopot: 0,
                    hashipot: 1,
                    name: "Omaha 6cards Hi",
                },
            ),
            Game::Omaha8 => Some(
                GameParams {
                    game: Game::Omaha8,
                    minpocket: 4,
                    maxpocket: 4,
                    maxboard: 5,
                    haslopot: 1,
                    hashipot: 1,
                    name: "Omaha Hi/Low 8-or-better",
                },
            ),
            Game::Omaha85 => Some(
                GameParams {
                    game: Game::Omaha85,
                    minpocket: 5,
                    maxpocket: 5,
                    maxboard: 5,
                    haslopot: 1,
                    hashipot: 1,
                    name: "Omaha 5cards Hi/Low",
                },
            ),
            Game::Stud7 => Some(
                GameParams {
                    game: Game::Stud7,
                    minpocket: 3,
                    maxpocket: 7,
                    maxboard: 0,
                    haslopot: 0,
                    hashipot: 1,
                    name: "Stud 7cards Hi",
                },
            ),
            Game::Stud78 => Some(
                GameParams {
                    game: Game::Stud78,
                    minpocket: 3,
                    maxpocket: 7,
                    maxboard: 0,
                    haslopot: 1,
                    hashipot: 1,
                    name: "Stud 7cards Hi/Low",
                },
            ),
            Game::Stud7nsq => Some(
                GameParams {
                    game: Game::Stud7nsq,
                    minpocket: 3,
                    maxpocket: 7,
                    maxboard: 0,
                    haslopot: 1,
                    hashipot: 1,
                    name: "Stud 7cards Hi/Low no qualifier",
                },
            ),
            Game::Razz => Some(
                GameParams {
                    game: Game::Razz,
                    minpocket: 3,
                    maxpocket: 7,
                    maxboard: 0,
                    haslopot: 1,
                    hashipot: 0,
                    name: "Razz (7-card Stud A-5 Low)",
                },
            ),
            Game::Draw5 => Some(
                GameParams {
                    game: Game::Draw5,
                    minpocket: 0,
                    maxpocket: 5,
                    maxboard: 0,
                    haslopot: 0,
                    hashipot: 1,
                    name: "5-card Draw Hi with joker",
                },
            ),
            Game::Draw58 => Some(
                GameParams {
                    game: Game::Draw58,
                    minpocket: 0,
                    maxpocket: 5,
                    maxboard: 0,
                    haslopot: 1,
                    hashipot: 1,
                    name: "5-card Draw Hi/Low 8-or-better with joker",
                },
            ),
            Game::Draw5nsq => Some(
                GameParams {
                    game: Game::Draw5nsq,
                    minpocket: 0,
                    maxpocket: 5,
                    maxboard: 0,
                    haslopot: 1,
                    hashipot: 1,
                    name: "5-card Draw Hi/Low no qualifier with joker",
                },
            ),
            Game::Lowball => Some(
                GameParams {
                    game: Game::Lowball,
                    minpocket: 0,
                    maxpocket: 5,
                    maxboard: 0,
                    haslopot: 1,
                    hashipot: 0,
                    name: "5-card Draw A-5 Lowball with joker",
                },
            ),
            Game::Lowball27 => Some(
                GameParams {
                    game: Game::Lowball27,
                    minpocket: 0,
                    maxpocket: 5,
                    maxboard: 0,
                    haslopot: 1,
                    hashipot: 0,
                    name: "5-card Draw 2-7 Lowball",
                },
            ),
            _ => None,
        }
    }
}

/// The parameters of all the variants, in the order of `Game`, with their long names.
pub open spec fn all_game_params() -> Seq<GameParams> {
    seq![
        GameParams {
            game: Game::Holdem,
            minpocket: 2,
            maxpocket: 2,
            maxboard: 5,
            haslopot: 0,
            hashipot: 1,
            name: "Holdem Hi",
        },
        GameParams {
            game: Game::Holdem8,
            minpocket: 2,
            maxpocket: 2,
            maxboard: 5,
            haslopot: 1,
            hashipot: 1,
            name: "Holdem Hi/Low 8-or-better",
        },
        GameParams {
            game: Game::Omaha,
            minpocket: 4,
            maxpocket: 4,
            maxboard: 5,
            haslopot: 0,
            hashipot: 1,
            name: "Omaha Hi",
        },
        GameParams {
            game: Game::Omaha5,
            minpocket: 5,
            maxpocket: 5,
            maxboard: 5,
            haslopot: 0,
            hashipot: 1,
            name: "Omaha Hi 5cards",
        },
        GameParams {
            game: Game::Omaha6,
            minpocket: 6,
            maxpocket: 6,
            maxboard: 5,
            haslopot: 0,
            hashipot: 1,
            name: "Omaha Hi 6cards",
        },
        GameParams {
            game: Game::Omaha8,
            minpocket: 4,
            maxpocket: 4,
            maxboard: 5,
            haslopot: 1,
            hashipot: 1,
            name: "Omaha Hi/Low 8-or-better",
        },
        GameParams {
            game: Game::Omaha85,
            minpocket: 5,
            maxpocket: 5,
            maxboard: 5,
            haslopot: 1,
            hashipot: 1,
            name: "Omaha 5cards Hi/Low 8-or-better",
        },
        GameParams {
            game: Game::Stud7,
            minpocket: 3,
            maxpocket: 7,
            maxboard: 0,
            haslopot: 0,
            hashipot: 1,
            name: "7-card Stud Hi",
        },
        GameParams {
            game: Game::Stud78,
            minpocket: 3,
            maxpocket: 7,
            maxboard: 0,
            haslopot: 1,
            hashipot: 1,
            name: "7-card Stud Hi/Low 8-or-better",
        },
        GameParams {
            game: Game::Stud7nsq,
            minpocket: 3,
            maxpocket: 7,
            maxboard: 0,
            haslopot: 1,
            hashipot: 1,
            name: "7-card Stud Hi/Low no qualifier",
        },
        GameParams {
            game: Game::Razz,
            minpocket: 3,
            maxpocket: 7,
            maxboard: 0,
            haslopot: 1,
            hashipot: 0,
            name: "Razz (7-card Stud A-5 Low)",
        },
        GameParams {
            game: Game::Draw5,
            minpocket: 0,
            maxpocket: 5,
            maxboard: 0,
            haslopot: 0,
            hashipot: 1,
            name: "5-card Draw Hi with joker",
        },
        GameParams {
            game: Game::Draw58,
            minpocket: 0,
            maxpocket: 5,
            maxboard: 0,
            haslopot: 1,
            hashipot: 1,
            name: "5-card Draw Hi/Low 8-or-better with joker",
        },
        GameParams {
            game: Game::Draw5nsq,
            minpocket: 0,
            maxpocket: 5,
            maxboard: 0,
            haslopot: 1,
            hashipot: 1,
            name: "5-card Draw Hi/Low no qualifier with joker",
        },
        GameParams {
            game: Game::Lowball,
            minpocket: 0,
            maxpocket: 5,
            maxboard: 0,
            haslopot: 1,
            hashipot: 0,
            name: "5-card Draw A-5 Lowball with joker",
        },
        GameParams {
            game: Game::Lowball27,
            minpocket: 0,
            maxpocket: 5,
            maxboard: 0,
            haslopot: 1,
            hashipot: 0,
            name: "5-card Draw 2-7 Lowball",
        }
    ]
}

/// The parameters of all the variants (see `all_game_params`).
pub fn game_params() -> (v: Vec<GameParams>)
    ensures
        v@ == all_game_params(),
{
    let mut v: Vec<GameParams> = Vec::new();
    v.push(
        GameParams {
            game: Game::Holdem,
            minpocket: 2,
            maxpocket: 2,
            maxboard: 5,
            haslopot: 0,
            hashipot: 1,
            name: "Holdem Hi",
        },
    );
    v.push(
        GameParams {
            game: Game::Holdem8,
            minpocket: 2,
            maxpocket: 2,
            maxboard: 5,
            haslopot: 1,
            hashipot: 1,
            name: "Holdem Hi/Low 8-or-better",
        },
    );
    v.push(
        GameParams {
            game: Game::Omaha,
            minpocket: 4,
            maxpocket: 4,
            maxboard: 5,
            haslopot: 0,
            hashipot: 1,
            name: "Omaha Hi",
        },
    );
    v.push(
        GameParams {
            game: Game::Omaha5,
            minpocket: 5,
            maxpocket: 5,
            maxboard: 5,
            haslopot: 0,
            hashipot: 1,
            name: "Omaha Hi 5cards",
        },
    );
    v.push(
        GameParams {
            game: Game::Omaha6,
            minpocket: 6,
            maxpocket: 6,
            maxboard: 5,
            haslopot: 0,
            hashipot: 1,
            name: "Omaha Hi 6cards",
        },
    );
    v.push(
        GameParams {
            game: Game::Omaha8,
            minpocket: 4,
            maxpocket: 4,
            maxboard: 5,
            haslopot: 1,
            hashipot: 1,
            name: "Omaha Hi/Low 8-or-better",
        },
    );
    v.push(
        GameParams {
            game: Game::Omaha85,
            minpocket: 5,
            maxpocket: 5,
            maxboard: 5,
            haslopot: 1,
            hashipot: 1,
            name: "Omaha 5cards Hi/Low 8-or-better",
        },
    );
    v.push(
        GameParams {
            game: Game::Stud7,
            minpocket: 3,
            maxpocket: 7,
            maxboard: 0,
            haslopot: 0,
            hashipot: 1,
            name: "7-card Stud Hi",
        },
    );
    v.push(
        GameParams {
            game: Game::Stud78,
            minpocket: 3,
            maxpocket: 7,
            maxboard: 0,
            haslopot: 1,
            hashipot: 1,
            name: "7-card Stud Hi/Low 8-or-better",
        },
    );
    v.push(
        GameParams {
            game: Game::Stud7nsq,
            minpocket: 3,
            maxpocket: 7,
            maxboard: 0,
            haslopot: 1,
            hashipot: 1,
            name: "7-card Stud Hi/Low no qualifier",
        },
    );
    v.push(
        GameParams {
            game: Game::Razz,
            minpocket: 3,
            maxpocket: 7,
            maxboard: 0,
            haslopot: 1,
            hashipot: 0,
            name: "Razz (7-card Stud A-5 Low)",
        },
    );
    v.push(
        GameParams {
            game: Game::Draw5,
            minpocket: 0,
            maxpocket: 5,
            maxboard: 0,
            haslopot: 0,
            hashipot: 1,
            name: "5-card Draw Hi with joker",
        },
    );
    v.push(
        GameParams {
            game: Game::Draw58,
            minpocket: 0,
            maxpocket: 5,
            maxboard: 0,
            haslopot: 1,
            hashipot: 1,
            name: "5-card Draw Hi/Low 8-or-better with joker",
        },
    );
    v.push(
        GameParams {
            game: Game::Draw5nsq,
            minpocket: 0,
            maxpocket: 5,
            maxboard: 0,
            haslopot: 1,
            hashipot: 1,
            name: "5-card Draw Hi/Low no qualifier with joker",
        },
    );
    v.push(
        GameParams {
            game: Game::Lowball,
            minpocket: 0,
            maxpocket: 5,
            maxboard: 0,
            haslopot: 1,
            hashipot: 0,
            name: "5-card Draw A-5 Lowball with joker",
        },
    );
    v.push(
        GameParams {
            game: Game::Lowball27,
            minpocket: 0,
            maxpocket: 5,
            maxboard: 0,
            haslopot: 1,
            hashipot: 0,
            name: "5-card Draw 2-7 Lowball",
        },
    );
    proof {
        assert(v@ =~= all_game_params());
    }
    v
}

/// Why an enumeration could not run.
#[derive(Debug)]
pub enum EnumError {
    TooManyPlayers,
    UnsupportedGameType,
    UnsupportedBoardConfiguration,
    OtherError(String),
}

/// The text describing the error `e`.
pub open spec fn enum_error_text(e: EnumError) -> Seq<char> {
    match e {
        EnumError::TooManyPlayers => "Too many players"@,
        EnumError::UnsupportedGameType => "Unsupported game type"@,
        EnumError::UnsupportedBoardConfiguration => "Unsupported board configuration"@,
        EnumError::OtherError(cause) => "Error: "@ + cause@,
    }
}

impl EnumError {
    /// The text describing the error.
    pub fn message(&self) -> (s: String)
        ensures
            s@ == enum_error_text(*self),
    {
        let mut s = String::new();
        match self {
            EnumError::TooManyPlayers => {
                push_str(&mut s, "Too many players");
            },
            EnumError::UnsupportedGameType => {
                push_str(&mut s, "Unsupported game type");
            },
            EnumError::UnsupportedBoardConfiguration => {
                push_str(&mut s, "Unsupported board configuration");
            },
            EnumError::OtherError(cause) => {
                push_str(&mut s, "Error: ");
                push_str(&mut s, cause.as_str());
            },
        }
        proof {
            reveal_strlit("Too many players");
            reveal_strlit("Unsupported game type");
            reveal_strlit("Unsupported board configuration");
            reveal_strlit("Error: ");
        }
        s
    }
}

} // verus!
