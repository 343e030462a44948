//! The top-level enumerations: the checks made before one (board consistency,
//! supported modes) and random sampling of any variant.
use vstd::prelude::*;
use crate::enumdefs::{Game, SampleType, ENUM_MAXPLAYERS};
use crate::enumerate::params_of;
use crate::enumerate::independent::{
    dealt_live, dealt_low_ready, deals_counted, game_contrib, needed_before, not_enough_text, stud_high,
};
use crate::enumerate::independent_joker::{
    draw_high, draw_low, joker_deals_counted, joker_deck_left, joker_low_ready,
};
use crate::enumerate::inner_loops::joker_low8_value;
use crate::enumerate::montecarlo::{live_joker_cards, live_std_cards, DrawSource};
use crate::enumerate::result::{
    counter, deal_setup, deal_sum, deals_fit, deals_ready, fresh_ordering, holdem8_contrib, holdem_contrib,
    omaha_contrib, EnumResult,
};
use crate::enumerate::sampling::{
    high_contrib, hilo_contrib, holdem_board_ready, is_draw, sample_live, samples_counted, sampled_eight_lows,
    sampled_holdem_highs, sampled_omaha_highs, sampled_omaha_lows, sampled_seven_highs, seven_board_ready,
};
use crate::enumerate::independent::{excluded_first, lemma_deals_counted_same};
use crate::enumerate::independent_joker::lemma_joker_deals_counted_same;
use crate::enumord::{EnumOrderingMode, ENUM_ORDERING_MAXPLAYERS, ENUM_ORDERING_MAXPLAYERS_HILO};
use crate::errors::PokerError;
use crate::eval_low::lowball_mask_value;
use crate::eval_low27::lowball27_mask_value;
use crate::eval_low8::lowball8_value;
use crate::enumerate::result::or_masks;
use crate::tables::{StdDeckCardMask, cards_of};

verus! {

/// The outcome of `validate_enum_configuration`: the board of `nboard` cards
/// `board` suits the variant `game` (for an exhaustive enumeration when
/// `exhaustive` is set).
pub open spec fn enum_configuration(game: Game, board: u64, nboard: usize, exhaustive: bool) -> Result<(), PokerError> {
    if nboard != cards_of(board).len() {
        Err(PokerError::UnsupportedBoardConfiguration)
    } else {
        match params_of(game) {
            None => Err(PokerError::UnsupportedGameType),
            Some(p) => {
                let maxboard = p.maxboard as usize;
                if nboard > maxboard {
                    Err(PokerError::UnsupportedBoardConfiguration)
                } else if maxboard == 0 && (board != 0 || nboard != 0) {
                    Err(PokerError::UnsupportedBoardConfiguration)
                } else if exhaustive && maxboard == 5 && !(nboard == 0 || nboard == 3 || nboard == 4 || nboard == 5) {
                    Err(PokerError::UnsupportedBoardConfiguration)
                } else {
                    Ok(())
                }
            },
        }
    }
}

/// Checks that the board `board` of `nboard` cards suits `game`: `nboard` is its
/// number of cards, within the variant's maximum, nothing on a variant without
/// board, and, for an exhaustive enumeration of a board variant, 0, 3, 4 or 5 cards.
pub fn validate_enum_configuration(game: Game, board: StdDeckCardMask, nboard: usize, exhaustive: bool) -> (res: Result<(), PokerError>)
    ensures
        res == enum_configuration(game, board.mask, nboard, exhaustive),
{
    if nboard != board.num_cards() {
        return Err(PokerError::UnsupportedBoardConfiguration);
    }
    let params = match game.game_params() {
        Some(p) => p,
        None => return Err(PokerError::UnsupportedGameType),
    };
    let maxboard = params.maxboard as usize;
    if nboard > maxboard {
        return Err(PokerError::UnsupportedBoardConfiguration);
    }
    if maxboard == 0 && (!board.is_empty() || nboard != 0) {
        return Err(PokerError::UnsupportedBoardConfiguration);
    }
    if exhaustive && maxboard == 5 && !(nboard == 0 || nboard == 3 || nboard == 4 || nboard == 5) {
        return Err(PokerError::UnsupportedBoardConfiguration);
    }
    Ok(())
}

/// The variants that the enumerations (sampled, quasi-random, exhaustive) support:
/// every variant but `NumGames`.
pub open spec fn enum_supported(game: Game) -> bool {
    game != Game::NumGames
}

/// Tells whether random sampling supports `game`.
pub fn supports_enum_sample(game: Game) -> (b: bool)
    ensures
        b == enum_supported(game),
{
    match game {
        Game::Holdem | Game::Holdem8 | Game::Omaha | Game::Omaha5 | Game::Omaha6 | Game::Omaha8
        | Game::Omaha85 | Game::ShortDeck | Game::Stud7 | Game::Stud78 | Game::Stud7nsq | Game::Razz
        | Game::Draw5 | Game::Draw58 | Game::Draw5nsq | Game::Lowball | Game::Lowball27 => true,
        _ => false,
    }
}

/// Tells whether quasi-random sampling supports `game`.
pub fn supports_enum_qmc(game: Game) -> (b: bool)
    ensures
        b == enum_supported(game),
{
    match game {
        Game::Holdem | Game::Holdem8 | Game::Omaha | Game::Omaha5 | Game::Omaha6 | Game::Omaha8
        | Game::Omaha85 | Game::ShortDeck | Game::Stud7 | Game::Stud78 | Game::Stud7nsq | Game::Razz
        | Game::Draw5 | Game::Draw58 | Game::Draw5nsq | Game::Lowball | Game::Lowball27 => true,
        _ => false,
    }
}

/// Tells whether exhaustive enumeration supports `game`.
pub fn supports_enum_exhaustive(game: Game) -> (b: bool)
    ensures
        b == enum_supported(game),
{
    match game {
        Game::Holdem | Game::Holdem8 | Game::Omaha | Game::Omaha5 | Game::Omaha6 | Game::Omaha8
        | Game::Omaha85 | Game::ShortDeck | Game::Stud7 | Game::Stud78 | Game::Stud7nsq | Game::Razz
        | Game::Draw5 | Game::Draw58 | Game::Draw5nsq | Game::Lowball | Game::Lowball27 => true,
        _ => false,
    }
}

/// The ordering mode of the variant `game` in the sampled and exhaustive
/// enumerations: high, low, or high-low; none for `NumGames`.
pub open spec fn ordering_mode_of(game: Game) -> Option<EnumOrderingMode> {
    match game {
        Game::Holdem | Game::Omaha | Game::Omaha5 | Game::Omaha6 | Game::Stud7 | Game::Draw5 | Game::ShortDeck => Some(EnumOrderingMode::Hi),
        Game::Razz | Game::Lowball | Game::Lowball27 => Some(EnumOrderingMode::Lo),
        Game::Holdem8 | Game::Omaha8 | Game::Omaha85 | Game::Stud78 | Game::Stud7nsq | Game::Draw58 | Game::Draw5nsq => Some(EnumOrderingMode::Hilo),
        Game::NumGames => None,
    }
}

/// A histogram of orderings of the variant `game` cannot be kept for `n`
/// players.
pub open spec fn ordering_refused(game: Game, n: int) -> bool {
    match ordering_mode_of(game) {
        Some(EnumOrderingMode::Hilo) => n > ENUM_ORDERING_MAXPLAYERS_HILO,
        Some(_) => n > ENUM_ORDERING_MAXPLAYERS,
        None => false,
    }
}

/// The counts of `r` and its number of samples are zero.
pub open spec fn counts_zero(r: EnumResult) -> bool {
    &&& r.nsamples == 0
    &&& forall|kind: int, i: int| 0 <= kind < 7 && 0 <= i < 12 ==> #[trigger] counter(r, kind)[i] == 0
}

/// What the random sampling of `game` needs of its inputs, the counts starting
/// from zero.
pub open spec fn sample_ready(
    game: Game,
    pockets: Seq<StdDeckCardMask>,
    board: u64,
    dead: u64,
    n: int,
    nboard: usize,
    niter: nat,
) -> bool {
    let live = sample_live(pockets, board, dead);
    let k = (5 - nboard) as nat;
    &&& niter > 0 ==> niter <= u32::MAX && niter * n <= u32::MAX
    &&& match game {
        Game::Holdem => niter > 0 ==> forall|draw: Seq<StdDeckCardMask>|
            is_draw(draw, live, k) ==> holdem_board_ready(pockets, board | #[trigger] or_masks(draw), n),
        Game::Holdem8 => niter > 0 ==> forall|draw: Seq<StdDeckCardMask>|
            is_draw(draw, live, k) ==> seven_board_ready(pockets, board | #[trigger] or_masks(draw), n),
        Game::Omaha | Game::Omaha5 | Game::Omaha6 | Game::Omaha8 | Game::Omaha85 => niter > 0 ==> n <= pockets.len(),
        Game::Stud7nsq | Game::Razz => n <= pockets.len() && (niter > 0 ==> dealt_low_ready(pockets, 7, live_std_cards(dealt_live(pockets, dead, n), 0), n)),
        Game::Draw58 | Game::Draw5nsq | Game::Lowball => n <= pockets.len() && (niter > 0 ==> joker_low_ready(pockets, 5, live_joker_cards(joker_deck_left(excluded_first(pockets, dead, n)), 0), n)),
        _ => n <= pockets.len(),
    }
}

/// What a sampled deal of the stud variant `game` adds to the count of kind
/// `kind` of player `i` among `n`, in a result of variant `game`.
pub open spec fn stud_gain(game: Game, n: int) -> spec_fn(Seq<u64>, int, int) -> nat {
    |hands: Seq<u64>, i: int, kind: int| game_contrib(
        game,
        Seq::new(n as nat, |j: int| stud_game_high(game, hands[j])),
        Seq::new(n as nat, |j: int| stud_game_low(game, hands[j])),
        n,
        i,
        kind,
    )
}

/// The high value of the hand `m` in the stud variant `game` (0 for a low-only variant).
pub open spec fn stud_game_high(game: Game, m: u64) -> u32 {
    match game {
        Game::Razz | Game::Lowball27 => 0u32,
        _ => stud_high(m),
    }
}

/// The low value of the hand `m` in the stud variant `game` (0 for a high-only variant).
pub open spec fn stud_game_low(game: Game, m: u64) -> u32 {
    match game {
        Game::Stud7 => 0u32,
        Game::Stud78 => lowball8_value(m) as u32,
        Game::Lowball27 => lowball27_mask_value(m, cards_of(m).len() as int) as u32,
        _ => lowball_mask_value(m) as u32,
    }
}

/// What a sampled deal of the draw variant `game` adds to the count of kind
/// `kind` of player `i` among `n`, in a result of variant `game`.
pub open spec fn draw_gain(game: Game, n: int) -> spec_fn(Seq<u64>, int, int) -> nat {
    |hands: Seq<u64>, i: int, kind: int| game_contrib(
        game,
        Seq::new(n as nat, |j: int| draw_game_high(game, hands[j])),
        Seq::new(n as nat, |j: int| draw_game_low(game, hands[j])),
        n,
        i,
        kind,
    )
}

/// The high value of the joker-deck hand `m` in the draw variant `game`.
pub open spec fn draw_game_high(game: Game, m: u64) -> u32 {
    match game {
        Game::Lowball => 0u32,
        _ => draw_high(m),
    }
}

/// The low value of the joker-deck hand `m` in the draw variant `game`.
pub open spec fn draw_game_low(game: Game, m: u64) -> u32 {
    match game {
        Game::Draw5 => 0u32,
        Game::Draw58 => joker_low8_value(m) as u32,
        _ => draw_low(m),
    }
}

/// `new` and `res` are what the random sampling of `game` gives from `mid`, whose
/// counts are zero.
pub open spec fn sampled_as(
    game: Game,
    new: EnumResult,
    mid: EnumResult,
    res: Result<(), PokerError>,
    pockets: Seq<StdDeckCardMask>,
    board: u64,
    dead: u64,
    n: int,
    nboard: usize,
    niter: nat,
) -> bool {
    let live = sample_live(pockets, board, dead);
    let k = (5 - nboard) as nat;
    let std_left = dealt_live(pockets, dead, n);
    let joker_left = joker_deck_left(excluded_first(pockets, dead, n));
    let std_live = live_std_cards(std_left, 0);
    let joker_live = live_joker_cards(joker_left, 0);
    match game {
        Game::Holdem => res is Ok && samples_counted(new, mid, live, board, k, niter, n,
            |b: u64, i: int, kind: int| high_contrib(sampled_holdem_highs(pockets, b, n), n, i, kind)),
        Game::Omaha | Game::Omaha5 | Game::Omaha6 => res is Ok && samples_counted(new, mid, live, board, k, niter, n,
            |b: u64, i: int, kind: int| high_contrib(sampled_omaha_highs(pockets, b, n), n, i, kind)),
        Game::Holdem8 => res is Ok && samples_counted(new, mid, live, board, k, niter, n,
            |b: u64, i: int, kind: int| hilo_contrib(sampled_seven_highs(pockets, b, n), sampled_eight_lows(pockets, b, n), n, i, kind)),
        Game::Omaha8 | Game::Omaha85 => res is Ok && samples_counted(new, mid, live, board, k, niter, n,
            |b: u64, i: int, kind: int| hilo_contrib(sampled_omaha_highs(pockets, b, n), sampled_omaha_lows(pockets, b, n), n, i, kind)),
        Game::Stud7 | Game::Stud78 | Game::Stud7nsq | Game::Razz | Game::Lowball27 => {
            let target: nat = if game == Game::Lowball27 { 5 } else { 7 };
            if needed_before(pockets, target, n) > std_left.len() {
                &&& res matches Err(e) && e matches PokerError::InvalidCardConfiguration(msg)
                    && msg@ == not_enough_text(needed_before(pockets, target, n), std_left.len())
                &&& new == mid
            } else {
                res is Ok && deals_counted(new, mid, std_live, pockets, target, n, niter, stud_gain(game, n))
            }
        },
        Game::Draw5 | Game::Draw58 | Game::Draw5nsq | Game::Lowball => {
            if needed_before(pockets, 5, n) > joker_left.len() {
                &&& res matches Err(e) && e matches PokerError::InvalidCardConfiguration(msg)
                    && msg@ == not_enough_text(needed_before(pockets, 5, n), joker_left.len())
                &&& new == mid
            } else {
                res is Ok && joker_deals_counted(new, mid, joker_live, pockets, 5, n, niter, draw_gain(game, n))
            }
        },
        _ => res == Err::<(), PokerError>(PokerError::UnsupportedGameType) && new == mid,
    }
}

/// What a sampling enumeration of `niter` deals of the variant `game` leaves:
/// `old` is the result before, `new` after, `res` the outcome; the result is
/// cleared and set to `game`, `sample_type` and `npockets` players (more players
/// than `ENUM_MAXPLAYERS` is refused before anything changes), a board that does
/// not suit the variant and too many players for the histogram are refused after
/// the clearing, and otherwise the deals are counted (see `sampled_as`).
pub open spec fn sampling_outcome(
    game: Game,
    pockets: Seq<StdDeckCardMask>,
    board: StdDeckCardMask,
    dead: StdDeckCardMask,
    npockets: usize,
    nboard: usize,
    niter: usize,
    orderflag: bool,
    old: EnumResult,
    new: EnumResult,
    res: Result<(), PokerError>,
    sample_type: SampleType,
) -> bool {
    &&& (npockets > ENUM_MAXPLAYERS ==> res == Err::<(), PokerError>(PokerError::TooManyPlayers) && new == old)
    &&& (npockets <= ENUM_MAXPLAYERS ==> {
            &&& new.game == game
            &&& new.sample_type == sample_type
            &&& new.nplayers == npockets as u32
        })
    &&& (npockets <= ENUM_MAXPLAYERS && enum_configuration(game, board.mask, nboard, false) is Err ==> {
            &&& res == enum_configuration(game, board.mask, nboard, false)
            &&& counts_zero(new)
            &&& new.ordering is None
        })
    &&& (npockets <= ENUM_MAXPLAYERS && enum_configuration(game, board.mask, nboard, false) is Ok && orderflag
            && ordering_refused(game, npockets as int) ==> {
            &&& res matches Err(e) && e matches PokerError::Other(msg) && msg@ == if ordering_mode_of(game) == Some(EnumOrderingMode::Hilo) {
                "Too many players for Hilo mode"@
            } else {
                "Too many players for non-Hilo mode"@
            }
            &&& counts_zero(new)
            &&& new.ordering is None
        })
    &&& (npockets <= ENUM_MAXPLAYERS && enum_configuration(game, board.mask, nboard, false) is Ok && !(orderflag
            && ordering_refused(game, npockets as int)) ==> {
            &&& (orderflag ==> (new.ordering matches Some(o) && fresh_ordering(*o, ordering_mode_of(game)->0, npockets)))
            &&& (!orderflag ==> new.ordering is None)
            &&& exists|mid: EnumResult| #[trigger] counts_zero(mid) && mid.game == game && sampled_as(game, new, mid, res, pockets, board.mask, dead.mask, npockets as int, nboard, niter as nat)
        })
}

/// Samples `niter` deals of the variant `game` into `result`, the cards of the
/// deals coming from `source` (see `sampling_outcome`).
fn enum_sample_from(
    game: Game,
    pockets: &[StdDeckCardMask],
    board: StdDeckCardMask,
    dead: StdDeckCardMask,
    npockets: usize,
    nboard: usize,
    niter: usize,
    orderflag: bool,
    result: &mut EnumResult,
    sample_type: SampleType,
    source: &DrawSource,
) -> (res: Result<(), PokerError>)
    requires
        npockets <= ENUM_MAXPLAYERS && enum_configuration(game, board.mask, nboard, false) is Ok ==> sample_ready(
            game,
            pockets@,
            board.mask,
            dead.mask,
            npockets as int,
            nboard,
            niter as nat,
        ),
    ensures
        sampling_outcome(game, pockets@, board, dead, npockets, nboard, niter, orderflag, *old(result), *final(result), res, sample_type),
{
    if npockets > ENUM_MAXPLAYERS {
        return Err(PokerError::TooManyPlayers);
    }
    result.clear();
    result.game = game;
    result.sample_type = sample_type;
    result.nplayers = npockets as u32;
    match validate_enum_configuration(game, board, nboard, false) {
        Err(e) => {
            return Err(e);
        },
        Ok(()) => {},
    }
    let mode = match game {
        Game::Holdem | Game::Omaha | Game::Omaha5 | Game::Omaha6 | Game::Stud7 | Game::Draw5 | Game::ShortDeck => EnumOrderingMode::Hi,
        Game::Razz | Game::Lowball | Game::Lowball27 => EnumOrderingMode::Lo,
        Game::Holdem8 | Game::Omaha8 | Game::Omaha85 | Game::Stud78 | Game::Stud7nsq | Game::Draw58 | Game::Draw5nsq => EnumOrderingMode::Hilo,
        Game::NumGames => {
            return Err(PokerError::UnsupportedGameType);
        },
    };
    if orderflag {
        match result.allocate_resources(npockets, mode) {
            Err(e) => {
                return Err(e);
            },
            Ok(()) => {},
        }
    }
    let ghost mid = *result;
    proof {
        assert(counts_zero(mid));
    }
    let ghost n = npockets as int;
    let ghost live = sample_live(pockets@, board.mask, dead.mask);
    let ghost k = (5 - nboard) as nat;
    let res = match game {
        Game::Holdem => {
            let r = result.simulate_holdem_game(pockets, board, dead, npockets, nboard, niter, source);
            proof {
                assert(sampled_as(game, *result, mid, r, pockets@, board.mask, dead.mask, n, nboard, niter as nat));
            }
            r
        },
        Game::Holdem8 => {
            let r = result.simulate_holdem8_game(pockets, board, dead, npockets, nboard, niter, source);
            proof {
                assert(sampled_as(game, *result, mid, r, pockets@, board.mask, dead.mask, n, nboard, niter as nat));
            }
            r
        },
        Game::Omaha => {
            let r = result.simulate_omaha_game(pockets, board, dead, npockets, nboard, niter, source);
            proof {
                assert(sampled_as(game, *result, mid, r, pockets@, board.mask, dead.mask, n, nboard, niter as nat));
            }
            r
        },
        Game::Omaha5 => {
            let r = result.simulate_omaha5_game(pockets, board, dead, npockets, nboard, niter, source);
            proof {
                assert(sampled_as(game, *result, mid, r, pockets@, board.mask, dead.mask, n, nboard, niter as nat));
            }
            r
        },
        Game::Omaha6 => {
            let r = result.simulate_omaha6_game(pockets, board, dead, npockets, nboard, niter, source);
            proof {
                assert(sampled_as(game, *result, mid, r, pockets@, board.mask, dead.mask, n, nboard, niter as nat));
            }
            r
        },
        Game::Omaha8 | Game::Omaha85 => {
            let r = result.simulate_omaha8_game(pockets, board, dead, npockets, nboard, niter, source);
            proof {
                assert(sampled_as(game, *result, mid, r, pockets@, board.mask, dead.mask, n, nboard, niter as nat));
            }
            r
        },
        Game::Stud7 => {
            let r = result.simulate_stud_game(pockets, dead, npockets, niter, source);
            proof {
                if needed_before(pockets@, 7, n) <= dealt_live(pockets@, dead.mask, n).len() {
                    let g1 = |hands: Seq<u64>, i: int, kind: int| game_contrib(mid.game, Seq::new(npockets as nat, |j: int| stud_high(hands[j])), Seq::new(npockets as nat, |j: int| 0u32), npockets as int, i, kind);
                    assert forall|hands: Seq<u64>, i: int, kind: int| #[trigger] g1(hands, i, kind) == stud_gain(game, n)(hands, i, kind) by {
                        assert(Seq::new(npockets as nat, |j: int| stud_high(hands[j])) =~= Seq::new(n as nat, |j: int| stud_game_high(game, hands[j])));
                        assert(Seq::new(npockets as nat, |j: int| 0u32) =~= Seq::new(n as nat, |j: int| stud_game_low(game, hands[j])));
                    }
                    lemma_deals_counted_same(*result, mid, live_std_cards(dealt_live(pockets@, dead.mask, n), 0), pockets@, 7, n, niter as nat, g1, stud_gain(game, n));
                }
                assert(sampled_as(game, *result, mid, r, pockets@, board.mask, dead.mask, n, nboard, niter as nat));
            }
            r
        },
        Game::Stud78 => {
            let r = result.simulate_stud8_game(pockets, dead, npockets, niter, source);
            proof {
                if needed_before(pockets@, 7, n) <= dealt_live(pockets@, dead.mask, n).len() {
                    let g1 = |hands: Seq<u64>, i: int, kind: int| game_contrib(mid.game, Seq::new(npockets as nat, |j: int| stud_high(hands[j])), Seq::new(npockets as nat, |j: int| lowball8_value(hands[j]) as u32), npockets as int, i, kind);
                    assert forall|hands: Seq<u64>, i: int, kind: int| #[trigger] g1(hands, i, kind) == stud_gain(game, n)(hands, i, kind) by {
                        assert(Seq::new(npockets as nat, |j: int| stud_high(hands[j])) =~= Seq::new(n as nat, |j: int| stud_game_high(game, hands[j])));
                        assert(Seq::new(npockets as nat, |j: int| lowball8_value(hands[j]) as u32) =~= Seq::new(n as nat, |j: int| stud_game_low(game, hands[j])));
                    }
                    lemma_deals_counted_same(*result, mid, live_std_cards(dealt_live(pockets@, dead.mask, n), 0), pockets@, 7, n, niter as nat, g1, stud_gain(game, n));
                }
                assert(sampled_as(game, *result, mid, r, pockets@, board.mask, dead.mask, n, nboard, niter as nat));
            }
            r
        },
        Game::Stud7nsq => {
            let r = result.simulate_studnsq_game(pockets, dead, npockets, niter, source);
            proof {
                if needed_before(pockets@, 7, n) <= dealt_live(pockets@, dead.mask, n).len() {
                    let g1 = |hands: Seq<u64>, i: int, kind: int| game_contrib(mid.game, Seq::new(npockets as nat, |j: int| stud_high(hands[j])), Seq::new(npockets as nat, |j: int| lowball_mask_value(hands[j]) as u32), npockets as int, i, kind);
                    assert forall|hands: Seq<u64>, i: int, kind: int| #[trigger] g1(hands, i, kind) == stud_gain(game, n)(hands, i, kind) by {
                        assert(Seq::new(npockets as nat, |j: int| stud_high(hands[j])) =~= Seq::new(n as nat, |j: int| stud_game_high(game, hands[j])));
                        assert(Seq::new(npockets as nat, |j: int| lowball_mask_value(hands[j]) as u32) =~= Seq::new(n as nat, |j: int| stud_game_low(game, hands[j])));
                    }
                    lemma_deals_counted_same(*result, mid, live_std_cards(dealt_live(pockets@, dead.mask, n), 0), pockets@, 7, n, niter as nat, g1, stud_gain(game, n));
                }
                assert(sampled_as(game, *result, mid, r, pockets@, board.mask, dead.mask, n, nboard, niter as nat));
            }
            r
        },
        Game::Razz => {
            let r = result.simulate_razz_game(pockets, dead, npockets, niter, source);
            proof {
                if needed_before(pockets@, 7, n) <= dealt_live(pockets@, dead.mask, n).len() {
                    let g1 = |hands: Seq<u64>, i: int, kind: int| game_contrib(mid.game, Seq::new(npockets as nat, |j: int| 0u32), Seq::new(npockets as nat, |j: int| lowball_mask_value(hands[j]) as u32), npockets as int, i, kind);
                    assert forall|hands: Seq<u64>, i: int, kind: int| #[trigger] g1(hands, i, kind) == stud_gain(game, n)(hands, i, kind) by {
                        assert(Seq::new(npockets as nat, |j: int| 0u32) =~= Seq::new(n as nat, |j: int| stud_game_high(game, hands[j])));
                        assert(Seq::new(npockets as nat, |j: int| lowball_mask_value(hands[j]) as u32) =~= Seq::new(n as nat, |j: int| stud_game_low(game, hands[j])));
                    }
                    lemma_deals_counted_same(*result, mid, live_std_cards(dealt_live(pockets@, dead.mask, n), 0), pockets@, 7, n, niter as nat, g1, stud_gain(game, n));
                }
                assert(sampled_as(game, *result, mid, r, pockets@, board.mask, dead.mask, n, nboard, niter as nat));
            }
            r
        },
        Game::Draw5 => {
            let r = result.simulate_draw_game(pockets, dead, npockets, niter, source);
            proof {
                if needed_before(pockets@, 5, n) <= joker_deck_left(excluded_first(pockets@, dead.mask, n)).len() {
                    let g1 = |hands: Seq<u64>, i: int, kind: int| game_contrib(mid.game, Seq::new(npockets as nat, |j: int| draw_high(hands[j])), Seq::new(npockets as nat, |j: int| 0u32), npockets as int, i, kind);
                    assert forall|hands: Seq<u64>, i: int, kind: int| #[trigger] g1(hands, i, kind) == draw_gain(game, n)(hands, i, kind) by {
                        assert(Seq::new(npockets as nat, |j: int| draw_high(hands[j])) =~= Seq::new(n as nat, |j: int| draw_game_high(game, hands[j])));
                        assert(Seq::new(npockets as nat, |j: int| 0u32) =~= Seq::new(n as nat, |j: int| draw_game_low(game, hands[j])));
                    }
                    lemma_joker_deals_counted_same(*result, mid, live_joker_cards(joker_deck_left(excluded_first(pockets@, dead.mask, n)), 0), pockets@, 5, n, niter as nat, g1, draw_gain(game, n));
                }
                assert(sampled_as(game, *result, mid, r, pockets@, board.mask, dead.mask, n, nboard, niter as nat));
            }
            r
        },
        Game::Draw58 => {
            let r = result.simulate_draw8_game(pockets, dead, npockets, niter, source);
            proof {
                if needed_before(pockets@, 5, n) <= joker_deck_left(excluded_first(pockets@, dead.mask, n)).len() {
                    let g1 = |hands: Seq<u64>, i: int, kind: int| game_contrib(mid.game, Seq::new(npockets as nat, |j: int| draw_high(hands[j])), Seq::new(npockets as nat, |j: int| joker_low8_value(hands[j]) as u32), npockets as int, i, kind);
                    assert forall|hands: Seq<u64>, i: int, kind: int| #[trigger] g1(hands, i, kind) == draw_gain(game, n)(hands, i, kind) by {
                        assert(Seq::new(npockets as nat, |j: int| draw_high(hands[j])) =~= Seq::new(n as nat, |j: int| draw_game_high(game, hands[j])));
                        assert(Seq::new(npockets as nat, |j: int| joker_low8_value(hands[j]) as u32) =~= Seq::new(n as nat, |j: int| draw_game_low(game, hands[j])));
                    }
                    lemma_joker_deals_counted_same(*result, mid, live_joker_cards(joker_deck_left(excluded_first(pockets@, dead.mask, n)), 0), pockets@, 5, n, niter as nat, g1, draw_gain(game, n));
                }
                assert(sampled_as(game, *result, mid, r, pockets@, board.mask, dead.mask, n, nboard, niter as nat));
            }
            r
        },
        Game::Draw5nsq => {
            let r = result.simulate_drawnsq_game(pockets, dead, npockets, niter, source);
            proof {
                if needed_before(pockets@, 5, n) <= joker_deck_left(excluded_first(pockets@, dead.mask, n)).len() {
                    let g1 = |hands: Seq<u64>, i: int, kind: int| game_contrib(mid.game, Seq::new(npockets as nat, |j: int| draw_high(hands[j])), Seq::new(npockets as nat, |j: int| draw_low(hands[j])), npockets as int, i, kind);
                    assert forall|hands: Seq<u64>, i: int, kind: int| #[trigger] g1(hands, i, kind) == draw_gain(game, n)(hands, i, kind) by {
                        assert(Seq::new(npockets as nat, |j: int| draw_high(hands[j])) =~= Seq::new(n as nat, |j: int| draw_game_high(game, hands[j])));
                        assert(Seq::new(npockets as nat, |j: int| draw_low(hands[j])) =~= Seq::new(n as nat, |j: int| draw_game_low(game, hands[j])));
                    }
                    lemma_joker_deals_counted_same(*result, mid, live_joker_cards(joker_deck_left(excluded_first(pockets@, dead.mask, n)), 0), pockets@, 5, n, niter as nat, g1, draw_gain(game, n));
                }
                assert(sampled_as(game, *result, mid, r, pockets@, board.mask, dead.mask, n, nboard, niter as nat));
            }
            r
        },
        Game::Lowball => {
            let r = result.simulate_lowball_game(pockets, dead, npockets, niter, source);
            proof {
                if needed_before(pockets@, 5, n) <= joker_deck_left(excluded_first(pockets@, dead.mask, n)).len() {
                    let g1 = |hands: Seq<u64>, i: int, kind: int| game_contrib(mid.game, Seq::new(npockets as nat, |j: int| 0u32), Seq::new(npockets as nat, |j: int| draw_low(hands[j])), npockets as int, i, kind);
                    assert forall|hands: Seq<u64>, i: int, kind: int| #[trigger] g1(hands, i, kind) == draw_gain(game, n)(hands, i, kind) by {
                        assert(Seq::new(npockets as nat, |j: int| 0u32) =~= Seq::new(n as nat, |j: int| draw_game_high(game, hands[j])));
                        assert(Seq::new(npockets as nat, |j: int| draw_low(hands[j])) =~= Seq::new(n as nat, |j: int| draw_game_low(game, hands[j])));
                    }
                    lemma_joker_deals_counted_same(*result, mid, live_joker_cards(joker_deck_left(excluded_first(pockets@, dead.mask, n)), 0), pockets@, 5, n, niter as nat, g1, draw_gain(game, n));
                }
                assert(sampled_as(game, *result, mid, r, pockets@, board.mask, dead.mask, n, nboard, niter as nat));
            }
            r
        },
        Game::Lowball27 => {
            let r = result.simulate_lowball27_game(pockets, dead, npockets, niter, source);
            proof {
                if needed_before(pockets@, 5, n) <= dealt_live(pockets@, dead.mask, n).len() {
                    let g1 = |hands: Seq<u64>, i: int, kind: int| game_contrib(mid.game, Seq::new(npockets as nat, |j: int| 0u32), Seq::new(npockets as nat, |j: int| lowball27_mask_value(hands[j], cards_of(hands[j]).len() as int) as u32), npockets as int, i, kind);
                    assert forall|hands: Seq<u64>, i: int, kind: int| #[trigger] g1(hands, i, kind) == stud_gain(game, n)(hands, i, kind) by {
                        assert(Seq::new(npockets as nat, |j: int| 0u32) =~= Seq::new(n as nat, |j: int| stud_game_high(game, hands[j])));
                        assert(Seq::new(npockets as nat, |j: int| lowball27_mask_value(hands[j], cards_of(hands[j]).len() as int) as u32) =~= Seq::new(n as nat, |j: int| stud_game_low(game, hands[j])));
                    }
                    lemma_deals_counted_same(*result, mid, live_std_cards(dealt_live(pockets@, dead.mask, n), 0), pockets@, 5, n, niter as nat, g1, stud_gain(game, n));
                }
                assert(sampled_as(game, *result, mid, r, pockets@, board.mask, dead.mask, n, nboard, niter as nat));
            }
            r
        },
        _ => Err(PokerError::UnsupportedGameType),
    };
    res
}


/// Samples `niter` random deals of the variant `game` into `result`, which is
/// first cleared and set to `game`, random sampling and `npockets` players; with
/// `orderflag`, a histogram of hand orderings is started. More players than
/// `ENUM_MAXPLAYERS` is refused before anything changes; a board that does not
/// suit the variant (see `validate_enum_configuration`) and too many players for
/// the histogram are refused after the clearing. The short-deck variant is not
/// sampled by this library: it is refused with `UnsupportedGameType`. The random
/// draws come from a generator seeded with `seed`.
pub fn enum_sample(
    game: Game,
    pockets: &[StdDeckCardMask],
    board: StdDeckCardMask,
    dead: StdDeckCardMask,
    npockets: usize,
    nboard: usize,
    niter: usize,
    orderflag: bool,
    result: &mut EnumResult,
    seed: u64,
) -> (res: Result<(), PokerError>)
    requires
        npockets <= ENUM_MAXPLAYERS && enum_configuration(game, board.mask, nboard, false) is Ok ==> sample_ready(
            game,
            pockets@,
            board.mask,
            dead.mask,
            npockets as int,
            nboard,
            niter as nat,
        ),
    ensures
        sampling_outcome(game, pockets@, board, dead, npockets, nboard, niter, orderflag, *old(result), *final(result), res,
            SampleType::Sample),
{
    enum_sample_from(game, pockets, board, dead, npockets, nboard, niter, orderflag, result, SampleType::Sample,
        &DrawSource::Random(seed))
}

/// Samples `niter` deals of the variant `game` into `result` as `enum_sample`
/// does, the cards of deal `k` being those that `points[k]`, a point of a
/// low-discrepancy sequence, picks (see `point_draw`), and the sample type
/// `QuasiMonteCarlo`.
pub fn enum_qmc(
    game: Game,
    pockets: &[StdDeckCardMask],
    board: StdDeckCardMask,
    dead: StdDeckCardMask,
    npockets: usize,
    nboard: usize,
    niter: usize,
    orderflag: bool,
    result: &mut EnumResult,
    points: Vec<Vec<u64>>,
) -> (res: Result<(), PokerError>)
    requires
        npockets <= ENUM_MAXPLAYERS && enum_configuration(game, board.mask, nboard, false) is Ok ==> sample_ready(
            game,
            pockets@,
            board.mask,
            dead.mask,
            npockets as int,
            nboard,
            niter as nat,
        ),
    ensures
        sampling_outcome(game, pockets@, board, dead, npockets, nboard, niter, orderflag, *old(result), *final(result), res,
            SampleType::QuasiMonteCarlo),
{
    enum_sample_from(game, pockets, board, dead, npockets, nboard, niter, orderflag, result, SampleType::QuasiMonteCarlo,
        &DrawSource::Points(points))
}

/// The variants that `enum_exhaustive` enumerates: hold'em, hold'em eight or
/// better, and Omaha with four, five or six hole cards.
pub open spec fn exhaustively_enumerated(game: Game) -> bool {
    game == Game::Holdem || game == Game::Holdem8 || game == Game::Omaha || game == Game::Omaha5 || game == Game::Omaha6
}

/// What a deal on board `b` gives player `i` of `n` in the exhaustive
/// enumeration of `game`, for counts of kind `kind`.
pub open spec fn exhaustive_contrib(game: Game, pockets: Seq<StdDeckCardMask>, n: int) -> spec_fn(int, int, u64) -> nat {
    |i: int, kind: int, b: u64| if game == Game::Holdem {
        holdem_contrib(pockets, b, n, i, kind)
    } else if game == Game::Holdem8 {
        holdem8_contrib(pockets, b, n, i, kind)
    } else {
        omaha_contrib(pockets, b, n, i, kind)
    }
}

/// The sum over every deal of what `f` gives player `i` for counts of kind `kind`.
pub open spec fn player_deal_sum(
    pockets: Seq<StdDeckCardMask>,
    board: u64,
    dead: u64,
    nboard: usize,
    f: spec_fn(int, int, u64) -> nat,
    i: int,
    kind: int,
) -> nat {
    deal_sum(pockets, board, dead, nboard, |b: u64| f(i, kind, b))
}

/// Counting every deal from zero, with `f`, stays within `u32`.
pub open spec fn deals_fit_from_zero(
    pockets: Seq<StdDeckCardMask>,
    board: u64,
    dead: u64,
    nboard: usize,
    n: int,
    f: spec_fn(int, int, u64) -> nat,
) -> bool {
    &&& deal_setup(pockets, board, dead, nboard).2 <= u32::MAX
    &&& forall|kind: int, i: int|
        0 <= kind < 7 && 0 <= i < n ==> #[trigger] player_deal_sum(pockets, board, dead, nboard, f, i, kind) <= u32::MAX
}

/// `r` holds every deal counted from zero with `f`: one sample per deal, and for
/// each of the first `n` players the sum of what the deals give it.
pub open spec fn deals_counted_from_zero(
    r: EnumResult,
    pockets: Seq<StdDeckCardMask>,
    board: u64,
    dead: u64,
    nboard: usize,
    n: int,
    f: spec_fn(int, int, u64) -> nat,
) -> bool {
    &&& r.nsamples == deal_setup(pockets, board, dead, nboard).2
    &&& forall|kind: int, i: int|
        0 <= kind < 7 && 0 <= i < 12 ==> #[trigger] counter(r, kind)[i] == if i < n {
            player_deal_sum(pockets, board, dead, nboard, f, i, kind) as u32
        } else {
            0u32
        }
}

/// What the exhaustive enumeration of `game` needs of its inputs: hands of at
/// most seven ranks in the hold'em variants, and counts that fit in `u32`.
pub open spec fn exhaustive_ready(
    game: Game,
    pockets: Seq<StdDeckCardMask>,
    board: u64,
    dead: u64,
    n: int,
    nboard: usize,
) -> bool {
    &&& (game == Game::Holdem || game == Game::Holdem8) ==> deals_ready(pockets, board, dead, nboard, n)
    &&& exhaustively_enumerated(game) ==> deals_fit_from_zero(pockets, board, dead, nboard, n, exhaustive_contrib(game, pockets, n))
}

/// The variant that an exhaustive enumeration records: Omaha with five or six
/// hole cards is recorded as Omaha when the whole board is given.
pub open spec fn exhaustive_game(game: Game, nboard: usize) -> Game {
    if nboard == 5 && (game == Game::Omaha5 || game == Game::Omaha6) {
        Game::Omaha
    } else {
        game
    }
}

/// Enumerates every completion of the board `board` of `nboard` cards from the
/// cards that are neither dealt nor dead, for the variant `game`, into `result`,
/// which is first cleared and set to `game`, exhaustive enumeration and
/// `npockets` players; with `orderflag`, a histogram of hand orderings is
/// started. A board that does not suit the variant (see
/// `validate_enum_configuration`), more players than `ENUM_MAXPLAYERS`, and too
/// many players for the histogram are refused after the clearing. Hold'em,
/// hold'em eight or better and Omaha (four, five or six hole cards) are
/// enumerated; the other variants are refused with `UnsupportedGameType`.
pub fn enum_exhaustive(
    game: Game,
    pockets: &[StdDeckCardMask],
    board: StdDeckCardMask,
    dead: StdDeckCardMask,
    npockets: usize,
    nboard: usize,
    orderflag: bool,
    result: &mut EnumResult,
) -> (res: Result<(), PokerError>)
    requires
        npockets <= ENUM_MAXPLAYERS && pockets@.len() == npockets && enum_configuration(game, board.mask, nboard, true) is Ok
            ==> exhaustive_ready(game, pockets@, board.mask, dead.mask, npockets as int, nboard),
    ensures
        final(result).sample_type == SampleType::Exhaustive,
        final(result).nplayers == npockets as u32,
        final(result).game == if res is Ok && pockets@.len() == npockets { exhaustive_game(game, nboard) } else { game },
        enum_configuration(game, board.mask, nboard, true) is Err ==> {
            &&& res == enum_configuration(game, board.mask, nboard, true)
            &&& counts_zero(*final(result))
            &&& final(result).ordering is None
        },
        enum_configuration(game, board.mask, nboard, true) is Ok && npockets > ENUM_MAXPLAYERS ==> {
            &&& res == Err::<(), PokerError>(PokerError::TooManyPlayers)
            &&& counts_zero(*final(result))
            &&& final(result).ordering is None
        },
        enum_configuration(game, board.mask, nboard, true) is Ok && npockets <= ENUM_MAXPLAYERS && orderflag
            && ordering_refused(game, npockets as int) ==> {
            &&& res matches Err(e) && e matches PokerError::Other(msg) && msg@ == if ordering_mode_of(game) == Some(EnumOrderingMode::Hilo) {
                "Too many players for Hilo mode"@
            } else {
                "Too many players for non-Hilo mode"@
            }
            &&& counts_zero(*final(result))
            &&& final(result).ordering is None
        },
        enum_configuration(game, board.mask, nboard, true) is Ok && npockets <= ENUM_MAXPLAYERS && !(orderflag
            && ordering_refused(game, npockets as int)) ==> {
            &&& (orderflag ==> (final(result).ordering matches Some(o) && fresh_ordering(*o, ordering_mode_of(game)->0, npockets)))
            &&& (!orderflag ==> final(result).ordering is None)
            &&& (!exhaustively_enumerated(game) ==> res == Err::<(), PokerError>(PokerError::UnsupportedGameType)
                && counts_zero(*final(result)))
            &&& (exhaustively_enumerated(game) ==> res is Ok)
            &&& (exhaustively_enumerated(game) && pockets@.len() != npockets ==> counts_zero(*final(result)))
            &&& (exhaustively_enumerated(game) && pockets@.len() == npockets ==> deals_counted_from_zero(
                *final(result),
                pockets@,
                board.mask,
                dead.mask,
                nboard,
                npockets as int,
                exhaustive_contrib(game, pockets@, npockets as int),
            ))
        },
{
    result.clear();
    result.game = game;
    result.sample_type = SampleType::Exhaustive;
    result.nplayers = npockets as u32;
    proof {
        assert(counts_zero(*result));
    }
    match validate_enum_configuration(game, board, nboard, true) {
        Err(e) => {
            return Err(e);
        },
        Ok(()) => {},
    }
    if npockets > ENUM_MAXPLAYERS {
        return Err(PokerError::TooManyPlayers);
    }
    if orderflag {
        let mode = match game {
            Game::Holdem | Game::Omaha | Game::Omaha5 | Game::Omaha6 | Game::Stud7 | Game::Draw5 | Game::ShortDeck => EnumOrderingMode::Hi,
            Game::Razz | Game::Lowball | Game::Lowball27 => EnumOrderingMode::Lo,
            Game::Holdem8 | Game::Omaha8 | Game::Omaha85 | Game::Stud78 | Game::Stud7nsq | Game::Draw58 | Game::Draw5nsq => EnumOrderingMode::Hilo,
            Game::NumGames => {
                return Err(PokerError::UnsupportedGameType);
            },
        };
        match result.allocate_resources(npockets, mode) {
            Err(e) => {
                return Err(e);
            },
            Ok(()) => {},
        }
    }
    let ghost mid = *result;
    let ghost n = npockets as int;
    let ghost f = exhaustive_contrib(game, pockets@, n);
    proof {
        assert(counts_zero(mid));
        if pockets@.len() == npockets && exhaustively_enumerated(game) {
            assert forall|kind: int, i: int| 0 <= kind < 7 && 0 <= i < n implies #[trigger] counter(mid, kind)[i]
                + deal_sum(pockets@, board.mask, dead.mask, nboard, |b: u64| f(i, kind, b)) <= u32::MAX by {
                assert(player_deal_sum(pockets@, board.mask, dead.mask, nboard, f, i, kind) <= u32::MAX);
            }
            assert(deals_fit(mid, pockets@, board.mask, dead.mask, nboard, n, f));
        }
    }
    let res = match game {
        Game::Holdem => {
            proof {
                assert(f == (|i: int, kind: int, b: u64| holdem_contrib(pockets@, b, n, i, kind)));
            }
            result.exhaustive_holdem_evaluation(pockets, board, dead, npockets, nboard)
        },
        Game::Holdem8 => {
            proof {
                assert(f == (|i: int, kind: int, b: u64| holdem8_contrib(pockets@, b, n, i, kind)));
            }
            result.exhaustive_holdem8_evaluation(pockets, board, dead, npockets, nboard)
        },
        Game::Omaha | Game::Omaha5 | Game::Omaha6 => {
            proof {
                assert(f == (|i: int, kind: int, b: u64| omaha_contrib(pockets@, b, n, i, kind)));
            }
            result.exhaustive_omaha_evaluation(pockets, board, dead, npockets, nboard)
        },
        _ => {
            return Err(PokerError::UnsupportedGameType);
        },
    };
    proof {
        if pockets@.len() == npockets {
            assert(crate::enumerate::result::deals_counted(*result, mid, pockets@, board.mask, dead.mask, nboard, n, f));
            assert forall|kind: int, i: int| 0 <= kind < 7 && 0 <= i < 12 implies #[trigger] counter(*result, kind)[i] == if i < n {
                player_deal_sum(pockets@, board.mask, dead.mask, nboard, f, i, kind) as u32
            } else {
                0u32
            } by {
                assert(counter(mid, kind)[i] == 0);
            }
        } else {
            assert forall|kind: int, i: int| 0 <= kind < 7 && 0 <= i < 12 implies #[trigger] counter(*result, kind)[i] == 0 by {
                assert(counter(mid, kind)[i] == 0);
            }
        }
    }
    res
}

} // verus!
