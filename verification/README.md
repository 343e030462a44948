# poker_eval_rs

Poker hand evaluation over bit-mask card sets. The library's functions are
proved by Verus against their contracts; the calls it makes into `rand` and
into std's formatting are trusted wrappers, each with its stated contract.

- `tables`, `deck`, `deck_std`, `deck_joker`: card masks of the standard
  (52 cards), joker (53), short (36) and manila (32) decks, parsing and naming
  of cards, and card-name round trips.
- `ranks`, `bits`, `handval`: rank masks, packed hand values and their fields.
- `eval`, `eval_low`, `eval_low8`, `eval_low27`, `eval_omaha`, `eval_joker*`:
  high hands, ace-to-five, eight-or-better and deuce-to-seven lows, Omaha
  two-plus-three hands, and joker-deck hands. The hand type of a hand of five
  to seven cards is proved to be the best category, in the standard ranking, of
  five of its cards, and renaming the suits is proved to leave a value
  unchanged.
- `board`: board textures and outs.
- `combinations`, `combinaison`: combinations of indices in lexicographic order,
  with their count proved to be the binomial coefficient.
- `enumord`: the encoding of hand orderings.
- `enumerate`: enumeration of the deals of each variant, exhaustive and random,
  and the counts of wins, ties, losses, scoops and shared pots they produce.
  The short-deck variant is not evaluated here: it is refused as an unsupported
  game type.

Random draws come from `rand`'s small generator, seeded with a number the
caller gives; quasi-random draws come from points of a low-discrepancy sequence
that the caller computes (`app/` does, in floating point). What is stated of the
draws is what holds of every outcome (each draw takes live cards only, and the
counts are those of the deals drawn).

`app/` holds what needs floating point, standard output, files or serde:
expected values, printing of results and histograms, quasi-random points, and a
serializable copy of the results.
