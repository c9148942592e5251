# core_logic

The rules of coinche, the French trick-taking card game, as a verified Verus
library.

- `src/playing.rs`: cards, hands, the deck, the deal and the rules of the playing phase
  (`playing_request`, `master`), with the laws that relate them.
- `src/bidding.rs`: the rules of the bidding phase (`bidding_request`).
- `src/party.rs`: the state machine of a round, bidding then playing, and the
  law that no card is lost or created while the round goes on.
- `src/server_logic.rs`: the state that the server keeps between two moves.
- `src/game_logic.rs`: the first set of card rules, where a rank is a number
  from 7 to 14 and cards compare by rank.
- `src/rng.rs`: the thread-local generator of `rand` and its shuffle, used to
  deal the cards.
- `app/main.rs`: deals a deck and prints it.
