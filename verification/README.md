# blackjack

A blackjack table for the browser, with its rules verified by Verus.

- `src/` is the verified library:
  - `engine::cards` — suits, ranks, cards, the 52-card deck (laid out, shuffled, drawn from);
  - `engine::game` — a hand and its blackjack score;
  - `wallet` — the player's chips;
  - `network::protocol` — the messages players exchange;
  - `identity` — short random player identifiers;
  - `table` — one seat at the table: bets, the deal, hitting, the dealer's turn and the payout.
- `tests/` runs the library on concrete values.
- `app/` is the egui front end and the peer-to-peer connection; it holds
  serde-enabled copies of the message types and drives `table::Table`.
