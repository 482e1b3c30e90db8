# tarot_solitaire

A solitaire played with a 74-card deck: the 52 common cards and 22 trumps
(ranks 0 to 21). The trumps are sorted onto two foundations, up from 0 and down
from 21, until the last one goes to a place of its own; the common cards are
built up by suit on four foundations that start with the aces. Eleven tableau
columns build up or down by suit, and three free cells each hold one card, at a
price: the left one blocks the trump foundations while filled, the right one the
common foundations, and the middle one may be used once.

The rules and the game state are written in Verus and verified:

- `src/card.rs`: suits, cards, the deck and its law (every card once).
- `src/board.rs`: depots and their roles, the board, dealing, moving cards,
  replaying and taking back a history.
- `src/game.rs`: the session state and its operations (select, move, sort by
  double click, animation steps, restart, undo, new game) with exact contracts,
  and the state invariant that every operation keeps.
- `src/census.rs`: counting the cards and the trumps on the board.
- `src/laws.rs`: laws of the game: the free-cell and foundation rules, the
  conservation of cards, the foundations staying built in order, a game
  being won exactly when every card is on the foundations,
  wins counted once per game, undo taking back exactly the last move, and
  undoing every move ending where a restart does.
- `src/shuffle.rs`: the random generator and the shuffle, whose result is
  stated as a permutation of the deck.

`app/` is the Dioxus web front end: the board drawing, the rules screen, saving
to the browser's local storage and the animation clock. `tests/` runs the
library on concrete games.
