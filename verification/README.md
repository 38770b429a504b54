# oxidado

The card game "Oxidado" for an even number of players (four or more),
played with the 48 cards of the Spanish deck. A coordinator deals the cards
and, each round, announces whether the round is silent ("silenciosa") or
spoken ("hablada"). In a spoken round each player says "Oxidado" or "Paso".
Then every player puts a card on the pile: the first to do so wins 1 point,
the last loses 1, the players whose card no other beats win 10, and in a
spoken round saying "Oxidado" wins 5 more with such a card and loses 5
without one. After the last round the players with the highest score win.

- `src/` is the library, verified with Verus: the deck and the dealing
  (`cards`), the texts of the messages (`text`, `message`), the
  coordinator's rules (`coordinator`, `score`, `game`), the choices and
  cards of a round kept by player id (`idmap`), the table's sends
  (`table`) and a player's part (`player`).
- `app/` runs a game with one thread for the coordinator, one for the table
  and one for each player, talking through channels; `--debug` also keeps
  the players' lines in a log file with their times.
- `tests/` exercises the library on concrete games.
