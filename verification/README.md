# quoridor_policy

Quoridor positions packed into machine words, minimax over them, and the policy
databases that hold the results.

- `src/` is the library. Every function in it but the trusted items is verified
  with Verus.
  - `bits`, `layout`: bit fields, and where the parts of a state stand.
  - `q_bit_repr`, `word_repr`: accessors of states of 192 bits and of 64 bits.
  - `display`, `text`: boards as text art, numbers as text.
  - `rules`, `q_game_mechanics`: the rules, stated on boards and executed on
    states.
  - `progress`: why a player always has an action.
  - `game_value`, `minimax`, `shared_search`: the value of a game under best play,
    and the searches that compute it.
  - `table`: the transposition table and the random order of moves. The items
    here, and the two sorts in `rows`, are trusted.
  - `rows`, `policy_db`, `lookup`, `fetch`, `action_values`, `policy_file`: policy
    databases without their file format.
  - `round_trip`: what is written is what is read.
- `app/` puts policy databases into Parquet files and runs searches on several
  threads.
- `tests/` runs the library.
