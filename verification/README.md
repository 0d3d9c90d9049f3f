# wordle_solver

A Wordle solver whose core is verified with Verus: the response function, the
response cache and partition index, candidate sets as bitsets, the scoring
heuristics, the heuristic game simulation, and the branch and bound search for the
best first guess.

## Layout

- `src/` — the verified library.
  - `bits` — `BitSet` (a dense bitset over candidate indices) and its iterator.
  - `resp` — responses (B/Y/G), their indices, `get_resp`, the response cache and the
    partition map.
  - `plan` — the model of a strategy (`Plan`), its total cost, achievability, and the
    admissible lower bound `2k - 1`.
  - `part` — the classes of a guess over a candidate set, from the response cache.
  - `strat` — letter frequencies, the max-frequency and min-remaining scores and picks,
    and reading the optimal guess back from the memo.
  - `policy`, `sim` — guess policies and the simulation of a policy over all secrets.
  - `solver` — guess filtering and the branch and bound search.
  - `words`, `play`, `game` — word lists, typed responses, candidate filtering.
  - `cache` — the memo of best totals (a `DashMap`).
- `tests/` — tests of the library.
- `app/` — the command line program: word files, the memo file, plotting, the
  interactive game.

## What is proved

- Responses and their indices convert both ways; a response is all green exactly when
  the guess is the secret word.
- Every strategy needs at least `2k - 1` guesses in total for `k` candidates.
- A simulated policy's distribution of guesses is exactly that of the policy's own
  strategy, and its total is the cost of some strategy for the candidates.
- With a memo of fewest totals and a covered cache, the search returns the fewest
  guesses in total that any strategy takes, and a first guess that reaches it,
  whenever the min-remaining strategy can be played out; memo entries are only
  added, and each stays the fewest guesses for its set.
- Spelling the arrays of `words_to_arr` back as words gives the words given, and
  recording words one by one totals their numbers of guesses.
- The scores and picks, partitions, word parsing and sorting meet exact contracts.
