# multi_skill

Ratings for the contestants of programming contests, from the standings of the contests
they took part in.

`src/` is the library. Its functions state in their contracts what they compute, and Verus
proves that they do. The calls into other code are trusted, not proved: the sort of the
standard library, the shuffle of `rand`, the parallel map of `rayon` and the parser of
`serde_json`.

- `data_processing`: contests, changing and splitting their standings; which dataset and
  which file format a name stands for
- `standings`: what makes standings valid, and what ranking them anew means
- `compute_ratings`: players' records, and what a contest does to them
- `cf_system`: a round of the Codeforces rating system
- `root_search`: the decisions of the search behind a robust average
- `summary`, `ratings_table`, `titles`: the leaderboard, the ratings table, and titles
- `roster`, `means`: players under their handles, and the means of their ratings
- `double`: double-precision numbers as bits, with their equality, order and rounding
- `order`, `counting`, `text`: sorting, counting and writing

Floating-point arithmetic is not part of the library: its results are handed in, as bits, or
come from a function that is handed in.
`app/` does that arithmetic, and reads and writes files. `tests/` runs the library on
examples.
