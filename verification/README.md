# lychrel196

A verified engine for the 196 reverse-and-add search: repeatedly add a number
to its digit reversal, looking for a palindrome.

Numbers are digit arrays, least significant digit first. The library (`src/`)
is checked by Verus:

- `number`: the model — the value of a digit array, the carry chain of adding
  a number to its reversal, and the laws (the step computes `N + reverse(N)`,
  digit sums double modulo 9, carry-select restarts agree).
- `kernels`, `swar`, `par`: the per-digit, eight-digits-per-word and
  multi-threaded (rayon, carry-select) kernels, each proved to compute the
  same reverse-and-add.
- `digits`, `text`: decimal text, trimming, lines and number parsing.
- `milestones`, `checkpoint`, `search`: the milestone table, the progress
  file and resuming, and the decisions of a long run.

`app/` is the command-line program around it: arguments, files, clocks and
printing.
