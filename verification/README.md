# phragmen

Sequential Phragmén election and equalise post-processing, as a Verus library.

* `elect` distributes the stake of a set of voters over the candidates it elects, round by
  round electing the candidate of least score, and hands back each voter's share of
  `ACCURACY` in each winner it backs. `elect_staked` is the same election with the stakes
  given beside the candidates and voters.
* `equalize` moves each voter's stake towards the least supported of its candidates, for a
  number of passes or until every voter's support is within a tolerance of even;
  `do_equalize` does it for one voter and `equalize_round` for one pass with the stakes given.

Layout of `src/`:

* `election_spec.rs`, `equalize_spec.rs`: each phase as spec functions; the contracts of the
  public functions are stated over them.
* `election.rs`, `shares.rs`, `equalize.rs`: the executable code, proved against them.
* `election_lemmas.rs`: what holds between rounds (no voter's load exceeds a standing
  candidate's score, edge loads stay within the voter's load), which rules out overflow.
* `filling.rs`: what spreading a voter's budget anew does: the least supported candidates are
  lifted to one level, the walk stopping at the first that the budget cannot lift.
* `budget.rs`: spreading a voter's budget anew never hands out more than the budget, with
  saturating arithmetic included.
* `consistency.rs`: equalising keeps each support's total equal to its own stake plus its
  entries, and each voter's entries equal to its edges.
* `laws.rs`: properties of every election and equalisation.

Two items are trusted, both in the equaliser: the wrapper around the standard library's
unstable sort in `equalize.rs`, and `sorted_by_first` in `equalize_spec.rs`, the name for the
permutation that sort yields (it is deterministic; which of two equal keys comes first is left
unsaid). The wrapper states that the result is an ascending permutation of its input.
