# optiwork

A verified library for measuring optimizations, with a regular-expression engine as its
subject.

Is it faster? A single run of a timer mixes real gains with noise. This library holds the
rules that make such a decision trustworthy, and Verus proves that its code follows them:

- fixed work, reported in a versioned record that is checked field by field;
- paired comparisons in preregistered ABBA/BAAB blocks, which are never replaced;
- equivalence gates that fail closed, before anything is timed;
- a keep/reject rule that is frozen before any result is seen, and a held-out confirmation.

The subject is a small regular-expression engine with four matchers: backtracking, a Pike
VM, a literal prefilter in front of it, and a lazy DFA. They report the same spans on every
pattern and every input, so that a difference between them can only be one of speed.

## Layout

- `src/`: the library. Every function states what it does in `requires` and `ensures`, and
  the laws that span functions are public proof functions.
  - Patterns: `byte_class`, `ast`, `parser`, `language`.
  - Matchers: `naive`, `thompson` (on `automaton` and `lockstep`), `prefilter`, `lazy_dfa`,
    `engine`, `scan`; `agreement` shows why they agree.
  - Corpora and references: `corpus`, `oracle`, `sota`.
  - Measurements: `text`, `record`, `arguments`, `paired`, `subject`.
  - Campaigns: `config`, `campaign`, `design`, `echo`, `ladder`; `handover` shows that the
    programs understand each other.
- `tests/`: tests of the library.
- `app/`: the programs around it. They read and write files, run processes, and compute the
  statistics, which need floating-point numbers.

The calls into `memchr` and `regex` stand behind small functions whose contracts are
believed rather than proved; each says so in its doc comment.
