# grep-like matcher

A small `grep -E`: patterns are cut into tokens (single characters, escapes
such as `\d` and `\w`, bracket classes, `{n,m}` quantifiers and groups), and
a backtracking search reports the matches of those tokens in a line of text.

`src/` is the library, checked by Verus:

- `semantics.rs` states, step by step, what the search computes, including
  where it panics and where it does not finish (`search_finishes`).
- `matches.rs` is the search. It runs within a step budget:
  `try_matchgen(p, t, budget)` returns `None` exactly where the search panics
  or has not finished within the budget, and the matches otherwise;
  `matchgen` returns exactly `matches_of` for a search that finishes within
  `u64::MAX` steps. Each time it reads the bound of a `{n,}` or `{n,m}`
  quantifier on a single token it writes a line `maxtimes: N` to standard
  output.
- `helpers.rs` holds the character classes, the splitting of a group at `|`
  (`get_options`) and the tokenizer (`pattern_splitter`, `split_pattern`,
  and `try_pattern_splitter`, which returns `None` where tokenizing panics).
- `text.rs` measures character sequences in UTF-8 bytes, as string lengths
  and slicing do.
- `lengths.rs`, `budget.rs` and `laws.rs` prove properties of the search:
  reported lengths stay inside the text, the result does not depend on the
  step budget, matches are pieces of the text in order without overlap
  (each starting after the one before, in an ASCII text), a search for a
  literal finds it exactly when it occurs, and on one character a negated
  class is the complement of the class. The length and order properties are
  proved for texts of at most `i32::MAX` bytes: the lengths are `i32`, and
  past that size the search's casts of positions to `i32` wrap.
- `repetition.rs` relates the repetition operators: `c*` is `c{0,n}`, `c+`
  is `c` then `c*`, `{n}` is `{n,n}`, and raising a `{n,m}` bound keeps a
  match.
- `captures.rs` shows that a match step keeps the captures it was given, and
  changes none without a group, an alternation or a back reference.
- `termination.rs` bounds the steps of a starred group whose every round
  consumes a character.
- `rendering.rs` shows that the tokens of a well-formed pattern give the
  pattern back.

`app/main.rs` is the command line: options, files, standard input, output.
