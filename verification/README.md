# codeowner

Parse GitHub `CODEOWNERS` files and answer one question: who owns this file?
Every operation is written in Verus and proved against a specification. The
one trusted item is `text::string_of`, which builds a `String` from
characters with std's `String::from_iter`; its contract (the string holds
exactly those characters, in order) is taken on trust.

- `text` — white space, searching, splitting into lines and into runs
  between separators, trimming.
- `glob` — the `*`/`?` segment matcher, proved equal to the recursive glob
  semantics.
- `pattern` — compiling pattern text (refusing `!`, `[ ]` and empty patterns)
  and matching paths, specified over `compile` and `pattern_matches`.
- `owner` — `@user`, `@org/team` and email owners.
- `render` — decimal numbers for error reports.
- `lib.rs` — rules, errors and `CodeOwners`: `parse` is specified line by line
  (`line_outcome`), `rule_for`/`of` return the last matching rule, and
  `shadowed` reports rules followed by a pattern that matches every path
  theirs does: the same pattern, a catch-all, or one theirs is found within
  (`pattern_within`, a side-by-side walk of the two patterns that is proved
  sound but does not look at several later rules together).
  A type invariant keeps rules and errors in file order, numbered from 1.
- `laws` — properties of the whole: the last match decides, `all_matching`
  ends with the decider, shadowed rules never decide, a pattern found
  within another matches only paths the other matches, catch-alls match every
  path, every non-blank line becomes one rule or one error, blanking an
  invalid line removes only its error, owners round-trip through their text,
  and the depth behaviour of patterns.
