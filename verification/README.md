# rregex

A small regular-expression engine, verified with Verus: a recursive-descent
parser, a Thompson construction to an NFA program, and a Pike-style
simulation that runs every thread in priority order.

Syntax: literals, `.`, `[...]` classes (ranges, `^` negation, `\` escapes),
groups, `|`, `*` `+` `?` and their lazy forms, `{n}` `{n,}` `{,m}` `{n,m}`
(lazy with a trailing `?`), `\` escapes, and the anchors `^` and `$`.

## Layout

- `src/cursor` — a cursor over the pattern's characters; reading numbers
  with `u16` overflow detection, skipping white space.
- `src/parser` — the tree (`ast.rs`), the grammar as spec functions
  (`grammar.rs`) and the parser, proved to give exactly what the grammar
  gives, errors included.
- `src/machine` — the compiler (`mod.rs`), the construction as spec
  functions (`thompson.rs`), class tests (`class.rs`), and the language of a
  tree (`language.rs`), with the proof that a compiled program accepts
  exactly that language.
- `src/regex` — `Regex::compile`, `find` and `full_match`; the NFA's
  semantics (`nfa.rs`), the priority-ordered thread lists (`pike.rs`), and
  the error messages (`error.rs`).
- `tests/` — scenarios, run against the compiled library.
- `app/` — a small program that uses the library.

## What is proved

- `parse` returns what the grammar defines, and exactly its errors. No
  concatenation in a parsed tree has an empty side; quantifiers are read to
  the last; an inverted class range is an error, except a range ending in an
  escaped `]`, which is kept as written. Where the pattern's numeric
  characters are its ASCII digits, a brace is read exactly as
  `bound := '{' count ('}' | ',' count? '}')` (and `{,m}`), white space
  allowed around counts, anything else being a literal `{`
  (`lemma_bounded_is_brace`).
- `Regex::compile` builds the program of the Thompson construction of the
  parsed tree; the program is finished (no holes) and closed, its length is
  given by the tree, and exactly one of its states is `Match`. A lazy
  quantifier compiles to the states of its greedy form with one split's
  targets exchanged.
- The compiled program accepts a prefix of the input exactly when the tree
  matches it (`lemma_program_language`); so `full_match` answers membership
  in the pattern's language.
- `find` returns the end of the leftmost-first match: the last position at
  which an accepting thread is listed, with lower-priority threads cut as in
  the simulation. What it reports is always a real match.
- Laws on classes (item order and repetition do not matter, negation is the
  complement), bounded repetition (`x{n,m}` matches `x` repeated between `n`
  and `m` times, `x{n,}` at least `n` times; `x{0,}` compiles as `x*`,
  `x{0,1}` as `x?`, `x{1}` as `x`, `x{0}` as the empty pattern), anchors
  (`a^b` and `a$b` match nothing, repeating an anchor changes nothing) and
  laziness (it never changes the language).
