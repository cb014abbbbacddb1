# Curly-brace arithmetic languages

Three small languages, each read from one line of text and evaluated:

- `ae`: numbers, `{+ l r}`, `{- l r}`.
- `wae`: adds one-letter identifiers and `{with {x e} body}`, evaluated by
  substitution.
- `lfae`: adds `{fun {x} body}` and application `{f a}`; arguments are passed
  as thunks and forced only where a value is needed; `with` is read as an
  application of a function.

Each parser scans its text once to find where the parts of the outermost form
are (`subst_index`), cuts them out (`substring`) and parses them in turn. The
scans, the cuts (by byte position on the UTF-8 encoding), the parsers and the
evaluators are verified with Verus in `src/`, each against a specification
written over the character sequence of the text.

Numbers are kept as terms: a literal as written, or a sum or difference of
numbers (`src/num.rs`). The program in `app/` reads lines, calls the library,
and computes the float value of the resulting terms.

Layout:

- `src/text.rs`: cutting a byte range out of a text, where `&s[a..b]` allows it.
- `src/ae.rs`, `src/wae.rs`, `src/lfae.rs`: the three languages.
- `src/wae_text.rs`, `src/lfae_text.rs` (and the end of `src/ae.rs`): what the
  parsers make of well-formed texts written with single spaces: the expression
  written, with or without a trailing line break.
- `tests/`: tests on concrete inputs.
- `app/`: the read-eval-print loops (`main [ae|wae|lfae] [-p x]`).
