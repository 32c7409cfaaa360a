# tiped_lang

Type inference for a small ML-like language (Hindley–Milner, algorithm W),
with its lexer, written in Verus and verified.

## Layout

- `src/lexer.rs` — tokens, the lexer, its mathematical model (`spec_next`,
  `spec_lex`, `lex_text`) and its laws: positions only grow, unknown tokens
  and misplaced characters come in pairs, an unterminated string ends
  lexing, lexing is stepping until the end, tabs lex like spaces, and a
  spelled token lexes back to itself.
- `src/text.rs` — character classification, string building and debug
  formatting from `std`, behind small trusted wrappers.
- `src/tree.rs` — types, expressions and declarations, and the value `Ty` of a type.
- `src/subst.rs` — substitution and unification as mathematics, with the
  proofs that unification terminates, is sound and eliminates what it binds.
- `src/infer.rs` — the model of environments, instantiation, generalization,
  constraint building and declarations, with the proof that inferred types are closed.
- `src/assoc.rs` — name-keyed lists standing for maps.
- `src/typing.rs` — the Hindley–Milner typing relation (`typed`) and the
  proofs that the constraints built for an expression, and the scheme
  inferred for it, are sound for expressions whose `let`s lie outside any
  `fun`, and that unification is complete and most general.
- `src/typer.rs` — the executable typer (`Environment`), verified against the model.
- `app/main.rs` — a command-line front end that lexes files and standard input.
