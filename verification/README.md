# grammar_macros

Readers for grammar-rule definitions written inside a procedural macro's
input, verified with Verus.

- `src/token.rs`: the tokens a macro receives (identifiers, literals,
  punctuation with its spacing, groups) and a cursor over them.
- `src/rules.rs`: rules `name -> a | b;` and `name -> a b.* c;`, read by
  functions whose contracts give the exact result and the tokens taken, as
  spec functions over the token sequence.
- `src/option_rules.rs`: rules `name -> a & b | c;`, likewise.
- `src/rule_laws.rs`, `src/option_rule_laws.rs`: proofs that reading a rule
  does not depend on the tokens after it, that every rule read is well formed,
  that well-formed rules written as tokens read back as themselves, and (for
  the `&` syntax) that only which marks follow a child matters.
- `src/content.rs`: where content lives and spans of it.
- `app/`: the procedural-macro side, which turns the compiler's token streams
  into the library's tokens.
