# inference_engine

A small inference engine over Prolog-like terms, verified with Verus.

- `src/types.rs`: terms, facts, rules, knowledge bases (no fact or rule twice), substitutions
  and proof trees, each with its mathematical model.
- `src/parser/`: reading the Prolog-like syntax (`parser`) and simple French sentences
  (`parser2`).
- `src/engine/`: unification, forward chaining (rounds until nothing new is derived) and
  backward chaining (proof trees; the search is followed wherever it ends).
- `src/exporter.rs`: writing a knowledge base as text in three formats; `src/roundtrip.rs`
  proves that the compact format reads back as the same knowledge base.
- `src/visualize.rs`: the layout of a proof tree as boxes, in `u32` arithmetic that is proved
  not to overflow.
- `src/session.rs`: what the interface does with what its user types.
- `src/text.rs`: string helpers, and the contracts given to the standard library functions
  that the rest calls.
- `app/`: a command-line front end (file input, interactive session, PNG drawing of proofs,
  saving to files).
- `tests/`: tests on concrete values.
