# match_lowering

Lowering of pattern matching: `match` expressions, `if let` and `while let` on enums, on the outcome
of a call, on tuples of enums, and on numbers. The library decides which arm takes which value, what
is unreachable, missing or unsupported, and what the lowered matches look like. It is verified with
Verus.

- `src/`: the library.
  - `syntax`, `diagnostic_utils`: syntax nodes and stable locations.
  - `semantic`, `diagnostic`, `context`: the model that is lowered, and what is reported of it.
  - `match_arms`: arms, patterns in them, and the underscore pattern.
  - `variant_match_tree`, `enum_match`: matches on an enum, and on the outcome of a call.
  - `variants_map`, `tuple_match`, `tuple_tree`, `tuple_expr`: matches on a tuple of enums.
  - `value_match`: matches on a number, by tests or by a jump table.
  - `match_groups`: arms with all the leaves that lead to them.
  - `match_expr`: match expressions as a whole.
  - `lowered`: the lowered program.
  - `adapters`: calls into other crates, with contracts that are taken from their documentation.
- `app/`: drives the library on a backend that emits variables, calls and blocks.
- `tests/`: tests.

A match is lowered in two steps. A `lower_` function reads the patterns, reports what is wrong with
them, and says which leaves there are. After the leaves were emitted, a `conclude_` function takes up
what was reported meanwhile, leaf by leaf, reports the leaves without an arm in their turn, groups
the leaves by their arms and makes the lowered match.
