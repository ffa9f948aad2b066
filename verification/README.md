# rigor_infer

The inference core of a Ruby type checker, written in Verus: constant
folding of value-pinned literals, the receiverless `Kernel` conversions
(`format`, `String()`, `Integer()`), shape projections on array and hash
literals, and the flow passes that record, per call or predicate, what a
local is known to hold.

Every function under `src/` carries a contract that Verus proves.

- `scalar`, `text`, `offsets`, `float_bits`, `decimal`: value-pinned
  literals, character and UTF-8 helpers, exact reasoning about binary64
  encodings, and the correctly rounded binary64 value of a decimal literal.
- `folding`, `lookup`: the fold catalogue, the `String` lookup folds, and
  the `RubyFolder` trait through which a sidecar answers a routable call
  the core declines (`TableFolder` answers from remembered results).
- `kernel`: `format` / `sprintf`, `String()`, `Integer()`, and the text
  `Float()` accepts.
- `lexer`, `parser`, `ast`: a Ruby subset lowered to an arena whose children
  precede their parents. The parser stands in for a full Ruby parser: it
  reads ASCII source only, and its contracts fix the tree only for the forms
  they name.
- `types`, `env`, `names`: the hash-consed type table with its union join,
  the binding environment, and small name-keyed maps and sets.
- `shape`: `Tuple` and `HashShape` projections and the dispatch cascade.
- `flow`: expression typing (an `if` or `case` types to the join of its
  branch values, a known predicate keeping only the live branch), the
  top-level environment and the collection-shape snapshots.
- `truthy`: the predicate snapshots of the flow-constant substrate.
- `nilflow`: the possible-nil receiver snapshots.

`app/` holds what stays outside the proofs: `Float` arithmetic, the
`Float()` value (of the text the library accepts) and the `Float#to_s`
spelling, which rest on `f64`
operations.

Not here: the `is_a?` / `case`-`when` class-narrowing pass and the typer's
return typing from RBS signatures. Both read class ancestry and method
signatures from the core class index, which this crate does not include.
`flow::type_of_with_folder` types with a sidecar behind the fold tier;
`flow::type_of` types without one.
