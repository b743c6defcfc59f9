# rune_interpreter (verified core)

The logic of the Rune JavaScript interpreter's runtime library, written in
Verus: every function in `src/` carries a `requires`/`ensures` contract that
Verus proves, and the properties that relate several functions are stated
and proved as `law_*` proof functions.

## Layout

- `src/errors.rs` — the seven error kinds, their names and prototype
  indices, the legacy `"Kind: message"` encoding and `Error.prototype.toString`.
- `src/ic.rs` — per-callsite inline caches (lookup and insert) and recorded
  loop traces.
- `src/text.rs`, `src/units.rs`, `src/replacement.rs` — string algorithms:
  split, replace, join, searches over UTF-16 units, padding, repeat, and
  `$`-pattern expansion of replacement strings.
- `src/json.rs`, `src/json_laws.rs` — `JSON.parse` and `JSON.stringify` over
  a plain JSON value type (with `undefined` resolved before writing);
  reading back what was written gives the value.
- `src/json_graph.rs` — `JSON.stringify` over values that refer to each
  other by index, where a value that contains itself is written like
  `undefined` and reported as a circular structure.
- `src/descriptor.rs` — ToPropertyDescriptor and the decision of
  `[[DefineOwnProperty]]` for ordinary objects and dense-array indices.
- `src/regexp_flags.rs` — regular-expression flags as bits and back.
- `src/array_index.rs`, `src/array_ops.rs` — index clamping, canonical
  numeric keys, and the element moves of `splice`, `copyWithin`, `reverse`.
- `src/regex_loops.rs` — the loops of `split` and `replaceAll` with a
  regular-expression pattern, driven by the matches a regex engine reports,
  and the first step of a `replaceAll` whose replacement is a function.
- `src/flatten.rs` — `Array.prototype.flat` over nested arrays.
- `src/number_text.rs` — what `parseInt` and `parseFloat` read from text.
- `src/typed_layout.rs` — typed-array views over buffers, and `set`.
- `src/sort.rs` — the stable bottom-up merge sort, advanced one comparison
  at a time, and the default UTF-16 comparison.
- `app/` — plain Rust around the library: rkyv-archivable copies of the
  inline-cache types, the sort driver loop, and the floating-point edges of
  the number readers.
- `tests/` — tests of the library on concrete values.
