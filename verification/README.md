# rst

The model of a requirements-tracking tool, verified with Verus.

- `src/types.rs`: artifact names (`REQ-foo-bar`), their kinds, parents and
  named part-ofs, sets of names, load errors, settings.
- `src/names.rs`: the names-list syntax (`hi-[ho, he], ha`), read one
  character at a time from a `Chars` iterator.
- `src/text.rs`: the text operations names are built from (normalizing,
  splitting, joining), with their specifications and lemmas.
- `src/pattern.rs`: the calls into the `regex` crate that check a name.
- `src/compare.rs`, `src/order.rs`: the order of names.
- `src/export.rs`, `src/logging.rs`: the decisions of the export command and of
  the logger setup.
- `src/laws.rs`: properties that hold across these operations.
- `app/`: the command-line side (clap, fern, log) and the artifact records,
  whose completion ratios are floating point.
