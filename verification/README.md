# Front matter for notes

A verified library for the front matter of notes: the `key: value` block
between `---` fences at the top of a note's text.

- `src/text.rs`: characters, Unicode whitespace, trimming, line splitting and
  joining, as spec functions with executable counterparts.
- `src/model.rs`: the model (a sequence of key/value character sequences) and
  spec functions for lookup, update, merging, writing, parsing and typed values.
- `src/frontmatter.rs`: `FrontMatter`, `FrontMatterValue`, `parse_front_matter`
  and the value helpers, each proved against the model.
- `src/laws.rs`, `src/round_trip.rs`: properties across operations, among them
  that writing a front matter above a body and parsing the text gives both back.
- `tests/`: scenario tests.
