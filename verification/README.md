# auto_json_db

Planning for the `#[auto_json_db(...)]` attribute, verified with Verus.

- `src/text.rs`: character classes (the Unicode `White_Space` list, verified, and
  `regex_syntax::is_word_character`, trusted), verified scans, and `trim`.
- `src/attrs.rs`: the attribute grammar (`word`, `word = "value"`, parted by commas), its
  reading as entries and as a map, `write_attributes`, and the laws that written entries read
  back whatever the white spacing.
- `src/fields.rs`: `|`-separated field lists, their resolution to field positions, and the
  key format string.
- `src/plan.rs`: the decisions of an invocation (`auto_json_db`).
- `app/lib.rs`: the expansion itself: `syn` reads the item, the library plans, `quote` emits.
