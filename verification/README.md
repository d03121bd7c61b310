# uniworld

Unicode text algorithms with machine-checked contracts: bidirectional
layout (UAX #9), line breaking (UAX #14) with dictionary refinement for
Thai, Lao, Khmer and Myanmar, text segmentation (UAX #29), normalization
(UAX #15), case mapping, display width, safe truncation and cursor
movement.

The dictionary functions take the word lists as a `Dictionaries` value;
the library ships no word lists. `Dictionary::from_data` reads a list in
the format of the ICU break-iterator dictionaries (one word per line), and
`app/dictionaries.rs` loads `thai.dict`, `lao.dict`, `khmer.dict` and
`myanmar.dict` from a directory. A dictionary keeps its words sorted, each
once, and looks them up by binary search. Without word lists, every
character of a Thai, Lao, Khmer or Myanmar run counts as a word of its own.

The library in `src/` is verified with Verus. Each public function states
its result exactly over spec functions that follow the rules of the
standard it implements; the character properties (bidi class, line break
class, grapheme break, combining class, decompositions, case mappings) come
from `icu_properties`, `icu_casemap` and `unicode-normalization`, through a
small set of trusted wrappers in `src/data/`. The versions named in
`Cargo.toml` (`icu_properties` 2.1, `icu_casemap` 2.1,
`unicode-normalization` 0.1.25) carry the Unicode 17.0 character database;
moving to a later version of those crates moves the results to the
Unicode version it carries.

Layout:

- `src/text.rs`: UTF-8 positions, character and byte offsets.
- `src/data/`: character property lookups and range tables.
- `src/bidi/`: paragraph level, explicit levels, isolating run sequences,
  weak, bracket-pair and neutral types, implicit levels, L1 and L2.
- `src/linebreak/`: the pair-table rules of UAX #14 and the dictionary pass.
- `src/segment/`: grapheme cluster, word and sentence boundaries.
- `src/normalize/`, `src/casemap/`, `src/width/`, `src/truncate/`,
  `src/cursor/`: the operations built on them.
- `tests/`: the test suite.
- `app/`: C, Python and WebAssembly bindings and the word-list loader
  (not verified).
