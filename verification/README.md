# zwirn

Zwirn keeps source fragments embedded in Audulus 4 documents (`.audulus4`)
synchronized with files beside them. Markers in node source name a fragment
and its file; a closing-marker hash records the last synchronized content.

The library under `src/` is written in Verus and verified:

- `text` — byte and UTF-8 helpers, byte-wise path order.
- `adls` — the narrow FlatBuffer view of a document: parsing every reached
  structure, reading source fields, and rewriting them by appending strings.
- `adls_laws`, `adls_valid` — what a rewrite reads back, what it keeps, and
  that a rewrite of a well-formed document is well formed.
- `fragment` — fragment paths, canonical source, baseline hashes, the marker
  grammar, and surgical rewriting of marked source.
- `fragment_laws`, `fragment_readback` — that a recorded hash reads back on
  its closing marker, and that rewritten source parses back to the same
  fragments with their new content and baselines, all other text kept.
- `reconcile` — the synchronization state table and operation planning.
- `inventory` — fragment discovery, target naming and validation, and
  selection.
- `commit` — ordered writes of prepared outputs, each effect recorded with
  what it returned.
- `engine` — request resolution, classification, planning, materialization,
  and reporting.
- `access`, `live` — access policies, and the scheduling and diagnostics of a
  live session.

`app/` is the command-line program: argument parsing, filesystem access
through `cap-std`, and messages. `tests/` exercises the library.
