# draftos

Deterministic legal drafting from a library of precedents, specified and
proved with Verus.

Folders of contracts are attached as knowledge sources. Their files (DOCX,
PDF, text, HTML) are read into paragraphs, cut into clauses, definitions,
recitals and schedules with metadata, and indexed per source for hybrid
search. A matter specification then drives drafting: one precedent is the
skeleton, and the draft keeps its clauses in their order with their
sub-clauses, definitions and schedules, renumbered with every
cross-reference following the new numbers. The contract type's checklist
only advises: a clause type it requires that the skeleton lacks is filled
from another precedent and reported. The draft is validated and rendered to
DOCX (in the precedent's own house style where it came from DOCX) or
Markdown, every clause keeping provenance to the precedent it came from.

## Layout

- `src/` — the verified library. Every function carries a contract over
  mathematical models (`Seq`, `Set`, spec functions) and is proved by Verus.
  - text: `chars`, `strs`, `num`, `words`, `grammar`, `patterns`
  - reading files: `files`, `plaintext`, `html`, `wordml`, `xml`
  - extraction: `model`, `split`, `metadata`, `extract`
  - sources: `index`, `ingest`, `storage`, `retrieval`, `search`, `embed`
  - drafting: `checklist`, `matter`, `lir`, `assemble`, `validate`,
    `drafting`, `preview`
  - rendering: `markdown`, `docx`, `style`, `package`
  - models: `models`, `prompt`
  - `error`, `ids`
- `app/` — the command-line program around the library: argument parsing,
  the SQLite index and app database, file reading, the folder watcher,
  floating-point embedding and rank fusion, HTTP calls to model providers,
  the OS keychain, and JSON (de)serialisation.
- `tests/` — tests of the library's public functions.

Calls into outside crates that the library makes (zip packaging, SHA-256,
UUIDs, the clock, Unicode character classes, path splitting, XML reading) go through small
trusted functions whose contracts state what those crates document.
