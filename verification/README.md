# wow_coach_core

The library behind the WoW Coach companion: it reads what the collector addon
saves, keeps a history of it, and turns both into advice about which character
to play, which to park, what the roster holds and what it is worth.

The functions under `src/` are verified with Verus: each contract states what
the function returns for every input it accepts. A handful of small wrappers
around the standard library and `ciborium` (appending a character, lowercasing,
lossy UTF-8 decoding, CBOR decoding) are trusted rather than proved; each says
in its doc comment what its contract claims of the call it makes.

- `lua`, `literal`, `schema`, `collector` — the restricted Lua subset the addon
  writes, its number literals, and the typed records read out of it.
- `auctionator` — Auctionator's price database, with its CBOR realm blobs.
- `history` — snapshots, what changed between them, and the store's lines.
- `roster`, `coaching`, `classify`, `economy`, `gap` — roles, the play
  rotation, role suggestions, the roster's holdings, and characters not yet
  captured.
- `identity`, `snapshot` — canonical character identities and storage keys.
- `present` — how figures are written and answers are read.
- `order`, `text` — stable sorting and sorted string maps.

`app/` is the `wow-coach` command line around the library: finding files,
reading and writing them, serde models, and the few ratios shown as floating
point. `tests/` exercises the library on concrete inputs.
