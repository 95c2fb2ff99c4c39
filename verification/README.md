# TrackFinder

Trail planning for mountain walking, as a Verus library with a program around it.

- `src/` is the library. Every function in it is verified against its contract,
  but for a few wrappers around calls into other crates and std, whose contracts
  are trusted.
  - `trailfmt` — the binary trail archive: tiles, index, varints.
  - `prep` — building an archive from map data, and reading it back.
  - `archive` — fetching an archive file by file.
  - `trails` — ways, the network, the zones it is asked for by, and their store.
  - `graph` — junctions, stretches, shortest walks and routes.
  - `track`, `figures`, `supply` — a track, its figures, and the pack on the way.
  - `tiles`, `map`, `dem`, `terrain` — map and elevation tiles, what is drawn of
    them, and what is read from them.
  - `planner` — what is decided, drawn and said from frame to frame.
  - `number`, `geo`, `text`, `json`, `heap` — what the rest stands on.
- `tests/` runs the library.
- `app/` is the program: window, network, disk, and floating-point arithmetic.
  `trackfinder prepare` builds an archive; without it the planner opens.

Floating-point numbers are bit patterns in the library, where they are only
compared. Sums and formulas come in as values or as functions, and contracts speak
of whatever these give.
