# hypr_flight

A small top-down asteroid shooter built on Bevy. The game rules that do not
depend on floating point live in a Verus-verified library (`src/`); the Bevy
application around them (`app/`) does the rendering, input, timing and all
floating-point geometry.

## Library (`src/`)

- `text` – reading level text: splitting into lines, trimming Unicode
  whitespace, dropping blank lines, and UTF-8 byte lengths.
- `level` – the tile grid: parsing from ASCII (`#` solid, top line highest),
  solidity with everything outside the grid solid, spawn zones (tiles with a
  clear 5x5 block), solid tiles in a rectangle (wall-collision candidates and
  wall rendering), and the tile-stepping half of line of sight.
- `asteroid` – asteroid sizes, their hit points and how they split.
- `combat` – hit points, one hit at a time, and what becomes of an entity
  at zero health.
- `ship` – movement axes from the four movement keys.
- `spawn` – choosing a spawn zone for an asteroid with up to sixteen random
  draws, skipping zones too close to the ship (uses `rand`).
- `path` – the path-builder calls for the segments of an SVG path, ending
  every sub-path exactly once.
- `camera` – the two camera debug switches.

Each public function states its result exactly in its `ensures`, except
`choose_spawn_zone`, whose result rests on random draws. It keeps a record
of its draws (`SpawnRng`), and its contract states that the draws of one call
are each over all the zones, that they stop at the first zone not too close
or after sixteen draws, that the result is that first zone, and when success
is certain either way. Laws of the game (orientation of level text, spawn zones away from the grid edge, at
most four wall candidates for a small body, splitting always shrinks and
ends, hits needed to destroy an asteroid, every sub-path ended once, ...) are public proof functions.

## Application (`app/`)

The Bevy plugins and systems. They convert between Bevy's `IVec2` and the
library's `TilePos`, and call into the library for every decision above.
