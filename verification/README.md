# gridgame

The rules of a hex-grid strategy game, written in Verus and proved against
their contracts: hex geometry and paths, item stores, construction supply,
mining, logistics units and route finding on the sector map, the planet's
buildings, colour settings, and the shape editor's selection state.

- `src/` is the verified library, one module per area (`hex`, `storage`,
  `sector`, `supply`, `mining`, `route`, `units`, `construction`,
  `planet`, `map_common`, `ui`, `settings`, `cad`, `text`).
- `tests/` runs the library on concrete cases.
- `app/` is the unverified side: macroquad colours, JSON files through
  serde, and the frame loops that turn fractional frame times into whole
  simulation steps.

Times in the library are whole milliseconds; the save files keep seconds
and `app/` converts.
