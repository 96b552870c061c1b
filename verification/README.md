# shashlik_tiles

Tiled vector map data: cutting OSM data into tiles, storing the tiles in a PMTiles archive,
reading them back, and assembling the tiles in view into one scene.

`src/` is the library. Every function in it is verified with Verus: its contract says what
it returns or changes, and the public proof functions state what holds across functions,
such as that a stored tile gives back the records it was made of, or that an archive gives
back every tile that was written to it.

| Modules | What they hold |
| --- | --- |
| `varint`, `bytes`, `tileformat`, `text`, `decimal` | byte and text codecs |
| `feature` | road, area, label and symbol classes |
| `record`, `spill` | clipped shapes on their way to a tile, and their bucket files |
| `format`, `decode`, `compress`, `tile_model`, `tile_law` | the tile format |
| `tile`, `tiler`, `hilbert`, `grid`, `sink` | tile addresses, splitting the grid, zoom policy |
| `pmtiles`, `archive`, `archive_law`, `reader`, `metadata` | the archive: directories, writing, reading |
| `weld_model`, `weld`, `weld_law`, `blend`, `endpoint_grid`, `scene`, `painter` | the scene |
| `view`, `tile_cache` | the tile cache of a map view |
| `osm`, `blob`, `tags`, `filters`, `classifier`, `extractor`, `relation_features`, `rings` | OSM data |
| `bitset`, `store`, `ids`, `sort`, `strokes`, `mask` | sets, stores, orders, strokes, masks |
| `double`, `turn` | arithmetic in doubles, done in integers |

Calls into other crates (`hashbrown`, `zstd`, `xxhash-rust`) and a few of the standard
library's stand behind small functions marked `external_body`, each with a doc comment that
says what is taken for granted of the call.

`app/` holds the two programs around the library, `build` and `preview`: files, network,
windows, and everything in floating point, such as projections, clipping and the camera.

`tests/` runs the library.
