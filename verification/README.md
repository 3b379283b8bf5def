# s2-tiler

A Sentinel-2 tile server: it searches a STAC catalog for scenes, keeps a spatial index of
them, and serves XYZ tiles that are composited from Cloud-Optimized GeoTIFFs.

The library in `src/` holds the rules, data structures and pixel work, with contracts that
Verus proves:

| Module | What it does |
|---|---|
| `config` | settings, presets, validation, periods to search |
| `stac` | catalog items, choice and order of scenes, pagination |
| `geo` | quadkeys, tile ranges, boxes, source pixels of a warp, projection names |
| `index` | scenes by quadkey cell, lookups, stored form |
| `locate`, `cog` | where a file is, overview choice, tiles of a window, assembly of pixels |
| `composite`, `flood` | masking, first-valid and median composites, vegetation index, gap filling |
| `pipeline`, `render` | the tile that scenes make, display pixels, encoding |
| `prefetch` | chunks of tiles and the steps to fill them |
| `cache` | tile keys, the in-process cache, where other backends put a tile |
| `server` | what a request is answered and changes, documents about a tileset |
| `raster` | rasters held in `ndarray` arrays |
| `number`, `text`, `textmap`, `order` | numbers by their bits, text, maps keyed by text, stable order |

What the library takes from other crates (`ndarray`, `dashmap`, `url`, `object_store`,
`image`, `serde_json`) stands behind functions whose doc comments begin with "Trusted".

`app/` is the program around it: the command line, HTTP, files, the database, and what is
computed in floating point: projections, tile and window bounds, resampling weights and
display values.
