# geotiles

Web map tiles from geospatial data: XYZ pyramids, MBTiles and PMTiles from
rasters, vector tiles (MVT) from vector data, and Cloud Optimized GeoTIFFs.
The library is verified with Verus.

## Layout

- `src/` is the library. It holds the tile addresses, the TIFF and COG layout,
  the windowed reader, the geometry of vector tiles, the ranking of features to
  drop, the metadata and the order in which tiles are stored. Every function
  says what it returns in its contract.
- `app/` is the program: files, command line, progress, threads, and what is
  floating point (projection, interpolation, clipping).
- `tests/` runs the library on concrete values.

The library holds no floats. Where a float only passes through, it is a bit
pattern or a type parameter; where something is computed on it, the caller
hands in a closure, and the contract says what the closure is asked and what
becomes of its answers.

## Main modules

- `mercator`: tile addresses and ranges, the TMS flip.
- `source`, `window`: raster sources in memory and in files, source windows.
- `pyramid`, `raster_pyramid`, `render`, `images`: raster pyramids, tiles and
  their encoding.
- `cog`, `cog_layout`, `tiff`: Cloud Optimized GeoTIFFs.
- `geometry`, `vector`, `vector_tile`, `vector_pyramid`, `layer_json`: vector
  tiles.
- `xyz`, `archive`: directory trees and PMTiles archives.
- `inputs`, `paths`: what a user types.
- `encoder`, `compress`: calls into outside crates.

Inputs must be in EPSG:4326 or EPSG:3857.
