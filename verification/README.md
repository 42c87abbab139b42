# renderer

A map tile renderer for OpenStreetMap data, styled by MapCSS stylesheets, whose core is
verified with Verus.

- `renderer import <input.osm> <output.bin>` reads an OSM XML file and writes the compact
  geodata file that the server reads.
- `renderer serve <config.ini> [osm ids]` serves PNG tiles at `/{z}/{x}/{y}.png`, and at
  `/{z}/{x}/{y}@{n}x.png` a tile of `n` times the size (each pixel drawn as an `n` by `n`
  square).

## Layout

- `src/` is the verified library:
  - `geodata/`: the importer's state machine over XML events (`importer`), the geodata file
    writer (`saver`) and reader (`reader`), the tile index, multipolygon rings, and the
    round-trip laws that tie the writer to the reader (`roundtrip`);
  - `mapcss/`: the MapCSS tokenizer and parser, the canonical text of a stylesheet, selector
    matching, the cascade of properties into layers, and the reading of a layer's style;
  - `tile.rs`, `http_server.rs`: tiles and their URLs;
  - `draw/`: pixel positions, the scanline fill of contours, PNG encoding of tiles and
    decoding of icons.
- `app/` is the program around it: command line, file and network I/O, the floating-point
  projection and styling, and PNG drawing.
- `tests/` runs the library on concrete inputs.
