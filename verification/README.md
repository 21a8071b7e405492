# fonttables

Reading and writing the binary tables of OpenType fonts, verified with Verus.

Each table type has a reader and a writer whose contracts give their results
exactly, in terms of specifications of the byte layout (`*_decoding`,
`*_reading` and `*_encoding`). Most tables also come with a proof that reading
back what was written gives the table (`lemma_*_roundtrip`).

Layout of `src/`:

- `binary`: big-endian integers, and the errors of reading and writing.
- `head`, `hhea`, `maxp`, `hmtx`, `loca`, `gasp`, `avar`, `post`, `fvar`,
  `os2`, `cmap`: single tables.
- `glyf`: glyph outlines and composite glyphs, and the `glyf`/`loca` pair.
- `coverage`, `layout`: coverage tables, the script list and the subtables of
  `GSUB` and `GPOS`.
- `packed`, `otvar`, `gvar`: packed point numbers and deltas, tuple variation
  stores, item variation stores and the glyph variations table.
- `table_store`: a set of tables read from their bytes when first needed.
- `guide`: guidelines of a font's masters and layers; `fontinfo`: values of
  the tables worked out from a font's metadata.

Values that OpenType stores as fixed-point numbers (F2DOT14, 16.16) are held
as their bit patterns. Work in floating point, such as interpolating the
deltas of points that a variation leaves out, is left to callers.
