# bitmap_renderer

Renders a Bitcoin block as a Mondrian-style bitmap: every transaction becomes an
orange square whose side grows with the value it moves (`ceil(log10(sats)) - 5`,
at least 1), the squares are packed first-fit into a block `ceil(sqrt(total area))`
columns wide, and the packing is drawn as a 576 x 576 PNG.

Layout:

- `src/` — the verified library (Verus).
  - `sizing.rs`: square sides, sums, block width.
  - `row.rs`: one row of free slots, ordered by column.
  - `geometry.rs`: squares, overlap, free slots, the packer's row invariants.
  - `reshape.rs`: what placing a square does to the free slots, row by row.
  - `layout.rs`: the packer (`MondrianLayout::place`, `fill_slot`) and `layout_squares`.
  - `block.rs`: a whole block's layout and its extent.
  - `raster.rs`: painting the squares' pixel rectangles and PNG encoding.
  - `request.rs`: the block height from a `<height>.png` file name.
- `app/` — the HTTP service: fetching blocks over JSON-RPC, the floating-point
  scaling of the grid to pixels, and serving the PNG.
- `tests/` — tests of the library.
