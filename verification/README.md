# wow_serdes

Reads LibSerpix frames: byte payloads that a World of Warcraft addon draws
as columns of pixels at the top-left of the game window, three bytes (red,
green, blue) per column, behind a header column that carries the payload's
size and an 8-bit checksum.

- `src/` is the verified library (Verus): pixels and the per-column
  majority vote (`pixel`), payload bytes and checksums (`payload`), images
  (`raster`), the two frame layouts (`column_frame`, `strip_frame`), the
  probe's header word (`probe`), the window state and reading-loop decisions
  (`window`) and the decisions of a GDI window capture (`capture`).
- `app/` is the program around it: window lookup and capture, CBOR to JSON
  conversion, the reading loops and printing.
- `tests/` runs the library on images built in code.
