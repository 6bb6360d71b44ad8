# oneocr

Offline OCR front end for the Windows Snipping Tool engine, with its core
logic verified in Verus.

- `src/` is the verified library: image buffers for the engine (`bitmap`),
  coordinate order keys (`coords`), band merging of box extents (`interval`),
  the page layout model (`layout`), table detection and markdown rendering
  (`table`), visual rows and spaced rendering (`spaced`), string helpers
  (`text`) and the engine front end's decisions (`engine`).
- `app/` is the command line tool: argument handling, file and clipboard
  access, the engine's native library, JSON output, and the floating-point
  measurements (box centres, character widths) that feed the library. A box
  with a NaN side or centre is handed to the library as no box: the library
  orders coordinates as numbers.
- `tests/` exercises the library.
