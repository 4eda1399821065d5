# amata

The document core of a vector drawing editor, written in Verus: the
layered object tree and its editing commands with undo and redo, components,
semantic differences between documents, path anchor editing, pixel art,
keyframe timelines, text line breaking with Japanese kinsoku rules, font
family lists, variable font settings, bitmap tracing, barcodes and QR codes,
and the external-edit file watcher. Verus checks all of `src/`: the public
functions state what they return or change, and a few small helpers and
getters carry no more than what their types say.

Layout:

- `src/` — the verified library. Geometry and colour arithmetic is floating
  point and stays outside it; where a decision depends on such a value, the
  library takes the outcome (a comparison, a rendered number) as input.
- `tests/` — tests of the library.
- `app/` — ordinary Rust around the library: file and font I/O, serde forms
  of the library's types, and the floating-point geometry (boolean
  operations, envelopes, tracing and barcode layout, colour maths).
