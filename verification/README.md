# gaussian_splat_stream

Reading and streaming of Gaussian splat scenes, verified with Verus.

- `src/io` reads SOG units (`meta.json` with WebP textures), `.sog` bundles and
  the `lod-meta.json` of scenes with many levels of detail.
- `src/stream` chooses a level for every leaf of a scene, loads and keeps units,
  decodes runs of their rows, and shows a scene leaf by leaf or through one
  composite cloud of a fixed number of splats.
- `src/viewer` decides what the viewer does: its inputs, keys, panel, overlay and
  exports.
- `app` is the viewer itself. It draws, reads files and does everything in
  floating point: the library carries numbers as their bits and splats as their
  stored codes.
- `tests` runs the library with the image, archive and text crates it relies on.

Public proof functions state what holds across functions: that a leaf which is
shown stays shown, that blocks of a composite cloud never overlap, that sharing a
budget grants every leaf some level, that a unit in use is never dropped. Blocks of
a composite cloud are not moved together: where they cut up what is free, a leaf
waits for a piece that is large enough.
