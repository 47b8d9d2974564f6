# sweet

The core of a creative suite: scenes of objects and polygon meshes, paintings in layers, fonts,
timelines and project bundles.

- `src/` is the library. Everything in it is verified with Verus: what a function returns or
  changes is stated in its contract, and what holds across functions is stated in public proof
  functions.
- `tests/` runs the library on concrete values.
- `app/` is what surrounds the library: the window and the graphics device, files and JSON, and
  floating-point arithmetic.

Numbers of single precision are held by the library as their bit patterns. It stores, compares,
clamps and moves them, and tells whether two are near. Where a place, a color or a weight has to be
computed, a function of the library takes a closure that computes it, and its contract says of which
values the closure is asked and what becomes of the answers.

| Part | Modules |
| --- | --- |
| Numbers and text | `number`, `text` |
| Meshes | `mesh`, `halfedge`, `mesh_edit`, `bevel`, `subdivide`, `decimate`, `mesh_make`, `mesh_fan`, `mesh_shapes`, `brush`, `modifiers`, `rig`, `spine`, `mesh_laws` |
| Scenes | `kinds`, `object`, `arena`, `document`, `document_edit`, `document_shape`, `scene`, `history_laws`, `name_laws`, `picking` |
| Pictures | `pixels`, `pixel_laws`, `retouch`, `moving`, `selection`, `selection_bounds`, `wand`, `feather` |
| Painting | `paint`, `raster`, `tiles`, `layers`, `compositor` |
| Lettering | `font`, `glyph`, `outline`, `glyph_fill`, `lettering` |
| Frames | `frame`, `overlay`, `solids` |
| Time and projects | `timeline`, `nearness`, `bundle`, `suite` |
