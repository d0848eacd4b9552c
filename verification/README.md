# nodio

The decision core of Nodio, a node-graph router for audio: applications and
devices are nodes, and links between them say where sound goes.

- `src/` is the library, verified with Verus; what it takes on trust stands in
  `outside`.
  - `editor`: links, context menu, saving and restoring.
  - `links`: the table of links.
  - `node`: how nodes look and how new ones are made.
  - `shell`: the window, the tray icon and its menu.
  - `icon`, `raster`: the program's icon.
  - `outside`: what is taken from other crates, and what is claimed of it.
- `app/` is the desktop program around it. It is built next to the crates
  `nodio_api` (the audio service), `nodio_core` (its types) and
  `nodio_gui_nodes` (the canvas).
- `tests/` runs the library.
