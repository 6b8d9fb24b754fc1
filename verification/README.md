# smwe_editor

The editing logic of a Super Mario World level editor, written in Verus.
Every function of `src/` carries a contract that Verus proves, with two
exceptions whose contracts are believed, not proved, because vstd gives
the std methods they call no specification:

- `text::push_char`, around `String::push`: the string's characters gain
  the pushed one at the end;
- `tooltip_search::to_lowercase`, around `str::to_lowercase`: the result is
  `lowercase` of the text, a name for Unicode's lower-case mapping that the
  library does not spell out.

- `src/` — the verified library: the clipboard text format, the layer-1
  object stream and its undo snapshots, undo/redo history, Direct Map16
  objects and their flood fill, background tilemap editing (pattern fill,
  paint, resize, bank remap, and the press/drag/release steps of the
  canvas), object dragging, the act-as remap dialog,
  level headers, palettes, tile previews, the layer 3 preview, the exit
  scan window state, the title screen's tile words and demo inputs, the
  ExGFX "levels using" listing, the custom tooltip search and the other
  dialogs' text.
- `tests/` — tests that run the library on concrete values.
- `app/` — the egui side: the system clipboard, the exit-scan worker
  thread, screen-space hit-testing and pointer-to-cell mapping (floating
  point) feeding the canvas steps, and conversions to egui images and colors.
