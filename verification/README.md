# scroll_core

The verified core of the ScrollWorks carving tools, written in Verus.

`src/` holds what the tools decide and compute on discrete values, each
function with a contract that Verus proves:

- `chip`: chip-carving patterns in grid units: the running-border phrases,
  the tiled medallion, the pattern's choices (seeds,
  border names, construction, removed chips) and the editing handles.
- `compose`: the composed chip grammar: border phrases and centre pieces
  turned about the centre of the square; every chip stays on the square, and
  on an even number of cells the pattern has fourfold symmetry.
- `rng`: the seeded generators (Mulberry32, the LCG), bit for bit.
- `decimal`: decimal text of numbers, index parsing, and three-decimal
  rounding with ties away from zero (as the SVG export writes coordinates).
- `ids`, `links`, `shoots`: part ids with their backbone prefix, how
  backbones hang from one another, and where hand-edited shoots are drawn.
- `history`: undo and redo with a bounded past.
- `presets`: the preset library (names, selection, messages, the limit of 40).
- `prefs`: the settings file: reading it line by line and writing it back.
- `names`, `text`: the keyed names of families, themes, engines and sides,
  and small text helpers (trimming as `str::trim`, lines as `str::lines`).

`tests/` runs the library on concrete values. `app/` is a command-line front
end: chip patterns drawn at actual size in millimetres (floating-point
geometry), SVG export, the files in the settings folder, and an interactive
session with undo, presets and preferences.
