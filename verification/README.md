# chip_game

The logic of a game of building circuits from logic chips, verified with Verus.

- `src/` is the library: the assembler for the 8-bit CPU (`assembler`), the
  CPU's fetch/decode cycle (`cpu`), the simple chips and their pin layouts
  (`chips`, `layout`), the chip palette and its per-frame decisions
  (`catalog`), pointer handling for world objects (`pointer`), selection and
  hovered pins (`selection`), draw layers (`layers`), the parent/child
  hierarchy of world objects kept in a `petgraph` graph (`hierarchy`), and the
  handling of optional script hooks (`script`).
- `app/` is the window: it reads input with macroquad, calls the library and
  draws what it decided.
- `tests/` runs the library on concrete inputs.
