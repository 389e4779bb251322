# Biomass

A turn-based containment puzzle: biomass spreads over a grid of cells, the
player walls it in, and a biomass component with no open path to an empty
cell starves.

- `src/` is the rule library, written in Verus with its contracts proved:
  the grid and its edges (`grid`), the spread and the sealed-enclosure
  die-off (`bfs`), the level set (`level`), the turn state machine
  (`state`), locale tags (`i18n`, `text`), the saved-progress record
  (`storage`) and the choice of sound clips (`sound`).
- `app/` is the macroquad program around it: window, drawing, pointer input,
  sound playback, locale files and the save file.
- `tests/` exercises the library.
