# conban

A kanban board for the terminal: named lists of cards shown side by side in panes.

- `src/kanban.rs` — the board: list names in display order, the table that files
  cards under list names, and the last deleted card; its model `KanbanView`.
- `src/pane_manager.rs` — the screen state (dividers, selection, terminal size),
  how a fresh screen is set up and how the dividers are computed.
- `src/input.rs` — what each key does to the screen and the board (`step`), the
  prompt for new cards and lists, and the checks that say when a key can be handled.
- `src/layout.rs` — where titles, cards, every frame character, the prompt line and
  the prompt cursor go.
- `src/browser.rs` — the selection of the list view: down and up move within the
  selected list, right and left stop at the last and first list.
- `src/laws.rs` — properties proved of the key handling: well-formedness is kept,
  `w` and `s` undo each other, moves keep every card, `x` keeps the deleted card,
  a valid selection stays valid, one key keeps the screen invariant (lists,
  table and selection consistent, enough dividers), recomputing the dividers is
  idempotent and agrees with a fresh screen, and the dividers split the screen evenly.
- `app/` — the program: terminal drawing, key reading and the JSON file in the
  home directory.
