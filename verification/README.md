# clippy_history

A clipboard history manager for GNOME, with its logic verified in Verus.

- `src/` is the verified library:
  - `models` — clipboard entries and their preview, icon, badge and label;
  - `png` — image dimensions from a PNG header;
  - `row` — how an entry is stored as a row of the `clipboard_entries`
    table (large images go to a file named after the row's id) and read back;
  - `like`, `order`, `table` — the queries over the stored rows: newest
    first, pinned only, `LIKE` search over the characters SQLite reads
    from the stored bytes, text lookup, pin toggling,
    deletion, image bytes;
  - `cleanup` — the settings and the decision of which rows a cleanup
    deletes (beyond the newest `max_entries` unpinned, then the old ones);
  - `history`, `listing`, `actions` — what the history service and the
    window decide: whether copied text is stored, the pages and their
    filters, row names, search, and what each action does;
  - `text`, `paths` — decimal numbers, white space, UTF-8 and paths.
- `app/` is the program around it: the SQLite store (`rusqlite`), the
  D-Bus service (`zbus`), and the GTK window (`gtk4`, `libadwaita`).
  `app/main.rs` runs the service, or the window when given `ui`.
- `tests/` exercises the library on concrete values.
