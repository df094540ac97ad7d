# rmenu

A wmenu/dmenu-style menu for Wayland: it reads lines from stdin (or, with
`--run`, the installed applications and the commands on `$PATH`), lets the
user filter them by typing, and prints or launches the chosen entry.

The decisions of the program are a library verified with Verus; the window
system, file and process I/O, and the floating-point font and image work
stay in a thin application around it.

## Layout

- `src/` — the verified library (`rmenu`):
  - `items`, `menu`: input lines, filtering and ranking, the key-driven
    menu state and its viewport;
  - `render`, `frame`: colours, panel geometry and the pixels of a frame;
  - `opts`: command-line options;
  - `desktop`: `.desktop` entries, `$PATH` commands and their merge;
  - `feed`: streaming input lines into items;
  - `font`: font specs, the font cache format, the fallback chain over a
    fontdb database and the choice of faces;
  - `icon`: icon theme search order and icon decoding;
  - `control`: the single-instance socket protocol;
  - `order`, `num`, `text`, `timing`: ordering, numbers, text and
    event-loop pacing helpers.
- `tests/` — tests of the library.
- `app/` — the Wayland program: event loop, I/O, glyph layout and
  rasterization, icon scaling.

Contracts are stated over spec functions and views; the calls into fontdb,
ab_glyph, image and usvg go through small trusted wrappers whose contracts
say what those crates document or their sources show.
