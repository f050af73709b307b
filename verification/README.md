# katnip

The window-management core of the Katnip Wayland compositor, written in
Verus: the dwindling tiling layout, chord and action parsing, the keybind
tables, configuration validation, workspaces, floating windows, the control
protocol, the status-bar geometry and the output decisions. Every function
in `src/` carries a contract; Verus proves them all except those of three
small wrappers around std (`String::push`, and `{:?}` formatting of a string
and of a path), whose contracts are trusted and say so in their doc comments.

- `src/` — the verified library. Each module states its model (`View`
  impls and spec functions) and proves its laws as public proof functions
  (for instance `layout::lemma_dwindle_tiles`, `keybinds::lemma_insert_lookup`).
- `tests/` — executable tests of the library.
- `app/` — the compositor around it: smithay (nested and DRM backends),
  rendering, input plumbing, the TOML file, the IPC socket and JSON,
  plugins (Rhai and native), fonts, and the libxkbcommon key-name lookup
  (which needs the libxkbcommon development library to link). It hands the
  library plain values and acts on what comes back.

There are nine workspaces (`SUPER+1..9`).
