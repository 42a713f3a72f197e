# lbs — Linux Battle Shaper

A CPU limiter for Linux desktops. It throttles chosen processes by letting
them run for part of a short cycle and stopping them (`SIGSTOP`) for the
rest, and it lifts the limit from the window that has the focus.

## Layout

- `src/` — the verified library (Verus):
  - `state` — the target list and the settings, with the laws of adding,
    removing and "limit all";
  - `limiter` — the decisions of one limiter round, the duty cycle, the
    registry of running limiters and the requests of the process scanner;
  - `procs` — reading `/proc/<pid>/stat` lines, CPU usage between two
    samples, grouping and ordering the process list;
  - `focus` — the state machine that asks the desktop (Hyprland, sway,
    KWin, X11) for the focused window and parses its replies;
  - `paths` — install locations, the desktop entry and the uninstall plan;
  - `ui` — the texts and choices the window shows;
  - `tray` — the tray icon's pixels;
  - `text` — the string functions the parsers are built on.
- `tests/` — tests of the library on concrete values.
- `app/` — the GTK program around the library: threads, signals, commands,
  files and widgets.
