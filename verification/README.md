# copycat

A clipboard manager's core, verified with Verus.

- `src/store.rs`: the store format of an entry list (cleaning, writing, reading) and
  its laws: reading what was written gives the cleaned list, rewriting is stable.
- `src/history.rs`: the copied-text history and the saved entries, and what each
  user action does to them.
- `src/menu.rs`: how a list is split into menu groups, group titles, entry captions.
- `src/monitor.rs`: the keyboard shortcut and the monitor's per-poll decision.
- `src/text.rs`: Unicode whitespace and trimming, UTF-8 reading, decimal numbers.
- `app/`: the program around the library (files, clipboard, keyboard, windows).
