# krust

A terminal Markdown editor with a file tree.  The crate is a library whose
logic is verified with Verus, and a program around it.

- `src/` — the verified library:
  - `tree/` — the tree of directory entries (`tree_node`), the visible flat
    list and the operations on it (`navigation`, with the facts about
    visible lists in `visible`), search over names (`search`), the tree
    pane's rows and scrollbar (`component`) and where file operations put a
    path (`file_ops`);
  - `app` — what each signal and key does to the tree and the state;
  - `state` — the state of the tree pane and status bar;
  - `config` — settings, defaults and the colour files of kitty and GTK;
  - `text`, `paths` — character-level helpers and the `std::path` calls.
- `app/` — the program: command line, configuration file, the terminal
  framework (`r3bl_tui`), reading directories and files, and the background
  search thread.
- `tests/` — tests of the library.

Directory contents reach the library as values: an operation that needs a
directory it was not given answers `NeedRead(dir)`; the program reads that
directory and calls again.
