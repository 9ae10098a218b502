# qownnotes_tui

A keyboard-first terminal browser and editor for local, QOwnNotes-compatible
Markdown note folders, with its core written in Verus and proved against its
contracts.

- `src/` is the verified library: Markdown highlighting and link discovery,
  note naming and automatic renaming, QOwnNotes settings and note-folder
  discovery, the rules of a folder scan, note search and ordering, link
  resolution, the text editor, the visit history, and what each key and mouse
  event asks for.
- `app/` is the program around it: command line, terminal drawing with
  ratatui, the event loop, file and database access, the clipboard and
  logging. It asks the library what to do and performs the work.
- `tests/` runs the library on concrete values.
