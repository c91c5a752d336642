# mochios_files

The Files application of mochiOS: a file browser with a sidebar of places,
and the system's open and save panel.

- `src/` is the library, verified with Verus: paths and their
  normalization, directory listings and their order, the browsing state
  (history, search, selection, renaming and deleting checks), content
  types, the sidebar's places and its bookmark store with the store's
  binary format and crash-safe saving, the decisions of the view's event
  handling, and the file panel's command-line argument.
- `tests/` runs the library on concrete values.
- `app/` is the program around it: the window, painting and hit testing,
  and the file system, environment and platform calls.
