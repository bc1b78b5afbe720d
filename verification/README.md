# toge_core

Local file search for Linux: an in-memory index of file paths, a query language over it,
and the rules of the daemon that keeps the index current and answers queries over a Unix
socket. The library is written in Verus; each public function carries a contract that Verus
proves.

## Layout

- `src/` — the verified library.
  - `index`, `postings`, `order`, `sort`: the index (entries, trigram and first-byte posting
    lists, the path map, the extension table), its searches and the result orderings.
  - `db`: the on-disk index format, saving to bytes and loading from bytes.
  - `query`, `matcher`, `highlight`, `answer`: query parsing, matching, highlighting and the
    daemon's answers to requests.
  - `ipc`: the request and response encoding on the socket.
  - `walker`, `inotify`, `fanotify`, `events`, `watch`: the file-system walk and the
    watcher events, and how each event changes the index.
  - `config`, `plan`, `keyboard`, `opts`, `render`, `format`, `gui`: settings files, what
    a build of the index takes from them, keyboard shortcuts, command-line options and the
    text shown to users.
- `tests/` — tests run against the compiled library.
- `app/` — the command-line client `ndl` and, run as `needled`, the daemon: sockets, files,
  the clock and the watcher thread, which hand plain values to the library.

## Laws

Besides the contract of each function, the library states laws that relate several
functions, as public proof functions: a saved index loads back as the same, well-formed index
that every search reads alike; a settings file reads back as the settings written; stored
keyboard settings read back as the normalised ones wherever they list a command shortcut; normalising an accelerator or a set of
keyboard settings a second time changes nothing, and the parts of an accelerator may come in
any order; adding a query term only narrows the selection; inserting or removing a path keeps
every other path findable by its full path; queries are numbered 1, 2, 3, ...; and a query without a date filter parses the
same at every time.
