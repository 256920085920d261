# text_marker

A language server for Zed that underlines every whole-word occurrence of the words the
user has marked, plus the command-line tool that toggles and clears marks and installs
the Zed tasks. The library in `src/` is verified with Verus; `app/` is the program around it.

## Layout

- `src/matcher.rs` — whole-word matching on UTF-8 text and conversion of byte offsets to
  LSP positions (line, UTF-16 column).
- `src/lsp.rs` — the diagnostics that marks give a document, and `Workspace`, the server's
  state (open documents and marks) with one method per editor event.
- `src/marks.rs` — toggling and clearing marks.
- `src/commands/install.rs` — a JSON value model, the task labels, and the merge of the
  bundled tasks into the text of an existing `tasks.json` (reading and printing JSON
  through serde_json).
- `src/cli.rs`, `src/extension.rs` — the command line and the command that starts the server.
- `app/` — `main`, clap parsing, file I/O for `marks.json` and `tasks.json`, the tower-lsp
  server loop, the file watcher, and the Zed extension.
