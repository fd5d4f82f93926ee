# zeldex

Vertical Zellij sidebar for Codex tabs, with its logic verified by Verus.

- vertical tabs in a left sidebar; click or scroll to switch tabs
- the state of a tab (`idle`, `running`, `waiting`, `done`) comes from recent
  Codex transcripts
- a pane shows the thread that fits its directory best; it keeps that thread until
  a newer match appears
- an agent waits where the last entry of its transcript that tells a state was a
  tool call and the file has been quiet for three seconds
- a tab that is not active becomes unread where an agent in it begins to wait or is
  done

## Layout

`src/` is the library. Every function in it carries a contract over mathematical
models, and the laws that span functions are public proof functions whose names
begin with `law_`. Calls into `serde_json`, `unicode-width`, `ansi_term` and
`String::from_utf8_lossy` stand behind small functions whose contracts are taken on
trust, and so is what `String::push` does: see `json.rs`, `ansi.rs`, `codex_file.rs`
and `text.rs`.

`app/` is the plugin and the two command line tools around the library: reading
files, talking to Zellij, to processes and to app servers, and the records on disk.

`tests/` runs the library on concrete values.
