# tool4d-lsp-stdio

An adapter between an editor that speaks the Language Server Protocol over
standard input and output, and `tool4d`, the language server of 4D, which speaks
it over TCP. It also holds the part of the editor's extension that finds, installs
and starts the adapter.

The logic is verified with Verus and lives in `src/`:

| Module | What it holds |
|---|---|
| `bytes`, `text` | bytes, ASCII, decimal numbers and strings |
| `header`, `frame`, `error` | the header of a message, messages on a stream, failures |
| `round_trip` | what is written is read back |
| `json`, `diagnostics` | JSON values, requests for diagnostics and answers to them |
| `relay` | a session: both directions and the requests that they share |
| `extension`, `install` | the adapter's name, its arguments and its installation |
| `search`, `project` | the search for project files and the choice among them |
| `launch`, `process` | starting `tool4d`, waiting for it, ending it |

Where the adapter works with the outside world step by step, the library decides
and `app/` acts: the program in `app/` reads, writes, downloads, starts and kills,
and hands what came of it to the library, which says what to do next.

Parsing and printing JSON is left to `serde_json`. What is relied on without proof
stands at the functions marked `external_body` in `src/json.rs` and
`src/header.rs`, and at the `assume_specification` in `src/text.rs`.

`tests/` runs the library on concrete inputs.
