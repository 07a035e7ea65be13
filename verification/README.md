# p2p-autos

A relay that hands out plain HTTP download links for files that never leave the
sender's machine. The sender keeps a browser tab (or the bundled command-line
client) open; the server holds only a routing table and relays bytes as they
are read. When the tab closes, its links are gone.

The library under `src/` is written in Verus: what each function does is stated
in its contract and proved. Calls into other crates (axum, bytes, dashmap, rand,
serde_json, tokio) stand behind small wrappers and names. What the contracts of
these, and that of `String::push`, say of the code behind them is trusted, not
proved; the doc comment of each says what that is.

| Module | What it holds |
| --- | --- |
| `text` | Text as characters: searching, trimming, numbers |
| `sanitize` | Fit names and MIME types from what a tab sends |
| `share` | The registry of shares and the ids of links |
| `limits` | Sizes, counts, times, and the fair share of the memory budget |
| `protocol` | The text messages between server and tab |
| `frame` | The binary frames that answer pulls |
| `channel` | The channel from a tab's actor to an HTTP body |
| `uploader` | The state machine that serves one tab |
| `guarantees` | What holds of a connection whatever happens to it |
| `delivery` | That a body is exactly the requested range of the file |
| `range` | The `Range` header |
| `disposition` | The `Content-Disposition` header |
| `download` | The answer to a download |
| `client` | The `share` subcommand |
| `config` | The command line of the server |

`app/` is the program around the library: sockets, HTTP, files and clocks.

## Options of the server

| Flag or variable | Default | Meaning |
| --- | --- | --- |
| `--address` | `0.0.0.0` | Bind address |
| `--port` | `8080` | Bind port |
| `BIND` | none | `host:port`, used only if neither flag is given |
| `--memory-budget` | `256` (MiB) | Buffer budget, shared fairly across all downloads |
