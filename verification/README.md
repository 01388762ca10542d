# MetaCall LSP

Polyglot language server for MetaCall workspaces. It gives cross-language navigation, hover and completion across Python, JavaScript, TypeScript and the other languages of `meta-ast` in one server.

## What it does

- Serves one workspace from one process over LSP and stdio.
- Answers from a static index built by `meta-ast`. It never runs user code.
- Tracks open buffers, so unsaved edits stay visible.
- Reindexes in the background and swaps snapshots without blocking queries.
- Keeps a cache of the index in `.meta-ast`, and believes a record of it only for the bytes it describes.

## Layout

```text
src/     the library, verified with Verus
tests/   tests of the library
app/     the server around it: stdio, files, threads and the engine
```

The library makes the decisions and the server carries them out. A message of the client, a response of the worker or a list of findings of the engine comes in as a plain value; what to send, what to index and what to write goes out as one.

| Module | What it holds |
| --- | --- |
| `text`, `path`, `order`, `lookup` | UTF-8 lengths, path components, stable sorting, tables by key |
| `position` | byte offsets and protocol positions in two encodings |
| `types`, `protocol`, `error`, `cli` | values that are parsed once, and the server's errors |
| `buffers`, `cancel` | open documents and requests in flight |
| `model`, `index` | the engine's findings, the snapshot, and what a cursor resolves to |
| `handlers` | symbols, hover, definitions, references, completion, diagnostics |
| `reindex`, `server` | the session, its scheduler and progress, and the message loop's decisions |
| `shards` | which records of the cache stay, which are written, and which are believed |

What the library takes on trust stands in functions marked `external_body`, each with the call it makes and what is claimed of it.
