# traceviewer

`tv` runs a command, or reads a file, and shows its lines in a scrollable
terminal log viewer. This crate holds its logic as a library that
[Verus](https://github.com/verus-lang/verus) verifies, and a thin program around it.

## Layout

- `src/` is the library. Its verified functions have contracts, and public proof
  functions named `law_*` state what holds of the library as a whole.
  - `parser` reads lines: `bunyan`, `env_logger`, `logfmt` and `tracing`, on top of
    `level`, `ansi`, `nesting`, `spans` and `fields`.
  - `model`, `json`, `number` and `text` hold entries, values and text.
  - `ui` is the screen: the view state and its keys, colors, rendering, layout,
    the scrollbar and the whole screen as plain data.
  - `process` turns bytes into lines and events, and `app` is the session that
    events and keys act on.
  - `cli` holds what the command line decides.
- `app/` is the program: arguments, threads, files, processes and the terminal.
- `tests/` runs the library on concrete values.

## Usage

```sh
tv -- cargo test
tv --format tracing -- my-service
tv --format bunyan -- node service.js
tv --format logfmt -- ./service
tv --file app.log
```

Formats: `auto`, `plain`, `bunyan`, `env-logger`, `logfmt` and `tracing`.

## What is trusted

What `serde_json` reads and writes, what `bytesize` reads, and how the standard
library decodes bytes lossily and appends to a `String` are stated without proof, in
the doc comments of the functions that call them. Of the function that turns a
parsed `serde_json` value into plain data nothing is stated; the one that parses names
its result.
