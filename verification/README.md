# depgraph

Import and export dependency graphs of source trees in Java, Python, JavaScript
and TypeScript, with barrel files followed through to the files behind them.

`src/` is a library that is verified with Verus. Its functions state in their
contracts what they return, over plain values: texts, sequences, sets and maps.
Two things rest on the machine and are left open: what its locale takes the
characters of a script outside ASCII for (the nodes of the script are stated for
each such reading), and when valid patterns other than literals are refused for
the memory that they take.

- `text`, `order`, `path`: text, its order, and paths as text
- `syntax`, `tsutil`: syntax trees and looking into them
- `json`, `lang::jsonc`: JSON, and JSON with comments
- `lang::js_ts`, `lang::python`, `lang::java`: what a file of a language states
- `lang::specifier`, `lang::ts_paths`, `lang::js_pkg`, `disk`: from a specifier
  to the file behind it
- `lang::reexports`: what holds of every script
- `walk`, `excludes`, `hash`, `scan`: source files and what they hold
- `facts`, `nodes`, `effective`, `graph`, `model`: from facts to the graph
- `laws`: what holds of every graph
- `show`, `time`: selecting a file, notes, output names, moments

The parsers, the JSON reader and the glob matcher come from outside crates. The
functions that call them are marked `external_body`, and a comment above each
says what is believed of the outside function.

The library does not touch the file system. It lists the files that it would
look for, and takes what is known of them as a `Disk`. `app/` walks directories,
reads files, probes for them, and writes the output.
