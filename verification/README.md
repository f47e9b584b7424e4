# zapper

`zapper` is a local Markdown search engine. It indexes Markdown files, watches
them for changes, and finds keywords in them: each match comes with the full
path of the file, the line, and the position in the line. Other machines can be
searched too, over HTTPS. The command is `zap`.

## Layout

- `src/` is the library. It is written in Verus: every function states what it
  computes, and the statement is proved. Beneath the proofs lie small wrappers
  around the standard library and the crates `dirs`, `globset`,
  `regex_automata`, `rustls` and `rustls_pemfile`. What a wrapper says of the
  function that it calls is believed, not proved. Those around `dirs` say nothing
  of what they return.
  - `text`, `number`, `encoding`, `url`: text, decimal numbers, bytes as text,
    percent encoding and query strings
  - `path`, `path_map`: paths, their components and their order, and the ordered
    map from paths to values
  - `globs`, `places`, `tls`: what comes from these crates
  - `cli`, `config`, `scope`: what the arguments and the configuration mean,
    which files are indexed and which directories are watched
  - `index`, `search`, `display`, `watch`: the index, searching it, showing the
    results, and when to rebuild it
  - `endpoint`, `remote`, `api`: addresses of search services, asking one, and
    being one
  - `search_laws`, `protocol`: what holds of every search, and between the two
    ends of a connection
- `app/` is the program around it: options, files, connections, the watch loop.
- `tests/` runs the library on examples.

## Searching

`zap search keyword`, or just `zap keyword`, prints tab-separated rows:

```text
/full/path/file.md    12    8    matching line text
```

The columns are the full path, the line number and the position of the match in
the line, counted in characters, both from 1, and the line itself.
