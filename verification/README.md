# lore

A command library that lives in your shell. Press a key, type a few letters of
what you are trying to do, and the command lands in your prompt ready to run.

## Layout

- `src/` is the library, written in Verus: every function in it carries a
  contract that Verus proves, except the few small wrappers marked
  `external_body` that call `globset`, `nucleo-matcher` or std. Their
  contracts are trusted, not proved, and each says in its doc comment what it
  claims of the function it calls. The library holds what lore decides
  rather than what it touches:
  - `model`, `params`: entries, per-shell command variants, placeholders and
    the values they are filled with.
  - `store`: reading a library into entries (`layers`), hiding builtins by
    glob (`patterns`), and splicing single entries in and out of a YAML file
    without disturbing the rest of it (`definitions`).
  - `search`: the order the picker offers entries in, and where a query
    matched.
  - `tui`: the picker as a state machine (`app`), its forms (`form`) and what
    each screen shows (`view`), down to the styled pieces of every line.
  - `shell`: key chords, and putting the integration into a profile and taking
    it out again.
  - `sync`: merging two copies of a library by entry rather than by line.
  - `update`: reading release versions and deciding when to mention one.
  - `cli`: what the command line decides: edits, saves, removals, searches and
    listings.
- `app/` is the program around it: argument parsing, the terminal, files,
  git, the usage database and the network. It hands the library plain values
  and acts on what comes back.
- `tests/` exercise the library from outside.

The shell snippets and the builtin command libraries are data the program
reads at run time, from `LORE_ASSETS_DIR`, `share/lore` beside the binary's
directory, or `assets` beside the binary.
