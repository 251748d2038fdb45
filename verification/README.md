# VoltPanel

The rules of a game-server panel and of the agent that runs on its nodes, written
in Verus: every function of the library has a contract, and Verus proves it.

- `src/` is the library. `node_protocol`, `nodes` and `node_daemon` hold what the
  panel and its nodes say to each other and decide; `services` holds the files,
  pulls, backups, databases, consoles, blueprints, revisions, packages and eggs of
  a server; the other modules are what these share (text, paths, JSON, digests,
  archives, the exchange of directories).
- `tests/` runs the library on examples, with the outside crates linked.
- `app/` is ordinary Rust around the library: disk, processes, SQLite and network.
  It asks the library what to do, does it, and reports what came of it.

Functions that call an outside crate are marked `#[verifier::external_body]`. Their
doc comments name the outside function and say what is taken on trust of it. What
holds of the library as a whole stands in public proof functions whose names start
with `law_`.
