# git-server (verified core)

A read-only smart-HTTP Git server whose protocol logic is written in Verus
and proved against its contracts.

- `src/` is the verified library:
  - `pktline` — pkt-line framing (hexadecimal length prefix, flush packet).
  - `request` — parsing of upload-pack request bodies; the parse of a body
    that a client writes gives back its wants and haves.
  - `refs`, `backend` — the ref advertisement.
  - `collect` — the object walk behind a pack: each object once, none the
    client has; the caller reads objects when asked.
  - `packfile` — pack entry headers, side-band-64k framing and the streaming
    pack writer (SHA-1 over the raw pack, zlib per object).
  - `path`, `discovery` — lexical path checks, repository records, the
    sorted repository store and its lookup.
  - `http` — how errors and requests are answered.
  - `fixture` — the git commands and file writes that build the benchmark
    repositories.
  - `oid`, `text`, `bytes_util`, `error` — supporting types and lemmas.
- `app/` is the binary: command line, filesystem walk, reading repositories
  with gitoxide, and the axum routes; it hands plain values to the library.
  It also runs the fixture steps (git command line, files) for benchmarks.
- `tests/` runs the library on concrete inputs.
