# codex_managed_channel

A supervisor for a managed Codex app-server channel reached over SSH. The
decisions it makes are written in Verus and proved against their contracts;
the process, socket and file handling around them is ordinary Rust.

## Layout

- `src/` — the verified library.
  - `bootstrap` classifies the command an SSH client asked to run.
  - `protocol` observes the JSON-RPC traffic between client and server
    (`wire` splits it into lines and WebSocket frames, `model` states what
    each message does, `observer` keeps the state, `laws` proves what holds
    across messages).
  - `reclaim` decides when an idle or archived worker is drained and reclaimed;
    `fd_guard` when descriptor use recycles one.
  - `session` checks identities and lease settings, builds the frames the
    owner injects, and keeps a session's lease.
  - `takeover` drives the handover of a thread to a shared daemon and checks
    that a runtime is idle; `rpc` frames and reads its control connection
    and reassembles its replies into JSON.
  - `process` finds the process groups of a worker tree; `marketplace`
    generates and validates plugin catalogues; `supervisor` reads settings and formats
    journal events.
  - `clock`, `bytes`, `text`, `json`, `number` are the small models the rest
    is stated over.
- `tests/` — tests of the library on concrete values.
- `app/` — the program: argument handling, sockets, child processes, the
  journal, and the loops that feed events to the library.
