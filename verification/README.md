# minsec

A log-watching ban daemon and its multiplayer client, with the rules they go by
verified.

`src/` is the library: durations, addresses, filters, failure tracking, ban policy and
escalation, configuration, log sources, control requests, the wire protocol, and the
decisions of the multiplayer client. Every function states in its contract what it
returns or changes, and the functions named `law_*` prove what holds across several of
them. `src/foreign.rs` holds the calls into other crates, whose contracts are believed.

`app/` is the program around it: command line, files, sockets, processes and HTTP. It
drives the `exec` and `null` backends.

`tests/` runs the library.
