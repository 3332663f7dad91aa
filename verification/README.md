# dd-rust-network-mutex

A networked mutex broker. Clients acquire exclusive locks, semaphores of up to
`max` holders, read and write locks, and locks on several keys at once, over
newline-delimited JSON (TCP, Unix sockets) or HTTP. Every grant carries a
fencing token that grows from grant to grant of a key.

The core is verified with Verus; what surrounds it is ordinary Rust.

## Layout

- `src/broker` is the lock table: `types` and `model` say what its state is and
  what each operation makes of it, the files beside them carry the operations
  out, and `laws` proves what holds whatever the broker is asked: exclusion,
  growing fencing tokens, queues served in turn, composites that take their keys
  in order and never wait in a circle, deadlines, departures, snapshots.
- `src/hardened_broker` reserves the fencing tokens of every request before it
  reaches the lock table. It is the broker that the server uses; its `laws` say
  that reservations never overlap, that tokens never pass the ceiling, and that
  the tokens of a key grow also where one request overtakes another.
- `src/server` decides what a connection and an HTTP caller are told.
- `src/client`, `src/fenced_client` and `src/frames` are the client's side:
  requests, replies, framing, and the admission of grants.
- `src/config`, `src/cli_flags`, `src/routine`, `src/directives` and `src/metrics`
  hold settings, command line, telemetry, filter directives and the metrics page.
- `src/queue`, `src/ordered_map`, `src/text`, `src/scan`, `src/sums`,
  `src/clock` and `src/ids` are what the others are built on.
- `app` is the process: sockets, TLS, HTTP routes, timers, JSON and the file
  system.
- `tests` runs the library.
