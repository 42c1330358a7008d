# Pathweave

Messages between peers that can reach each other over more than one medium: QUIC, Bluetooth
connections, Bluetooth advertisements, Wi-Fi Direct. A node sends over the cheapest medium that
works and falls back to the next one; peers that cannot be reached are reached through others, or
later.

The library under `src/` takes the decisions and is verified with Verus. It holds no sockets and
awaits nothing: what it needs to know comes in as plain values, and what it wants done goes out as
plain values. The crate under `app/` performs them.

| Module | What it decides |
| --- | --- |
| `identity`, `registry` | who a peer is, and which key belongs to it |
| `session` | handshakes, encrypted messages, sealed messages |
| `bundle`, `reassembly`, `transit` | how a message is cut to fit a medium and put together again |
| `frame`, `addresses`, `wire` | the bytes of messages, announcements and address exchanges |
| `dedup`, `dispatch` | what becomes of a message that arrives |
| `router`, `peers`, `table` | where a message is sent, and how often |
| `store` | what waits for a peer, and for how long |
| `node` | a node as a whole |
| `quic`, `ble`, `advertising`, `wifi_direct` | the rules of each medium |
| `base58`, `hex`, `text`, `error`, `transport` | what the others share |

Public proof functions whose names start with `law_` state what holds of several functions
together. Functions marked `external_body` call other crates or the standard library; what is
claimed of those calls is said above each of them, and nothing else in `src/` is taken on trust.

On Linux the Bluetooth media of `app/` need the D-Bus headers to build. Its Windows and macOS
parts need the `windows` crate, and the `objc2` family, `dispatch2` and `system-configuration`.
