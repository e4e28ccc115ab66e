# xmip-core-transport-syslog

Syslog transport: one RFC 5424 message is one Stream, the header in the origin;
UDP datagrams or TCP with octet counting.

`src/` is the library, verified with Verus. It decides; it opens no socket.

- `message` reads and writes the RFC 5424 header.
- `calendar` turns seconds since the epoch into a timestamp.
- `arrival` turns a message into what arrived and where it came from.
- `node` words what a node sends and routes it.
- `connection` says what to read next from a TCP sender and what came of it;
  `session` gathers all of one sender's messages.
- `text` and `ascii` hold numbers, text and bytes; `order` the order of texts;
  `error` the refusals.
- `laws` and `stream` state and prove what holds across these: what is written
  is read back, what is framed arrives.

`app/` holds the sockets, on the estate's `transport` crate. `tests/` runs the
library.
