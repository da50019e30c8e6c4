# hydra

A multipath proxy: a local SOCKS5 proxy splits streams into checksummed
chunk packets and sends them over QUIC through several nodes, which put
them back together. The logic is verified with Verus.

- `src/` — the verified library: the chunk packet format and its CRC-32,
  splitting and reassembly (with the proof that any delivery order gives the
  data back), SOCKS5 request parsing and replies, STUN message building and
  parsing, token and password authentication, rate limiting, node
  scheduling, sessions, traffic accounting and formatting, the buffer and
  connection pools, share-link text handling and the console's log.
- `tests/` — tests of the library.
- `app/` — the programs: the proxy (`hydra`) and the node (`hydra node`),
  with the networking, the QUIC and TLS setup, speed measurement and share
  links, whose metrics are floating point.

Notes on behaviour:

- Authentication attempts are limited per address with a sliding window:
  an attempt is allowed while fewer than `max_attempts` allowed attempts lie
  within the last `window_secs`; refused attempts are not counted.
- A token checker (`AuthToken::new`) remembers the nonce of every token it
  accepts and refuses a token whose nonce it has seen; `AuthToken::check_at`
  judges a token by its length, age and tag alone.
