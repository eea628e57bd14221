# laliga-dns-evade

A DNS response rewriting layer. It reads the address records of each DNS response
(`A`, `AAAA`, and the `ipv4hint`/`ipv6hint` parameters of `SVCB` and `HTTPS` records).
A blocked address that lies inside a configured network is replaced in place by the
nearest unblocked address of that same network, and the AD flag is then cleared.
Blocked addresses outside the networks are reported and left unchanged.

## Layout

- `src/`: the library, written in Verus. Every function carries a contract that Verus
  proves: the DNS wire-format reader and the in-place rewrite (`dns`), the text formats
  of the blocklist and the network lists (`text`, `blocklist`, `networks`), the search
  for a replacement address (`networks`), and the rewrite policy (`policy`). The
  properties that relate several functions (reading back a rewritten response, clearing
  the AD flag, where a replacement may come from) are proof functions in `dns_proofs`,
  `networks` and `policy`.
- `app/`: the proxy program: it reads the runtime files, listens on UDP and TCP,
  forwards to the upstream resolver and applies the policy to every response (over TCP,
  to each length-prefixed message).
- `tests/`: tests of the library on concrete messages and lists.
