# weirdns

A DNS forwarder with odd DNS64 habits, written in Verus: rules select, by domain or pattern of
domains, which upstream servers are asked, whether IPv4 addresses are taken out of answers, and
whether IPv6 addresses are synthesized from IPv4 ones under a prefix.

- `src/` is the verified library.
  - `text`, `domain`, `glob`, `trie`: names, patterns, and the table that is searched from the right.
  - `message`, `wire`: messages as plain values, and as octets through `simple_dns`.
  - `instance`, `dns64`: which rule holds for a query, and the steps in which it is answered.
  - `transport`, `dns`, `addr`: which server is asked next, and how messages go over TCP.
  - `config`, `files`, `loader`: what configuration files say, and the order in which they are read.
  - `notify`: where a service manager is told that the service is ready.
- `app/` is the program around it: sockets, files and the command line.
- `tests/` runs the library with the crates that it calls.

The library does no I/O. Where a query or a configuration needs something from outside, a step says
what, and the program comes back with the result.
