# resolve-rs

A recursive DNS resolver. The library (`src/`) holds everything that computes,
verified with Verus; the program (`app/`) holds the sockets and tasks.

- `buf` — the 512-byte packet buffer: reading and writing integers and
  domain names (with compression pointers when reading), with contracts that
  say exactly what lands in the buffer and where the position ends up, also
  when the buffer runs out. A label that starts inside the buffer but runs past
  its end is outside the readers' domain; `scan_qname`, `question_reach`,
  `record_reach` and `DnsPacket::overruns` tell beforehand whether a read
  would meet one.
- `record` — the message: header, questions, resource records and whole
  packets, each read and written against a specification of the wire format.
- `handlers` — the query sent to a server, the response returned to a client,
  and the step logic of a recursive lookup from the root servers.
- `roundtrip`, `message_roundtrip` — proofs that reading a name, header,
  question, record or whole message where it was written gives it back.
- `api` — the HTTP API type; its routes are served by the program.
