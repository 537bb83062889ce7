# hash_distribuido

A distributed hash table on a ring of `2^p` nodes, written in Verus.

- `src/anel.rs`: the owner of a key (sum of its bytes modulo the ring size),
  the next hop of a request (the longest power-of-two jump that does not pass
  its destination), and the proof that a request arrives within `p` hops.
- `src/texto.rs`: the text protocol on bytes: messages are cut at `--`
  separators that are not escaped, and each piece is then unescaped (`\--` to
  `--`), so keys, values and addresses keep their own `--`; with the proofs
  that escaped pieces come back out as they went in.
- `src/decimal.rs`: decimal text of `i32`, written and read back.
- `src/tabela.rs`: a node's table of values and of consults waiting for a key,
  with the laws over any sequence of requests (the last write is read; every
  consult is answered once).
- `src/no.rs`: what a node does with a message (`trata`), and the proofs that
  forwarded requests are served at their destination.
- `src/disthash.rs`: what the client sends and how it reads an answer.
- `app/`: the server, client and test-harness programs (sockets, processes,
  threads), which carry out what the library decides.
