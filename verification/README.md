# dtls_records

The record layer of Datagram TLS 1.2 and 1.3, written in Rust and verified with
Verus.

- `src/msgs`: record headers, acknowledgements and handshake fragments
  (`dtls`, `codec`, `message`, `record`), splitting of messages into records
  (`fragmenter`), taking records apart and putting handshake messages together
  again (`deframer`, `reassembly`). What these do together is stated and proved in
  `fragmenter_laws` and `reassembly_laws`.
- `src/hash_hs.rs`: the transcript hash of a handshake.
- `src/crypto`: protection of TLS 1.2 and 1.3 records (`tls12`, `tls13`), the cipher
  suites (`suites12`, `suites13`) and their key derivation (`prf`, `hkdf`). The
  ciphers, hashes and derivation functions themselves are those of `aws-lc-rs`,
  behind small functions whose contracts say what is relied on (`aead`, `hash`,
  `prf`, `hkdf`). `laws` says which records are protected, and that they can be opened
  again.
- `src/datagram.rs`: what a socket does next.
- `app`: sockets over a real transport.
- `tests`: tests of the library from outside.
