# clarity

The protocol core of Clarity Messenger as a Verus library. The functions in
`src/` carry `requires`/`ensures` contracts that Verus proves; where a result
is decided inside OpenMLS or another outside crate (a group's id or member
list, whether a group message authenticates), the contract says what the
library does with what comes back, and no more.

- `src/` — the verified library: PQXDH handshake (`handshake`), Double Ratchet
  (`ratchet`), sessions and their persistence (`session`), accounts and
  prekey bundles (`identity`, `wire`, `codec`), safety numbers (`safety`),
  sealed-sender envelopes and rotating inboxes (`envelope`, `inbox`), the
  sealed-state enclave (`enclave`), the Bluetooth mesh (`mesh`), the relay's
  store, endpoints and rate limit (`relay`), relay-client request building
  (`net`), MLS group messaging over OpenMLS (`group`) and the byte layouts of
  the C ABI (`ffi`). Cryptographic primitives, OpenMLS and base64 are called
  through small trusted wrappers in `crypto` and `group`, whose contracts
  state what those crates document.
- `tests/` — behavioural tests, run against the real outside crates.
- `app/` — the unverified shell: the relay binary (sockets, JSON bodies,
  snapshot file), the HTTP/Tor relay client, and the C ABI.

Laws proved about the library include: a responder decrypts the initiator's
first message to its plaintext; messages of a ratchet chain delivered in
any order, any of them dropped, each open with the key they were sealed under
(within the skip and cache limits); over any run of calls a session announces its handshake until a
decrypt succeeds, and a responder's session never does; accounts (with their
keys, bundle and prekeys), sessions, mesh frames and sealed enclave state
read back as written; a bundle offers the lowest-id one-time prekey; an
enclave-created account publishes the identity it was created with and a
pool numbered from 0; a saved group client's framing reads back to the same
identity, signature key and key store, rejects trailing bytes, and importing
it restores a client with that identity and exactly that key store whenever
the store holds a readable signature key (what OpenMLS then does with the
store is OpenMLS's); a one-time prekey answers one handshake only; a polled
mailbox is drained, since every store keeps one mailbox per key; any run of
fetches hands a pool out oldest first; a mailbox keeps the longest run of newest messages
within its caps; base64 query values, with `+` escaped and `/` and `=`
escaped or not, decode back to the base64 text; the per-peer rate limit admits exactly its budget per minute;
safety numbers are symmetric and always twelve groups of five digits.
