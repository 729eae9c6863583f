# dc-core

The core of a messenger without central servers, written in Verus: what it does is stated in
contracts and proved.

- `src/` is the library. Identities, envelopes and frames; the mailbox with its keyed hashes,
  replay window, ledgers and budgets; announcements of node keys; relay tickets and the share of
  strangers; the internal clock; the outgoing queue, its retries and its delivery; contacts and
  chats; what a device keeps for its sessions; addresses of nodes; settings; and the interface
  towards a user interface (`ffi`).
- `src/crypto.rs`, `src/network.rs` and two items of `src/text.rs` hold what is believed of other
  crates and of the standard library. Everything else is proved from that.
- Functions whose names begin with `law_` state what holds of the library as a whole.
- `tests/` runs the library on concrete values.
- `app/` is ordinary Rust around it: CBOR and JSON forms, encrypted databases, the settings file,
  the network node and the objects that a user interface holds.

Rates and loads are taken as integers. A rate is given as the bits of a single-precision number and
compared exactly; a load is given in millionths, and shares come out in billionths. Times are
milliseconds since 1970.
