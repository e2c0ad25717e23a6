# mkd-gcm

Client library for the Golden Circlet Memory (GCM) network, written in Verus.

- `src/` is the verified library: group paths (`GroupPath`, `sanitize_token`,
  task leaves), header maps, the endpoint and environment configuration, the
  OAUTHBEARER message, the connection handshake as a state machine, the post
  and article formats, the parsing of server replies (`ARTICLE`, `LIST
  ACTIVE`, `XOVER`), the file layout of the file store, the legacy wing/room
  mapping, and the client handle behind the C ABI. Contracts are stated over
  spec functions (the one exception is the platform path join of the file
  store's group directory, which has none); the laws (reading back a post, the reverse
  of the legacy mapping, header-map updates, path validity) are public proof
  functions.
- `app/` is the host side: blocking TCP sessions, file I/O, the process
  environment, the `MemoryStore` trait, serde forms of the data types, the
  `std::error::Error` form of the error, and the `extern "C"` entry points.
- `tests/` runs the library on concrete values.

Header maps are a sorted `Vec` of `(name, value)` pairs (`HeaderMap`) with
the ordering as a type invariant, in place of a `BTreeMap<String, String>`:
with `String` keys the map's specification in Verus does not let a
contract follow an insertion, and the laws of header maps (a read after a
write, a second write winning) are stated and proved over the sorted
sequence.
