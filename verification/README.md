# rorolala

Content-addressed storage, the wire formats a Workspace and a Vault speak, and the identities
they prove to each other, with the behaviour of each part stated as a contract and proved.

- `src/` is the library, verified with Verus:
  - `storage`: keys, frames, codecs, chunkers, manifests, packs and their indexes, what a repack
    does to them, the store's choices and layout, and the transfer protocol's framing and plan;
  - `auth`: keys and signatures, the handshake's messages and state machines, and the sealed
    records a session carries;
  - `protocol`: addresses, the values each side holds, their encoding and framing;
  - `daemon`: the request a Workspace makes, who a Vault admits, and how a full sync is planned
    and carried;
  - `repeat`: the token-tree rewriting that expands a repeated template;
  - `errors`, `text`, `decimal`, `bytes`: what the rest shares.
- `tests/` runs the library on concrete values.
- `app/` is what stands around it: files and sockets, the async stream and the daemon's loop.
