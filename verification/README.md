# vlerv

The decision logic of Vlervtifacts' remote stack and of its headless
`vlerv-mcp` server, verified with Verus: the scope protocol's rules, the
path gate, Beam offers and the request gate, peer-locked grants, the
persistent send queue and the step-by-step decisions of its drain (each
step is verified; the loop that awaits the network between steps is not
in this crate), and the text every tool answers with.

## Layout

- `src/` — the verified library. Every executable function states its
  result in `requires`/`ensures`; the laws that span several functions are
  public proof functions named `law_…`.
  - `proto` framing and device names; `text`, `order` shared string and
    ordering helpers.
  - `paths` the state directory and the root check; `scope` the path gate,
    the host's handshake and request routing, tree listings and the client's
    answers; `sessions` the live sessions a host holds; `gate` the blob
    provider's request gate; `grants` per-peer capabilities.
  - `beam` offers, tickets, names, content addresses and the received
    folder; `outbox` the send queue; `peers`, `devices`, `args` pairing and
    argument rules; `server_core` and `server` the server's decisions and
    the sentences it answers with; `host` the seams to a hosting
    application; `cli` the `vlerv` command line.
- `app/` — ordinary Rust around it: the `vlerv` binary, the wire codec
  (postcard), the send queue's files (JSON) and the directory walks.
- `tests/` — tests against the library's public API.

The network transport (iroh endpoints, the blob store, the MCP server) is
not part of this crate: where the stack awaits it, the library exposes the
decision taken on its answer.
