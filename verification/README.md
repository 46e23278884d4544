# nullbox

The core of NullBox, an operating system for AI agents, as a Verus library:
the functions in `src/` carry contracts that Verus proves. The calls into
outside crates (SHA-256, AES-GCM, PBKDF2, the system random source, JSON
serialization) go through small wrappers whose contracts are believed, not
proved; each says in its doc comment what it claims of the outside code.

## Layout

- `src/nulld/` — PID 1's decisions: service definitions and their start and
  stop orders (Kahn's algorithm), the supervisor's restart policies and
  exponential backoff, the mount table, and the configuration's service
  entries.
- `src/cage/` — AGENT.toml manifests and their validation, the microVM
  configuration derived from a manifest, the bookkeeping of running VMs, and
  the order of libkrun calls that configures and starts a VM.
- `src/egress/` — IP addresses (order and text form), the blocklists, the
  registry of agents and their allowed addresses, and nftables ruleset
  generation.
- `src/ctxgraph/` — content addresses of shared-memory entries (SHA-256).
- `src/warden/` — AES-256-GCM encryption, PBKDF2 key derivation, master key
  resolution, and the secret vault with its sealed storage form.
- `src/text.rs`, `src/order.rs`, `src/hex_text.rs` — decimal and hexadecimal
  text, trimming, and the lexicographic order of strings.
- `app/` — the programs around the library: the daemons' sockets and
  protocols, system calls, file access, SQLite storage, libkrun's C
  interface, and the serde forms of the library's types.
- `tests/` — tests of the library from outside.
