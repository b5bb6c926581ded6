# hydration_client

Cloud files on demand: a local directory that shows everything a remote account
holds, with the bytes fetched when they are read. This crate is the client side
of it. It decides what to place, fetch, send, keep and give up, so that neither
side's work is lost, and it proves that the decisions are what it says they are.

## Layout

- `src/` is the library. All of it is verified with Verus: every function states
  in its contract what it returns or changes, and the rules that hold across
  functions stand beside them as proof functions named `law_...`.
- `app/` is ordinary Rust around the library: files, extended attributes, inotify,
  sockets and threads. It gathers facts, hands them to the library and carries
  out what comes back. What the privileged helper and the cloud service supply
  enters through the traits of `app/host.rs`.
- `tests/` runs the library on concrete values.

## The library, by concern

| modules | what they decide |
|---|---|
| `namespace`, `namespace_laws`, `namespace_order`, `namespace_subtrees` | what a service's item feed does to paths |
| `delta`, `pass`, `folder_index` | applying remote changes without losing local ones |
| `store`, `lineage`, `manifest`, `serve` | which cloud object a local file is, and what a read is answered |
| `upload`, `upload_job`, `folder_creates` | when a change is sent, and what happens when the file moves or goes meanwhile |
| `removals`, `local_changes`, `offline`, `resync` | what local deletions and renames mean for the cloud |
| `reclaim`, `evict_policy`, `selection` | which files may give their disk space back, and which folders are left out |
| `place`, `mount`, `paths` | where a file goes, and whether that is inside the sync root |
| `daemon_loop`, `control`, `watch`, `wire`, `desktop`, `transfers`, `args` | the daemon's rounds, its control socket and what it shows |
| `conformance`, `invariants`, `cloud`, `reference`, `providers` | what an implementation has to keep, and clouds to test against |
| `table`, `sort`, `text`, `number` | the data structures underneath |

The library keeps paths as text. Time enters as a number, and what the file
system says enters as a value, so every rule can be tried without either.
