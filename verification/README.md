# rbuild

Run a build command locally, have it compile on a remote machine, and get the
artifacts back as if they had been built here:

```
cargo build   ->   syncs the code to the remote   ->   builds in a container
              <-   pulls the binary back
```

Your machine stays the source of truth. If the remote is unreachable, builds
fall back to the local toolchain. Sync is two-way: concurrent changes merge in
both directions, deletes propagate, and a file that two machines edited
differently is kept, with the other copy saved beside it as
`<file>.rbuild-conflict-<host>`.

## Layout

- `src/` is the verified core, written in Verus. It performs no I/O.
  - `transport`, `proto`: frames on the wire and the messages they carry.
  - `scan`, `merge`: content-addressed manifests, and the three-way merge.
  - `chunk`, `hash`: content-defined chunking, deltas, compression, digests.
  - `config`, `path`, `text`: configuration, paths and text.
  - `client/`: sync rounds, builds, shims, shell hooks, deployment, the agent.
  - `daemon/`: sync sessions, the serve loop's decisions, build backends.
- `app/` is ordinary Rust around it: the terminal, the filesystem, SSH, Docker,
  and the encodings (JSON on the wire, TOML on disk).
- `tests/` runs the library on concrete values.

Public proof functions whose names begin with `law_` state what holds of the
library as a whole: that a frame is read back as it was written, that a delta
reconstructs the file, that a round of sync loses no change and converges, that
uninstalling undoes installing, that no path a peer sends leaves the workspace.

What the proofs take on trust are the contracts of the wrappers around outside
crates: BLAKE3, zstd, globset, tar and directories, and a few functions of the
standard library. Each says in its comment what is believed.
