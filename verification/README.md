# sandlock_core

The decisions of a process sandbox, written in Rust and verified with Verus: what a
call that a branch answers is told, when a snapshot may be published or destroyed, how
a delta is applied, what a launch mounts, and when a session may be paused or ended.

The library does no input or output. A function that decides about the system takes
what was seen of it as plain values and says what to do next; its contract says so for
every value. Steps that depend on each other are small machines: each call gets what
was learned so far, and tells what is asked next or how it ends.

## Layout

- `src/path.rs`, `src/path_map.rs`, `src/byte_set.rs`, `src/byte_map.rs`,
  `src/text.rs`, `src/text_set.rs`, `src/byte_order.rs`: paths, ordered maps and sets,
  text, and numbers in memory.
- `src/snapshot/`: snapshots, from the index (`index`, `assembly`, `stored`) and its
  differences (`diff`, `delta`, `forming`) to applying them (`apply`, `validating`,
  `deeds`, `converging`), making snapshots (`capture`, `copying`, `overlay`,
  `layering`, `reindexing`, `mutation`), looking into them (`inspect`, `inventory`,
  `compare`, `comparing`) and ending them (`handle`, `leases`, `lifecycle`).
- `src/cow/`: the calls that a copy-on-write branch answers. `walk` leads to a path,
  `opening`, `reading` and `writing` run whole calls, the other modules hold their
  parts.
- `src/branch.rs`, `src/deferred_commit.rs`, `src/run.rs`: the life of a branch.
- `src/filesystem_backend.rs`, `src/bubblewrap/`, `src/bootstrap.rs`: what is mounted,
  how the launcher is started, and what runs behind the mounts.
- `src/execution_domain/`, `src/task_stat.rs`: the processes of a session.
- `src/seccomp/`, `src/netlink/`: the state that the supervisor keeps.
- `tests/`: tests of the compiled library.
- `app/`: the system side, ordinary Rust that performs what the library decides. The
  storage of branches and the memory of tasks come in through traits (`CowSystem`,
  `BranchStore`, `TaskMemory`, `CallMemory`) that a host implements.

Laws that span several functions are public proof functions whose names begin with
`law_`.

## What is trusted

Functions of other crates are called behind small wrappers whose contracts are
believed: `blake3::hash` (`src/snapshot/index.rs`), bincode's options
(`src/snapshot/stored.rs`), `uuid::Uuid` (`src/ids.rs`), `serde_json::to_string`
(`src/deferred_commit.rs`). `rand_chacha::ChaCha8Rng` is
declared in `src/seccomp/state.rs`: it is carried through, and nothing is said of it. Of
the standard library, `str::from_utf8`, `String::from_utf8_lossy` and `String::push` are
specified in `src/text.rs`.
