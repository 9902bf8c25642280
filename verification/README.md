# jj_lib

The tree and copy-tracing core of a version-control library, written in Verus:
merges of directory trees, their conflicts and differences, and the history of
copies and renames. Every function of `src/` is verified against its contract.

Backends do I/O, so nothing in `src/` reads a tree itself. A function that needs
one is a state machine instead. It says which trees, copies or paths it wants
next, and the caller hands back what was read. What the whole run returns is
stated over an oracle that maps each request to its answer.

## Layout

- `src/backend.rs`, `object_id.rs`, `timestamp.rs`, `tree_value.rs`: the data model.
- `src/merge.rs`, `simplify.rs`, `conflict_labels.rs`: merges and their labels.
- `src/merged_tree.rs`, `tree.rs`, `tree_read.rs`, `path_lookup.rs`: trees with
  conflicts, and reading them.
- `src/tree_entries.rs`, `tree_walk*.rs`: entries and conflicts of a tree.
- `src/tree_diff*.rs`, `diff_adapters.rs`: differences between two trees, read one
  directory at a time or several at once.
- `src/copies.rs`, `copy_*.rs`: copy records, the graph of copies, and tracing the
  sources of a file.
- `src/rename_*.rs`, `presence_fill.rs`, `path_groups.rs`, `ancestor_paths.rs`:
  renames between the terms of a merge. `rename_laws.rs` states what a whole run
  gives, and `copy_entry_laws.rs` how that goes with the trees of the merge.
- `src/order.rs`, `listing.rs`, `value.rs`, `vectors.rs`, `path_map.rs`,
  `id_collections.rs`: what the rest is built on.
- `tests/`: tests of the library, on a repository in memory.
- `app/`: the asynchronous `Backend` trait, and the streams that drive the library.

Public proof functions whose names begin with `law_` state what holds across
functions.
