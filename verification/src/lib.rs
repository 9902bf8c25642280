//! Trees, copies and merges of a version-controlled repository.

pub mod ancestor_paths;
pub mod backend;
pub mod conflict_labels;
pub mod copies;
pub mod copy_candidates;
pub mod copy_descendants;
pub mod copy_diff_laws;
pub mod copy_entry_laws;
pub mod copy_graph;
pub mod copy_history_stream;
pub mod copy_order;
pub mod copy_order_laws;
pub mod copy_record_laws;
pub mod copy_source;
pub mod copy_source_laws;
pub mod copy_trace;
pub mod copy_walk;
pub mod diff_adapters;
pub mod file_diff_laws;
pub mod hex_util;
pub mod id_collections;
pub mod listing;
pub mod matchers;
pub mod merge;
pub mod merge_label_laws;
pub mod merged_tree;
pub mod object_id;
pub mod order;
pub mod path_groups;
pub mod path_lookup;
pub mod path_map;
pub mod presence_fill;
pub mod rename_entry_laws;
pub mod rename_laws;
pub mod rename_map;
pub mod rename_scan;
pub mod repo_path;
pub mod simplify;
pub mod store;
pub mod text_laws;
pub mod timestamp;
pub mod tree;
pub mod tree_diff;
pub mod tree_diff_laws;
pub mod tree_diff_stream;
pub mod tree_diff_stream_laws;
pub mod tree_entries;
pub mod tree_read;
pub mod tree_value;
pub mod tree_walk;
pub mod tree_walk_laws;
pub mod value;
pub mod value_laws;
pub mod vectors;
