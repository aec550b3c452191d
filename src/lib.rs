//! Locates large directories whose path names a cache, so that an operator can
//! see where disk space went.
//!
//! The library holds the decisions of the search: which directories are large
//! enough to enter, which paths count as caches, how the work stack evolves,
//! and how the matches are summed and ordered. Reading directories and
//! measuring them on disk is left to the caller, who hands the results back as
//! plain values through `CacheTraversal`.
mod folder;
mod laws;
mod pattern;
mod report;
mod traversal;

pub use folder::{
    bytes_to_mb, get_size_sum, is_large_dir, seq_sum, sizes_sum, total_file_size, CacheFolderInfo,
    MB_DIVISOR,
};
pub use laws::{
    explore, lemma_cache_path_reported_once_not_entered, lemma_reported_paths_name_caches,
    lemma_small_entry_never_pushed, lemma_tree_search_prunes_small,
    lemma_unchanged_tree_same_matches, lemma_visited_paths_are_large, measured_entries,
    sizes_from_tree, tree_outcome, after_outcome, Outcome,
};
pub use pattern::{contains_pattern, has_substring, is_cache_path, is_cache_path_spec, lower_of, occurs_at};
pub use report::{sort_by_size_desc, sorted_by_size_desc};
pub use traversal::{
    after_push, after_record, after_step, large_children, path_of, traversal_wf, was_admitted,
    CacheSearchingResult, CacheTraversal, DirChild, Step, StepView, TraversalView,
};
