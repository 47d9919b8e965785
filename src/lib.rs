//! Directory-scoped command aliases: a store of per-directory command maps,
//! named links between directories, and the resolution that merges them.
mod assoc;
mod config;
mod dispatch;
mod laws;
mod project;
mod script;

pub use assoc::{assoc, has_key, unique_keys};
pub use config::{
    direct_at, fill_from_labels, is_prefix_end, labels_at, merge_level, project_tables, resolved,
    resolved_upto, Config, ConfigView, RemoveError,
};
pub use dispatch::{
    command_line, command_line_of, config_file_in, config_file_path, confirmed, invocation, is_yes,
    join_words, joined, shell_arguments, shell_flags, trimmed, Invocation,
};
pub use laws::{
    lemma_deepest_definition_wins, lemma_fill_keeps_bound, lemma_linked_names_visible,
    lemma_local_beats_linked, lemma_own_definition_wins, lemma_resolution_deterministic,
    lemma_unrelated_isolated,
};
pub use project::Project;
pub use script::{new_script_file_name, script_file_name};
