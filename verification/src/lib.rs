//! A small configuration library: a parsed document tree is flattened into a
//! single-level, dot/bracket-addressed key-value store, exposed through an
//! immutable, cheaply shareable `Config` handle with typed getters.

mod config;
mod error;
mod flatten;
mod index_store;
mod laws;
mod node;
mod numtext;
mod parse;
mod render;
mod store;
mod strorder;
mod value;

pub use config::{lemma_load_idempotent, lemma_shared_lookups_agree, Config};
pub use error::{message_text, Error};
pub use flatten::{array_child_key, doc_map, flat_of, table_child_key};
pub use laws::{
    begins_with, key_join, leaf_key, lemma_flat_keys_prefixed, lemma_flat_keys_unique,
    lemma_primitive_array_entry, lemma_table_array_entries, lemma_table_scalar_key_set,
    lemma_table_scalar_values, no_arrays, sep_free_names, tree_at, wf_table_names,
};
pub use node::{entries_map, unique_keys, Node};
pub use numtext::{dec_digits, dec_int, i64_to_decimal, u64_to_decimal};
pub use render::render_entry;
pub use store::{sorted_keys, DefaultStore, ListStore, SortedStore, Store};
pub use strorder::chars_lt;
pub use value::Value;
