//! The columnar storage engine of a source-code index: verified logic.

pub mod backend_set;
pub mod build_context;
pub mod build_laws;
pub mod bytes;
pub mod chain_derive;
pub mod chain_laws;
pub mod chain_manifest;
pub mod clauses;
pub mod codec;
pub mod collapse;
pub mod columnar_storage;
pub mod delta_file;
pub mod digest;
pub mod dirty_overlay;
pub mod fields;
pub mod filter;
pub mod filter_laws;
pub mod gc;
pub mod gc_laws;
pub mod index_nodes;
pub mod manifest;
pub mod name_index;
pub mod node_id;
pub mod open_cache;
pub mod order;
pub mod order_laws;
pub mod overlay;
pub mod path_parts;
pub mod paths;
pub mod paths_laws;
pub mod pattern;
pub mod rows;
pub mod segment;
pub mod segment_builder;
pub mod segment_laws;
pub mod sort;
pub mod text;
pub mod text_index;
pub mod top_k;
