//! Tools that turn a Wikipedia dump into counts of links, indices and
//! documents, and that link the mentions of a short text to pages.

pub mod anchor;
pub mod anchor_counts;
pub mod bisect;
pub mod category;
pub mod chunk_lines;
pub mod doc;
pub mod find_indices;
pub mod fst_store;
pub mod indices;
pub mod loaders;
pub mod multistream;
pub mod nested_counts;
pub mod number;
pub mod order;
pub mod page;
pub mod page_iter;
pub mod ratio;
pub mod redirect;
pub mod relatedness;
pub mod search_index;
pub mod settings;
pub mod siteinfo;
pub mod sorting;
pub mod store;
pub mod surface_form;
pub mod tagme;
pub mod template;
pub mod text;
pub mod tokenizer;
pub mod trie;
pub mod tsv;
pub mod utils;
pub mod writer;
pub mod xml;
