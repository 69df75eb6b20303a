//! A filesystem indexing and retrieval engine: exact and prefix filename
//! lookup backed by a map and a character trie, binary persistence of the
//! filename index, a semantic index that averages word embeddings into
//! fixed-point vectors and ranks them by cosine similarity, a work-sharing
//! directory-walk scheduler, and the decision logic of a rate-limited
//! image-annotation pipeline.
pub mod arc_str;
pub mod codec;
pub mod embedding;
pub mod facade;
pub mod filename_index;
pub mod fixedpoint;
pub mod paths;
pub mod pipeline;
pub mod request;
pub mod store;
pub mod text;
pub mod trie;
pub mod walker;
