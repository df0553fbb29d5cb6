//! Nix store reference scanning and rewriting, NAR serialisation and hashing,
//! store path construction and derivation ATerm handling.

pub mod nixbase32;
pub mod refscan;
pub mod reader;
pub mod hashing;
pub mod text;
pub mod nixhash;
pub mod store_path;
pub mod sorted;
pub mod aterm;
pub mod aterm_write;
pub mod keyed;
pub mod derivation;
pub mod aterm_refs;
pub mod nar;
pub mod nar_hash;
pub mod content_hash;
pub mod ingest;
pub mod stream;
