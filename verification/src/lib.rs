//! Collects the textual content of files into ordered, size-bounded chunks of
//! whitespace-delimited tokens.
//!
//! The pipeline: each file's lines are wrapped with a provenance header
//! (`frame`), the resulting text is split into tokens (`tokenizer`), and the
//! token sequences are packed, in file order, into chunks of at most
//! `token_limit` tokens each (`packer`); `files` runs the whole pipeline over
//! a list of files already read into memory. The laws that the packer obeys —
//! losslessness, the chunk-size bound, deterministic splitting of oversized
//! files, and determinism of the whole run — are stated and proved in `laws`.

pub mod files;
pub mod frame;
pub mod laws;
pub mod packer;
pub mod tokenizer;
