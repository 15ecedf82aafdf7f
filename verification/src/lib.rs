//! A verified decoder for a length-prefixed, self-describing, recursive
//! binary document format: untrusted bytes in, a structured document or a
//! precise error out, with the grammar stated as spec functions and every
//! parser proved against it. The encoding direction is stated spec-level in
//! `encode`, where decoding is proved to invert it.
//!
//! The crate also carries a few smaller verified pieces that live alongside
//! the decoder: an open-addressing string map, a shell's evaluator and
//! search-path bookkeeping, and a columnar bit-packer.

pub mod bitpack;
pub mod decode;
pub mod doc;
pub mod encode;
pub mod shell;
pub mod strmap;
