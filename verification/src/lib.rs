//! A library for the NBT-style binary tree format: a recursive,
//! self-describing, big-endian serialization of named, typed tags.
//!
//! The crate decodes a byte buffer into a [`tag::Tag`] tree, re-encodes a
//! tree into bytes, addresses single nodes of a tree by a path of
//! compound-member names and array indices, and parses text literals into
//! leaf payloads.  The encoder and decoder are verified inverses: decoding
//! the encoding of any decoder-producible tree yields that tree back.

pub mod bytes;
pub mod decode;
pub mod encode;
pub mod tag;
pub mod text;
pub mod translate;
pub mod traversal;
