//! Decoder for a compact, immutable, prefix-keyed IP database: a binary trie
//! over address bits stored in a flat byte buffer, followed by a region of
//! length-prefixed UTF-8 records. Loading parses and validates the JSON
//! header, and every query walks the trie, resolves a leaf pointer into the
//! data region, and projects the record's tab-separated columns into a
//! field-to-value mapping for one language.

pub mod error;
pub mod metadata;
pub mod reader;
pub mod record;
pub mod trie;
