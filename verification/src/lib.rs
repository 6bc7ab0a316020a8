//! Retrieval of the best-matching code template for a requested symbol name.
//!
//! The core is a grapheme-cluster trie with longest-match lookup ([`trie`]),
//! a scoring search that combines prefix, suffix and tag matches into one
//! best-candidate decision ([`search`]), and a fixed-block on-disk index
//! mapping template ids to cached source paths ([`template_index`]), joined
//! by the ordered template list of [`index`]: a template's position in that
//! list is its id everywhere.

pub mod index;
pub mod search;
pub mod template_index;
pub mod text;
pub mod trie;
pub mod util;
