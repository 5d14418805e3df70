//! A prefix tree over Unicode strings, for exact lookup and autocomplete.
//!
//! Words are traversed one codepoint (`char`) at a time, never by bytes.

use vstd::prelude::*;

pub mod trie;
pub mod laws;

pub use trie::Trie;
