//! A trie over characters that counts the words put into it.

pub mod codec;
pub mod decimal;
pub mod laws;
pub mod model;
pub mod node;
pub mod record;
pub mod round_trip;
pub mod text;
pub mod trie;
pub mod walk_laws;
pub mod wordlist;

pub use record::ReadError;
pub use trie::Trie;
pub use wordlist::{from_wordlist, from_wordlist_if};
