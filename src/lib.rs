pub mod classic;
pub mod symbol;

pub use classic::Trie;
pub use symbol::{Char, Chars};
