//! Spelling correction against a sorted word list.
//!
//! A word that is in the dictionary is correct. Otherwise the closest entry,
//! by edit distance, is suggested when it is close enough. The search starts
//! where the word would be inserted in the sorted dictionary and walks outwards
//! in both directions, computing each distance with the best distance found so
//! far as its limit, and stops as soon as it meets an entry one edit away.
pub mod config;
pub mod dictionary;
pub mod distance;
pub mod search;
pub mod text;
pub mod tokens;

pub use config::Config;
pub use dictionary::load_dictionary;
pub use distance::edit_distance;
pub use search::{spellcheck, Correction, MAX_DIFFERENCE};
pub use tokens::{tokenize, tokenize_word, Capitalization, Token};
