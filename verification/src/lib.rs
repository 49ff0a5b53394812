//! A solver for monoalphabetic substitution ciphers ("cryptoquotes").
//!
//! Given a ciphertext in which every letter of the message has been replaced
//! by another, always the same one, and a dictionary of words, the solver
//! looks for an assignment of ciphertext letters to plaintext letters under
//! which every token of the ciphertext is a word of the dictionary.
//!
//! - [`mapping`]: [`Mapping`], a partial assignment of ciphertext letters to
//!   plaintext letters, with value semantics.
//! - [`text`]: ciphertexts as tokens separated by single spaces.
//! - [`words`]: [`WordIndex`], the dictionary grouped by word length, and
//!   [`words_by_length`], which builds it from a word list.
//! - [`curated`]: the common two- and three-letter words.
//! - [`completion`]: the rule by which a partial assignment is extended to all
//!   26 letters.
//! - [`search`]: [`crack`], which tries prefixes of increasing size, all
//!   prefixes of one size in parallel.
pub mod completion;
pub mod curated;
pub mod mapping;
pub mod search;
pub mod text;
pub mod words;

pub use mapping::Mapping;
pub use search::crack;
pub use text::longest_token;
pub use words::{words_by_length, WordIndex, WordSet};
