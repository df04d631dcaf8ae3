//! Parser and serializer for the bracketed command mini-language that marks
//! placeholders, gender declarations and choice lists inside localized
//! strings.
//!
//! Every position is counted in characters, never in encoded bytes. Digits,
//! word characters and the whitespace of a gender definition are those of
//! all scripts, as the patterns `\d`, `\w` and `\s` of the `regex` crate
//! take them; names, the kind of a choice list, the separators of choices
//! and the quoting rule are ASCII.

pub mod chars;
pub mod text;
pub mod command;
pub mod gender;
pub mod choice;
pub mod fragment;
pub mod parser;
pub mod proofs;
pub mod laws;

pub use choice::ChoiceList;
pub use command::StringCommand;
pub use fragment::{FragmentContent, StringFragment};
pub use gender::GenderDefinition;
pub use parser::{ParsedString, ParserError};
