//! Dictionary-driven morphological analysis: a text is normalized by a chain
//! of input text plugins, every dictionary word found in it becomes a node of
//! a lattice, offsets where no word starts get out-of-vocabulary nodes from
//! the configured providers, and a cheapest path through the lattice, by
//! occurrence and connection costs, gives the morphemes.
//!
//! Out-of-vocabulary providers run only at offsets where no dictionary word
//! starts; with no provider, such an offset is reported as an error.


pub mod character_category;
pub mod grammar;
pub mod lexicon;
pub mod lattice;
pub mod input_text;
pub mod plugin;
pub mod morpheme;
pub mod tokenizer;
pub mod dictionary;
