//! A trainer for byte-level vocabularies. From raw bytes it finds the substrings
//! that recur, gives each the number of bytes that it would save as a token, and
//! takes them greedily, chunk by chunk, into a vocabulary of tokens with scores.
//!
//! The training engine is in `counter`, `scorer`, `segmenter` and `trainer`, on
//! the data types of `corpus` and `table`; `orchestrator` cuts the input into
//! chunks, trains them on one thread or many, and merges the results with
//! `vocabulary`. `vocab_file` writes and reads the vocabulary file, `codec` holds
//! a vocabulary that was read, and `options` reads the command line.

pub mod codec;
pub mod corpus;
pub mod counter;
pub mod debug_enum;
pub mod numbers;
pub mod options;
pub mod orchestrator;
pub mod order;
pub mod params;
pub mod scorer;
pub mod search;
pub mod segmenter;
pub mod table;
pub mod tokenizer_mode;
pub mod trainer;
pub mod vocab_file;
pub mod vocabulary;
