//! Tokenizer and serializer for a legacy rich-text markup byte format.
//!
//! The format mixes four backslash-introduced directive shapes (symbol,
//! word, hex-escape and length-prefixed binary run) with group delimiters,
//! line terminators and opaque text runs. The lexical grammar is ambiguous
//! under naive scanning, so the scanners are tried in a fixed precedence
//! order; `grammar` states that order and the meaning of every scanner as
//! spec functions over byte sequences, `raw` holds the verified primitive
//! and directive scanners, `tokenizer` assembles whole token streams and
//! renders them back to bytes, and `laws` proves the round-trip property
//! of the serializer against the tokenizer.

pub mod grammar;
pub mod laws;
pub mod raw;
pub mod tokenizer;
