//! Token frequency counting over byte inputs split into chunks.
//!
//! An input is split into contiguous chunks (`chunk`), each chunk is counted apart in one
//! of two tokenizer modes (`counter`): exact words of ASCII letters and digits, kept in a
//! `TextCount`, or 64-bit fingerprints of letter runs, kept in a `WordCount`. Partial
//! counts are merged (`pipeline`) and written as sorted `key<TAB>count<LF>` lines
//! (`report`). Counts stop at `u32::MAX` rather than wrap. Chunk boundaries ignore token
//! structure; `laws` proves that when every boundary follows a delimiter the merged
//! counts equal those of the whole input, and states the other properties that hold of
//! every input.

pub mod chunk;
pub mod counter;
pub mod entries;
pub mod laws;
pub mod lex;
pub mod pipeline;
pub mod report;
pub mod text_count;
pub mod tokens;
pub mod word_count;
