//! Frequency aggregation and top-K retrieval over whitespace-tokenized text
//! records: count, for every distinct token of a corpus, the number of times
//! it occurs, and report the highest-count tokens split into tag tokens
//! (those beginning with a marker character) and ordinary words, under a
//! deterministic count-then-lexicographic ranking.

pub mod count_map;
pub mod data_files;
pub mod process_tweets;
pub mod processed_tweets_output;
pub mod ranking;
pub mod tokenize;
pub mod top_k;

pub use count_map::CountMap;
pub use count_map::WordAndCount;
pub use data_files::DataFileMetaData;
