//! Query ranking for a pre-indexed web corpus: lexical normalisation,
//! term counting, candidate selection and two-stage ranking, result
//! assembly, and a time-windowed admission cache that gates requests.

pub mod keyed;
pub mod text;
pub mod token_cache;
pub mod database;
pub mod lemmatise;
pub mod ranking;
pub mod request;
pub mod result_formatter;
pub mod scoring;
pub mod authority;
