//! An in-memory full-text search library for short documents.
//!
//! Documents are indexed by their normalized words in a finite-state
//! transducer that maps each word to a posting bitmap. A query is matched
//! word by word within a bounded edit distance, and the matching documents
//! are ordered by a cascade of ranking rules.

pub mod bitmap;
pub mod builder;
pub mod candidate;
pub mod dictionary;
pub mod driver;
pub mod index;
pub mod disjointness;
pub mod ranking_rules;
pub mod search;
pub mod sorting;
pub mod termination;
pub mod text;
pub mod wire;

pub use crate::candidate::WordCandidate;
pub use crate::index::Index;
pub use crate::ranking_rules::exact::Exact;
pub use crate::ranking_rules::typo::Typo;
pub use crate::ranking_rules::word::Word;
pub use crate::ranking_rules::{RankingRule, RankingRuleImpl};
pub use crate::search::Search;
pub use crate::text::normalize;
