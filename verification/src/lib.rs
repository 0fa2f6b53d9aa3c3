//! Lore: a brain-inspired long-term memory for coding conversations.

pub mod changes;
pub mod client;
pub mod config;
pub mod consolidation;
pub mod contradiction;
pub mod deep;
pub mod descent;
pub mod digest;
pub mod digestion;
pub mod edge;
pub mod embedding;
pub mod explorer;
pub mod fixed;
pub mod fragment;
pub mod icon;
pub mod ingestion;
pub mod json;
pub mod lists;
pub mod parser;
pub mod paths;
pub mod query;
pub mod reflection;
pub mod relevance;
pub mod rows;
pub mod segments;
pub mod server;
pub mod siblings;
pub mod status;
pub mod storage;
pub mod store;
pub mod text;
pub mod tray;
pub mod trees;
pub mod watcher;
pub mod wide;

pub use crate::edge::{Edge, EdgeId, EdgeKind};
pub use crate::embedding::cosine_similarity;
pub use crate::fragment::{Fragment, FragmentId, ScoredFragment, Tree};
pub use crate::query::LoreDb;
pub use crate::relevance::{compute_relevance, SEMANTIC_WEIGHT};
pub use crate::storage::{StagedSession, StagedTurn, Storage};
