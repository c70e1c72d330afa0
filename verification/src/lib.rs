//! Blog aggregation engine: extracts frontmatter records from documents and
//! reconciles them into persisted aggregate listings (per-group metas, capped
//! recency lists, a global index, and a collections directory).
pub mod strutil;
pub mod article;
pub mod models;
pub mod codec;
pub mod reconcile;
pub mod processor;
