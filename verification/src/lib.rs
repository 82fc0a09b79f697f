//! A personal knowledge-card store with spaced-repetition scheduling.
//!
//! Each fact is a card identified by a 128-bit id, linked to other cards by
//! dependency edges and annotated with a history of graded review events.
//! The crate provides the recall model (stability estimation and recall
//! prediction over a review log), the card location index with its reverse
//! dependency ("dependents") table, the freshness-checked card cache, and the
//! dependency resolver. Filesystem and clock observations enter as plain
//! values so that every rule in here is checked by Verus.

pub mod cache;
pub mod card;
pub mod categories;
pub mod common;
pub mod paths;
pub mod recall_rate;
pub mod resolver;
pub mod reviews;
pub mod timestamp;

pub use common::CardId;
