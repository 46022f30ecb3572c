//! Pairwise-comparison core: exhaustive unordered pairs over a set of items,
//! a sequencer that presents each pair exactly once while preferring to keep
//! the previous winner on screen, and a simple win-count score tracker.

pub mod items;
pub mod pairs;
pub mod scores;
pub mod sequencer;

pub use items::Comparison;
pub use items::Item;
pub use pairs::Comparisons;
pub use scores::Scores;
pub use sequencer::ComparisonResultTracker;
pub use sequencer::RetainItemIterator;
