//! Answers from the lock-context index — for a source line, a method, or a lock: which
//! locks may be held there, by what call path, and how locks order against each other.

pub mod answer;
pub mod ask;
pub mod lines;
pub mod report;
pub mod store;
pub mod told;

pub use answer::query_json;
pub use ask::{loc, short, Query};
pub use report::query;
pub use store::{load, save};
