//! A buffered, append-only log: log lines are assembled as byte strings
//! (`LogItem`), collected in a per-writer buffer (`Collector`), and handed
//! out in large chunks for writing.

pub mod collector;
pub mod item;


pub use item::LogItem;
pub use collector::{flush, log, log_str, Collector};
