//! Reconciles a day's raw time-tracking records into deduplicated,
//! correctly-keyed work-log entries.
//!
//! The library holds the verified core: merging raw records into canonical
//! entries, extracting ticket keys from free text and tags, ranking
//! registry-backed suggestions, and the interactive resolution and sync
//! state machines. All I/O (prompts, network, persistence) lives outside,
//! driven through the state machines' actions and events.

pub mod completer;
pub mod keyshape;
pub mod merge;
pub mod records;
pub mod registry;
pub mod resolver;
pub mod session;
pub mod strutil;
pub mod text;
pub mod timefmt;
pub mod worklog;

pub use text::clean_description;
pub use text::clean_key;
