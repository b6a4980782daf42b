//! Core logic of an application launcher: entry ranking, fuzzy matching,
//! usage history, and the filter/sort rules driven by the query box.
//!
//! Strings are handled as byte sequences throughout; offsets in contracts are
//! byte offsets, as the markup ranges of the launcher require.

pub mod config;
pub mod controller;
pub mod desktop_entry;
pub mod entry;
pub mod fuzzy;
pub mod history;
pub mod locale;
pub mod rank;
pub mod util;
