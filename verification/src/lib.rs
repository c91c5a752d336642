//! The verified core of the mochiOS Files application: path handling,
//! directory listings, the browsing state machine, the sidebar bookmark
//! store and its binary format, and the small text rules around them.

pub mod browser;
pub mod calendar;
pub mod entry;
pub mod listing;
pub mod metadata;
pub mod panel;
pub mod path;
pub mod places;
pub mod file_association;
pub mod icons;
pub mod interaction;
pub mod format;
pub mod sidebar;
pub mod store;
pub mod strings;
pub mod text;
