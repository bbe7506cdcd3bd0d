//! A personal reference manager's core: a bounded, bidirectionally
//! scrollable window over an on-disk collection of bibliography entries,
//! the session state machine that drives browsing and the
//! delete-confirmation dialog, and the entry file format itself.

pub mod args;
pub mod codec;
pub mod loader;
pub mod paper;
pub mod paths;
pub mod pdfs;
pub mod popup;
pub mod session;
pub mod store;
pub mod tags;
