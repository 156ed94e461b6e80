//! Verified core of a desktop Markdown editor: path handling, workspace
//! scanning, document fingerprints, atomic-save planning and application
//! state storage.
//!
//! Paths are POSIX paths: `/` is the only separator, and neither `\` nor
//! Windows drive or UNC prefixes are interpreted.  The library is meant for
//! Unix-like systems; on Windows its path results differ from the platform's.

pub mod text;
pub mod path;
pub mod markdown;
pub mod error;
pub mod document;
pub mod state;
pub mod workspace;
pub mod licenses;
pub mod app_info;
pub mod menu;
