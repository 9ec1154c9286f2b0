//! Jump into preconfigured project directories: a registry of named projects,
//! navigation into their subdirectories, and the shell command that opens a
//! session in one of them.
pub mod config;
pub mod error;
pub mod manager;
pub mod order;
pub mod project;

pub use config::{Document, Entry, Field};
pub use error::GotoError;
pub use manager::Manager;
pub use project::{sorted_subdirs, DirItem, Project};
