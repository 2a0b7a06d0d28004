//! Mutable filesystem state and detached file handles.

pub mod allocation;
pub mod create;
pub mod file;
pub mod growth;
pub mod listing;
pub mod lookup;
pub mod metadata;
pub mod mount;
pub mod names;
pub mod paths;
pub mod release;
pub mod remove;
pub mod rename;
pub mod space;
pub mod state;
pub mod stream;
pub mod walk;

pub use file::File;
pub use state::FileSystem;
