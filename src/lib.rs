//! Resolution, locking and fetching of content-addressed store paths.
pub mod text;
pub mod store_path;
pub mod narinfo;
pub mod system;
pub mod fetch;
pub mod package;
pub mod lockfile;
pub mod state;
pub mod template;
pub mod environment;
pub mod propagate;
pub mod manifest;
pub mod cli;
