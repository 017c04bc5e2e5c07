//! Battalion: a multi-repository dependency and identity manager.
//!
//! The library names, locates, versions and links independently versioned
//! repositories stored under a shared root. It covers the resource-name
//! codec, the configuration schema migrator, the repository resolver, the
//! transitive dependency walk, the link manager and the archive packager.
//! Filesystem, network and terminal work stays with the caller: the library
//! computes paths, decisions and new file contents from plain values.

pub mod archive;
pub mod batlrc;
pub mod config;
pub mod deps;
pub mod error;
pub mod ignorefile;
pub mod name;
pub mod repository;
pub mod resolve;
pub mod system;
pub mod text;
pub mod tomldoc;
pub mod version;

pub use error::BatlError;
