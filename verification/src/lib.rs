//! Local secret-lifecycle manager for environment files: classifies
//! discovered files, derives skeleton (example) files, encrypts and
//! decrypts artifacts, repairs the key-holding config file and keeps
//! the ignore-file in sync.
//!
//! Paths and file contents are handled as byte vectors throughout, so
//! that every rule of the tool is a verified function on plain values.

pub mod bytes;
pub mod lines;
pub mod paths;
pub mod classify;
pub mod skeleton;
pub mod gitignore;
pub mod crypto;
pub mod config;
pub mod workflow;
