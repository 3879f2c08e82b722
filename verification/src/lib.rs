//! Verified Minix file-system image handling, with the request parsing of
//! the tools that use it.
pub mod error;
pub mod file_transfer;
pub mod fs;
pub mod layout;
pub mod minix;
pub mod minixv3;
pub mod nc;
pub mod path;
pub mod text;
