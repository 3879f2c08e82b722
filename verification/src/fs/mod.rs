//! The file system of the kernel: the Minix v3 image code, its manager
//! and the files that processes open.
pub mod fs_minix;
pub mod laws;
pub mod minix;
pub mod minix_manager;
pub mod undo;
