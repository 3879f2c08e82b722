//! Errors reported by the file-system operations and the tools.
use vstd::prelude::*;

verus! {

/// Why a file-system operation failed.
#[derive(Clone, Copy, Debug, PartialEq, Eq, Structural)]
pub enum Error {
    /// Inode number 0 was asked for; inode numbers start at 1.
    InodeNumZero,
    /// The requested inode record would extend past the end of the image.
    InodeBeyondImage,
    /// A name was looked up in an inode that is not a directory.
    InvalidMode,
    /// No directory entry carries the requested name.
    LookupFailed,
    /// The inode bitmap has no free bit.
    NoFreeInode,
    /// The parent directory block has no free entry.
    LinkFailed,
    /// The inode already owns a first zone.
    AllocZoneFailed,
    /// The parent of a directory to be made resolved to inode number 0.
    ParentInodeNumZero,
    /// The parent directory resolved to inode number 0.
    ParentInodeZero,
    /// A directory that still holds entries was to be deleted.
    DirectoryNotEmpty,
    /// The parent directory has no data zone.
    ParentZoneZero,
    /// An inode met while walking the tree is not a directory.
    TreeNotDirectory,
    /// A directory met while walking the tree has no data zone.
    ZoneOffsetInvalid,
    /// The path does not name a directory.
    NotADirectory,
    /// The caller's buffer cannot hold the directory listing.
    BufferTooSmall,
    /// The caller's buffer does not have the size of the image.
    InvalidBufferSize,
    /// The operation would read or write outside the image, or overflow
    /// an offset computation, so it was stopped.
    Aborted,
    /// The command line does not have the expected number of arguments.
    InvalidArguments,
    /// The port argument is not a decimal number below 65536.
    InvalidPort,
    /// The port argument is 0.
    PortZero,
    /// The size in a `put` request is not a decimal number that fits.
    InvalidFileSize,
    /// A command line filled the whole buffer without ending.
    CommandTooLong,
    /// The peer closed the connection before all announced data came.
    ConnectionClosed,
}

/// The description of each error, as text.
pub open spec fn error_text(e: Error) -> Seq<char> {
    match e {
        Error::InodeNumZero => "inode_num is 0"@,
        Error::InodeBeyondImage => " total offset + base offset is longer than image length"@,
        Error::InvalidMode => "invalie i_mode"@,
        Error::LookupFailed => "lookup failed"@,
        Error::NoFreeInode => "failed to alloc inode"@,
        Error::LinkFailed => "link inode failed"@,
        Error::AllocZoneFailed => "alloc zone failed"@,
        Error::ParentInodeNumZero => "parent inode num is 0"@,
        Error::ParentInodeZero => "parent inode is 0"@,
        Error::DirectoryNotEmpty => "directory is not empty"@,
        Error::ParentZoneZero => "parent zone block number is 0"@,
        Error::TreeNotDirectory => "imode is invalid"@,
        Error::ZoneOffsetInvalid => "zone offset is invalid"@,
        Error::NotADirectory => "path is not a directory"@,
        Error::BufferTooSmall => "dir entry buffer is too small"@,
        Error::InvalidBufferSize => "invalid buffer size for Minix filesystem image"@,
        Error::Aborted => "image access out of bounds"@,
        Error::InvalidArguments => "Invalid arguments"@,
        Error::InvalidPort => "Invalid port"@,
        Error::PortZero => "Port must not be zero"@,
        Error::InvalidFileSize => "Invalid file size"@,
        Error::CommandTooLong => "Command line is too long"@,
        Error::ConnectionClosed => "Connection closed during PUT"@,
    }
}

impl Error {
    /// The human-readable description of the error.
    pub fn message(&self) -> (r: &'static str)
        ensures
            r@ == error_text(*self),
    {
        match self {
            Error::InodeNumZero => "inode_num is 0",
            Error::InodeBeyondImage => " total offset + base offset is longer than image length",
            Error::InvalidMode => "invalie i_mode",
            Error::LookupFailed => "lookup failed",
            Error::NoFreeInode => "failed to alloc inode",
            Error::LinkFailed => "link inode failed",
            Error::AllocZoneFailed => "alloc zone failed",
            Error::ParentInodeNumZero => "parent inode num is 0",
            Error::ParentInodeZero => "parent inode is 0",
            Error::DirectoryNotEmpty => "directory is not empty",
            Error::ParentZoneZero => "parent zone block number is 0",
            Error::TreeNotDirectory => "imode is invalid",
            Error::ZoneOffsetInvalid => "zone offset is invalid",
            Error::NotADirectory => "path is not a directory",
            Error::BufferTooSmall => "dir entry buffer is too small",
            Error::InvalidBufferSize => "invalid buffer size for Minix filesystem image",
            Error::Aborted => "image access out of bounds",
            Error::InvalidArguments => "Invalid arguments",
            Error::InvalidPort => "Invalid port",
            Error::PortZero => "Port must not be zero",
            Error::InvalidFileSize => "Invalid file size",
            Error::CommandTooLong => "Command line is too long",
            Error::ConnectionClosed => "Connection closed during PUT",
        }
    }
}

} // verus!
