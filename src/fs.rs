//! What the filesystem answers the kernel: entry kinds, attributes, errors and
//! the filesystem statistics reply.

use vstd::prelude::*;

verus! {

/// How long, in seconds, the kernel may keep an attribute reply.
pub const ATTR_TTL_SECS: u64 = 60;

#[derive(Debug, Clone, Copy, PartialEq, Eq, Structural)]
pub enum FileKind {
    Directory,
    RegularFile,
}

pub open spec fn kind_of(directory: bool) -> FileKind {
    if directory {
        FileKind::Directory
    } else {
        FileKind::RegularFile
    }
}

/// One entry of a directory enumeration.
#[derive(Debug, Clone)]
pub struct DirectoryEntry {
    pub name: String,
    pub kind: FileKind,
}

/// The attributes reported for a path. Times are seconds since the Unix epoch.
#[derive(Debug, Clone, Copy, PartialEq, Eq, Structural)]
pub struct FileAttributes {
    pub size: u64,
    pub blocks: u64,
    pub modified_secs: i64,
    pub kind: FileKind,
    pub perm: u16,
    pub nlink: u32,
    pub uid: u32,
    pub gid: u32,
    pub rdev: u32,
    pub flags: u32,
}

/// Why a request fails.
#[derive(Debug, Clone, Copy, PartialEq, Eq, Structural)]
pub enum FsError {
    /// The path is not known (`ENOENT`).
    NotFound,
    /// The request cannot be served: writes, links, extended attributes, and
    /// paths whose metadata could not be had (`ENOSYS`).
    NotSupported,
}

/// Relies on `libc::ENOENT`, the "no such file or directory" error number, which
/// like every errno value is positive.
#[verifier::external_body]
fn errno_not_found() -> (r: i32)
    ensures
        r > 0,
{
    libc::ENOENT
}

/// Relies on `libc::ENOSYS`, the "function not implemented" error number, which
/// like every errno value is positive.
#[verifier::external_body]
fn errno_not_supported() -> (r: i32)
    ensures
        r > 0,
{
    libc::ENOSYS
}

impl FsError {
    /// The error number that the kernel receives.
    pub fn errno(&self) -> (r: i32)
        ensures
            r > 0,
    {
        match self {
            FsError::NotFound => errno_not_found(),
            FsError::NotSupported => errno_not_supported(),
        }
    }
}

/// The filesystem statistics reply.
#[derive(Debug, Clone, Copy, PartialEq, Eq, Structural)]
pub struct StatfsReply {
    pub blocks: u64,
    pub bfree: u64,
    pub bavail: u64,
    pub files: u64,
    pub ffree: u64,
    pub bsize: u32,
    pub namelen: u32,
    pub frsize: u32,
}

/// Statistics for a filesystem that reports no capacity: every count is zero,
/// with 4096-byte blocks and names of up to 255 bytes.
pub fn statfs_reply() -> (r: StatfsReply)
    ensures
        r == (StatfsReply {
            blocks: 0,
            bfree: 0,
            bavail: 0,
            files: 0,
            ffree: 0,
            bsize: 4096,
            namelen: 255,
            frsize: 0,
        }),
{
    StatfsReply {
        blocks: 0,
        bfree: 0,
        bavail: 0,
        files: 0,
        ffree: 0,
        bsize: 4096,
        namelen: 255,
        frsize: 0,
    }
}

/// The answer to every request that would change the filesystem.
pub fn reject_write() -> (r: FsError)
    ensures
        r == FsError::NotSupported,
{
    FsError::NotSupported
}

} // verus!
