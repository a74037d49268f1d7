//! A read-only view of a remote directory tree: a parser for long-format
//! listings, a path-keyed metadata cache with freshness rules, a file-content
//! cache, and the replies that a filesystem bridge hands back to the kernel.

pub mod cache;
pub mod calendar;
pub mod cmd;
pub mod files;
pub mod fs;
pub mod ls;
pub mod paths;
pub mod text;

pub use cache::{CachedMeta, MetaCache, TTL_MILLIS};
pub use cmd::{cat_command, list_command, listing_from_output, SshCmd};
pub use files::{CachedFile, FileCache};
pub use fs::{statfs_reply, DirectoryEntry, FileAttributes, FileKind, FsError, StatfsReply};
pub use ls::{
    current_utc_year, parse_long_list, parse_long_list_in_year, parse_long_list_line,
    permissions_octet, FileMeta,
};
pub use paths::{child_key, listing_path, parent_key, path_key};
