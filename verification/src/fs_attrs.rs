//! Windows file attribute bits and reparse tags, with the values of the Win32 headers.

use vstd::prelude::*;

verus! {

/// Read-only.
pub const FILE_ATTRIBUTE_READONLY: u32 = 0x0000_0001;

/// Hidden.
pub const FILE_ATTRIBUTE_HIDDEN: u32 = 0x0000_0002;

/// Part of the operating system.
pub const FILE_ATTRIBUTE_SYSTEM: u32 = 0x0000_0004;

/// A directory.
pub const FILE_ATTRIBUTE_DIRECTORY: u32 = 0x0000_0010;

/// Marked for archiving.
pub const FILE_ATTRIBUTE_ARCHIVE: u32 = 0x0000_0020;

/// A plain file with no other attribute.
pub const FILE_ATTRIBUTE_NORMAL: u32 = 0x0000_0080;

/// Temporary.
pub const FILE_ATTRIBUTE_TEMPORARY: u32 = 0x0000_0100;

/// Sparse.
pub const FILE_ATTRIBUTE_SPARSE_FILE: u32 = 0x0000_0200;

/// A reparse point: symbolic link, junction, cloud placeholder and the like.
pub const FILE_ATTRIBUTE_REPARSE_POINT: u32 = 0x0000_0400;

/// Compressed.
pub const FILE_ATTRIBUTE_COMPRESSED: u32 = 0x0000_0800;

/// Left out of the content index.
pub const FILE_ATTRIBUTE_NOT_CONTENT_INDEXED: u32 = 0x0000_2000;

/// Encrypted.
pub const FILE_ATTRIBUTE_ENCRYPTED: u32 = 0x0000_4000;

/// Reparse tag of a symbolic link.
pub const IO_REPARSE_TAG_SYMLINK: u32 = 0xA000_000C;

/// Reparse tag of a junction or mount point.
pub const IO_REPARSE_TAG_MOUNT_POINT: u32 = 0xA000_0003;

/// Reparse tag of a file compressed by the Windows overlay filter.
pub const IO_REPARSE_TAG_WOF: u32 = 0x8000_0017;

} // verus!
