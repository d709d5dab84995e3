//! Data types shared by the record parser, the reader and the tree builder.

use vstd::prelude::*;

verus! {

/// What can go wrong while reading the master file table.
#[derive(Debug)]
pub enum MftError {
    /// Opening the volume needs administrator rights.
    AccessDenied,
    /// The drive does not exist.
    DriveNotFound(String),
    /// The volume is not formatted with NTFS.
    NotNtfs(String),
    /// The table could not be read.
    ReadError(String),
    /// A record (usually the table's own record 0) is malformed.
    InvalidRecord,
    /// A Windows API call failed; the payload is its HRESULT.
    WindowsError(i32),
    /// An input/output error, with its message.
    IoError(String),
}

/// One file or directory of the table.
#[derive(Debug, Clone)]
pub struct FileEntry {
    /// The record number of this entry.
    pub mft_reference: u64,
    /// The record number of the directory that holds it.
    pub parent_reference: u64,
    /// The file name alone, without its path.
    pub name: String,
    /// Size of the unnamed data stream in bytes (0 for directories).
    pub size: u64,
    pub is_directory: bool,
    pub is_hidden: bool,
    pub is_system: bool,
}

/// The mathematical value of a [`FileEntry`].
pub struct FileEntryView {
    pub mft_reference: u64,
    pub parent_reference: u64,
    pub name: Seq<char>,
    pub size: u64,
    pub is_directory: bool,
    pub is_hidden: bool,
    pub is_system: bool,
}

impl View for FileEntry {
    type V = FileEntryView;

    open spec fn view(&self) -> FileEntryView {
        FileEntryView {
            mft_reference: self.mft_reference,
            parent_reference: self.parent_reference,
            name: self.name@,
            size: self.size,
            is_directory: self.is_directory,
            is_hidden: self.is_hidden,
            is_system: self.is_system,
        }
    }
}

/// The record number of the root directory.
pub const ROOT_REFERENCE: u64 = 5;

impl FileEntry {
    /// A visible, non-system entry.
    pub fn new(
        mft_reference: u64,
        parent_reference: u64,
        name: String,
        size: u64,
        is_directory: bool,
    ) -> (r: Self)
        ensures
            r@ == (FileEntryView {
                mft_reference,
                parent_reference,
                name: name@,
                size,
                is_directory,
                is_hidden: false,
                is_system: false,
            }),
    {
        FileEntry {
            mft_reference,
            parent_reference,
            name,
            size,
            is_directory,
            is_hidden: false,
            is_system: false,
        }
    }

    /// Whether this is the root directory, which NTFS keeps in record 5.
    pub fn is_root(&self) -> (r: bool)
        ensures
            r == (self.mft_reference == ROOT_REFERENCE),
    {
        self.mft_reference == ROOT_REFERENCE
    }
}

} // verus!
