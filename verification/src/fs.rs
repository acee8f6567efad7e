//! What every filesystem of the tree offers, and the values that it deals in.

use vstd::prelude::*;

verus! {

/// Why an operation on a filesystem failed.
#[derive(Clone, Copy, Debug, PartialEq, Eq, Structural)]
pub enum FsError {
    /// Something that is not a file was found where a file was expected.
    NotAFile,
    /// The place is taken already.
    AlreadyExists,
    /// There is no such entry.
    EntryNotFound,
    /// The operation makes no sense for these arguments.
    InvalidInput,
    /// The operation is not allowed.
    PermissionDenied,
    /// A directory that still has entries cannot be removed.
    DirectoryNotEmpty,
    /// The filesystem does not offer the operation.
    Unsupported,
    /// Reading or writing failed.
    IOError,
    /// Any other failure.
    UnknownError,
}

/// What kind of file an entry is.
#[derive(Clone, Copy, Debug, PartialEq, Eq, Structural)]
pub struct FileType {
    pub dir: bool,
    pub file: bool,
    pub symlink: bool,
    pub char_device: bool,
    pub block_device: bool,
    pub socket: bool,
    pub fifo: bool,
}

impl FileType {
    /// The type of a directory.
    pub open spec fn dir_type() -> FileType {
        FileType {
            dir: true,
            file: false,
            symlink: false,
            char_device: false,
            block_device: false,
            socket: false,
            fifo: false,
        }
    }

    /// The type of a directory.
    pub fn new_dir() -> (file_type: FileType)
        ensures
            file_type == FileType::dir_type(),
    {
        FileType {
            dir: true,
            file: false,
            symlink: false,
            char_device: false,
            block_device: false,
            socket: false,
            fifo: false,
        }
    }

    /// Whether this is the type of a directory.
    pub fn is_dir(&self) -> (b: bool)
        ensures
            b == self.dir,
    {
        self.dir
    }

    /// Whether this is the type of a regular file.
    pub fn is_file(&self) -> (b: bool)
        ensures
            b == self.file,
    {
        self.file
    }
}

/// What a filesystem tells of an entry. Times are in nanoseconds.
#[derive(Clone, Copy, Debug, PartialEq, Eq, Structural)]
pub struct Metadata {
    pub ft: FileType,
    pub accessed: u64,
    pub created: u64,
    pub modified: u64,
    pub len: u64,
}

impl Metadata {
    /// Whether the entry is a directory.
    pub fn is_dir(&self) -> (b: bool)
        ensures
            b == self.ft.dir,
    {
        self.ft.is_dir()
    }

    /// Whether the entry is a regular file.
    pub fn is_file(&self) -> (b: bool)
        ensures
            b == self.ft.file,
    {
        self.ft.is_file()
    }
}

/// The metadata of a directory that exists only because a mount lies below it.
pub open spec fn branch_metadata() -> Metadata {
    Metadata { ft: FileType::dir_type(), accessed: 0, created: 0, modified: 0, len: 0 }
}

/// The metadata of a directory that exists only because a mount lies below it.
pub fn directory_metadata() -> (metadata: Metadata)
    ensures
        metadata == branch_metadata(),
{
    Metadata { ft: FileType::new_dir(), accessed: 0, created: 0, modified: 0, len: 0 }
}

/// One entry of a directory listing.
#[derive(Debug, PartialEq, Eq)]
pub struct DirEntry {
    pub path: Vec<u8>,
    pub metadata: Result<Metadata, FsError>,
}

/// What an entry of a directory listing is.
pub struct DirEntryView {
    pub path: Seq<u8>,
    pub metadata: Result<Metadata, FsError>,
}

impl View for DirEntry {
    type V = DirEntryView;

    open spec fn view(&self) -> DirEntryView {
        DirEntryView { path: self.path@, metadata: self.metadata }
    }
}

/// A directory listing.
#[derive(Debug, PartialEq, Eq)]
pub struct ReadDir {
    pub data: Vec<DirEntry>,
}

impl View for ReadDir {
    type V = Seq<DirEntryView>;

    open spec fn view(&self) -> Seq<DirEntryView> {
        entry_views(self.data@)
    }
}

/// The entries that a vector holds.
pub open spec fn entry_views(items: Seq<DirEntry>) -> Seq<DirEntryView> {
    items.map_values(|item: DirEntry| item@)
}

impl ReadDir {
    /// The listing of the entries `data`, in their order.
    pub fn new(data: Vec<DirEntry>) -> (listing: ReadDir)
        ensures
            listing.data == data,
            listing@ == entry_views(data@),
    {
        ReadDir { data }
    }
}

/// How a file is to be opened.
#[derive(Clone, Copy, Debug, PartialEq, Eq, Structural)]
pub struct OpenOptionsConfig {
    pub read: bool,
    pub write: bool,
    pub create_new: bool,
    pub create: bool,
    pub append: bool,
    pub truncate: bool,
}

/// A filesystem that can be mounted.
///
/// Paths are absolute within the filesystem. What an operation answers is up to
/// the filesystem, and may differ from one call to the next.
pub trait FileSystem {
    /// A file that has been opened.
    type File;

    fn readlink(&self, path: &[u8]) -> Result<Vec<u8>, FsError>;

    fn read_dir(&self, path: &[u8]) -> Result<ReadDir, FsError>;

    fn create_dir(&self, path: &[u8]) -> Result<(), FsError>;

    fn remove_dir(&self, path: &[u8]) -> Result<(), FsError>;

    fn metadata(&self, path: &[u8]) -> Result<Metadata, FsError>;

    fn symlink_metadata(&self, path: &[u8]) -> Result<Metadata, FsError>;

    fn remove_file(&self, path: &[u8]) -> Result<(), FsError>;

    fn open(&self, path: &[u8], conf: &OpenOptionsConfig) -> Result<Self::File, FsError>;
}

/// `reply` is an answer of `fs` to `readlink` of `path`.
pub open spec fn readlink_reply<F: FileSystem + ?Sized>(
    fs: &F,
    path: Seq<u8>,
    reply: Result<Vec<u8>, FsError>,
) -> bool {
    exists|asked: &[u8]|
        asked@ == path && #[trigger] call_ensures(F::readlink, (fs, asked), reply)
}

/// `reply` is an answer of `fs` to `read_dir` of `path`.
pub open spec fn read_dir_reply<F: FileSystem + ?Sized>(
    fs: &F,
    path: Seq<u8>,
    reply: Result<ReadDir, FsError>,
) -> bool {
    exists|asked: &[u8]|
        asked@ == path && #[trigger] call_ensures(F::read_dir, (fs, asked), reply)
}

/// `reply` is an answer of `fs` to `create_dir` of `path`.
pub open spec fn create_dir_reply<F: FileSystem + ?Sized>(
    fs: &F,
    path: Seq<u8>,
    reply: Result<(), FsError>,
) -> bool {
    exists|asked: &[u8]|
        asked@ == path && #[trigger] call_ensures(F::create_dir, (fs, asked), reply)
}

/// `reply` is an answer of `fs` to `remove_dir` of `path`.
pub open spec fn remove_dir_reply<F: FileSystem + ?Sized>(
    fs: &F,
    path: Seq<u8>,
    reply: Result<(), FsError>,
) -> bool {
    exists|asked: &[u8]|
        asked@ == path && #[trigger] call_ensures(F::remove_dir, (fs, asked), reply)
}

/// `reply` is an answer of `fs` to `metadata` of `path`.
pub open spec fn metadata_reply<F: FileSystem + ?Sized>(
    fs: &F,
    path: Seq<u8>,
    reply: Result<Metadata, FsError>,
) -> bool {
    exists|asked: &[u8]|
        asked@ == path && #[trigger] call_ensures(F::metadata, (fs, asked), reply)
}

/// `reply` is an answer of `fs` to `symlink_metadata` of `path`.
pub open spec fn symlink_metadata_reply<F: FileSystem + ?Sized>(
    fs: &F,
    path: Seq<u8>,
    reply: Result<Metadata, FsError>,
) -> bool {
    exists|asked: &[u8]|
        asked@ == path && #[trigger] call_ensures(F::symlink_metadata, (fs, asked), reply)
}

/// `reply` is an answer of `fs` to `remove_file` of `path`.
pub open spec fn remove_file_reply<F: FileSystem + ?Sized>(
    fs: &F,
    path: Seq<u8>,
    reply: Result<(), FsError>,
) -> bool {
    exists|asked: &[u8]|
        asked@ == path && #[trigger] call_ensures(F::remove_file, (fs, asked), reply)
}

/// `reply` is an answer of `fs` to `open` of `path` with the options `conf`.
pub open spec fn open_reply<F: FileSystem + ?Sized>(
    fs: &F,
    path: Seq<u8>,
    conf: &OpenOptionsConfig,
    reply: Result<F::File, FsError>,
) -> bool {
    exists|asked: &[u8]|
        asked@ == path && #[trigger] call_ensures(F::open, (fs, asked, conf), reply)
}

} // verus!
