use std::collections::HashSet;
use std::sync::{Arc, Mutex};

use mount_fs::fs::{
    DirEntry, FileSystem, FileType, FsError, Metadata, OpenOptionsConfig, ReadDir,
};
use mount_fs::model::UnionMergeMode;
use mount_fs::mount::UnionFileSystem;
use mount_fs::path::{absolute_path, file_name, join, normalize_path_components};

/// A file that has been opened in a `MemFs`.
struct MemFile {
    content: Arc<Mutex<Vec<u8>>>,
}

impl MemFile {
    fn write_all(&mut self, bytes: &[u8]) -> Result<(), FsError> {
        self.content.lock().unwrap().extend_from_slice(bytes);
        Ok(())
    }
}

/// What a `MemFs` holds under a name. A directory keeps its entries in the order
/// in which they came.
struct Entry {
    times: (u64, u64, u64),
    kind: Kind,
}

enum Kind {
    Dir(Vec<(Vec<u8>, Entry)>),
    File(Arc<Mutex<Vec<u8>>>),
}

struct State {
    clock: u64,
    root: Entry,
}

impl State {
    fn tick(&mut self) -> u64 {
        self.clock += 1;
        self.clock
    }
}

impl Entry {
    fn new(now: u64, kind: Kind) -> Self {
        Entry {
            times: (now, now, now),
            kind,
        }
    }

    fn child(&mut self, name: &[u8]) -> Option<&mut Entry> {
        match &mut self.kind {
            Kind::Dir(entries) => entries
                .iter_mut()
                .find(|(other, _)| other == name)
                .map(|(_, entry)| entry),
            Kind::File(_) => None,
        }
    }

    fn walk(&mut self, names: &[Vec<u8>]) -> Option<&mut Entry> {
        match names.split_first() {
            None => Some(self),
            Some((first, rest)) => self.child(first)?.walk(rest),
        }
    }

    fn entries(&mut self) -> Result<&mut Vec<(Vec<u8>, Entry)>, FsError> {
        match &mut self.kind {
            Kind::Dir(entries) => Ok(entries),
            Kind::File(_) => Err(FsError::InvalidInput),
        }
    }

    fn metadata(&self) -> Metadata {
        let mut ft = FileType::new_dir();
        let mut len = 0;
        if let Kind::File(content) = &self.kind {
            ft.dir = false;
            ft.file = true;
            len = content.lock().unwrap().len() as u64;
        }
        Metadata {
            ft,
            accessed: self.times.0,
            created: self.times.1,
            modified: self.times.2,
            len,
        }
    }
}

/// A filesystem in memory, with a clock that ticks once per change.
struct MemFs {
    state: Mutex<State>,
}

impl Default for MemFs {
    fn default() -> Self {
        MemFs {
            state: Mutex::new(State {
                clock: 1,
                root: Entry::new(1, Kind::Dir(Vec::new())),
            }),
        }
    }
}

fn split_last(path: &[u8]) -> Option<(Vec<Vec<u8>>, Vec<u8>)> {
    let mut names = normalize_path_components(path);
    let last = names.pop()?;
    Some((names, last))
}

impl MemFs {
    fn remove(&self, path: &[u8], dir: bool) -> Result<(), FsError> {
        let (parent, name) = split_last(path).ok_or(FsError::PermissionDenied)?;
        let mut state = self.state.lock().unwrap();
        let parent = state.root.walk(&parent).ok_or(FsError::EntryNotFound)?;
        match &parent.child(&name).ok_or(FsError::EntryNotFound)?.kind {
            Kind::Dir(entries) if dir && !entries.is_empty() => {
                return Err(FsError::DirectoryNotEmpty);
            }
            Kind::Dir(_) if !dir => return Err(FsError::NotAFile),
            Kind::File(_) if dir => return Err(FsError::InvalidInput),
            _ => {}
        }
        parent.entries()?.retain(|(other, _)| *other != name);
        Ok(())
    }
}

impl FileSystem for MemFs {
    type File = MemFile;

    fn readlink(&self, path: &[u8]) -> Result<Vec<u8>, FsError> {
        let names = normalize_path_components(path);
        let mut state = self.state.lock().unwrap();
        match state.root.walk(&names) {
            Some(_) => Err(FsError::InvalidInput),
            None => Err(FsError::EntryNotFound),
        }
    }

    fn read_dir(&self, path: &[u8]) -> Result<ReadDir, FsError> {
        let names = normalize_path_components(path);
        let dir = absolute_path(&names, 0);
        let mut state = self.state.lock().unwrap();
        let entry = state.root.walk(&names).ok_or(FsError::EntryNotFound)?;
        let data = entry
            .entries()?
            .iter()
            .map(|(name, entry)| DirEntry {
                path: join(&dir, name),
                metadata: Ok(entry.metadata()),
            })
            .collect();
        Ok(ReadDir::new(data))
    }

    fn create_dir(&self, path: &[u8]) -> Result<(), FsError> {
        let (parent, name) = split_last(path).ok_or(FsError::AlreadyExists)?;
        let mut state = self.state.lock().unwrap();
        let now = state.tick();
        let parent = state.root.walk(&parent).ok_or(FsError::EntryNotFound)?;
        if parent.child(&name).is_some() {
            return Err(FsError::AlreadyExists);
        }
        let entry = Entry::new(now, Kind::Dir(Vec::new()));
        parent.entries()?.push((name, entry));
        Ok(())
    }

    fn remove_dir(&self, path: &[u8]) -> Result<(), FsError> {
        self.remove(path, true)
    }

    fn metadata(&self, path: &[u8]) -> Result<Metadata, FsError> {
        let names = normalize_path_components(path);
        let mut state = self.state.lock().unwrap();
        let entry = state.root.walk(&names).ok_or(FsError::EntryNotFound)?;
        Ok(entry.metadata())
    }

    fn symlink_metadata(&self, path: &[u8]) -> Result<Metadata, FsError> {
        self.metadata(path)
    }

    fn remove_file(&self, path: &[u8]) -> Result<(), FsError> {
        self.remove(path, false)
    }

    fn open(&self, path: &[u8], conf: &OpenOptionsConfig) -> Result<MemFile, FsError> {
        let (parent, name) = split_last(path).ok_or(FsError::NotAFile)?;
        let mut state = self.state.lock().unwrap();
        let now = state.tick();
        let parent = state.root.walk(&parent).ok_or(FsError::EntryNotFound)?;
        if let Some(entry) = parent.child(&name) {
            return match &entry.kind {
                Kind::Dir(_) => Err(FsError::NotAFile),
                Kind::File(_) if conf.create_new => Err(FsError::AlreadyExists),
                Kind::File(content) => Ok(MemFile {
                    content: Arc::clone(content),
                }),
            };
        }
        if !conf.create && !conf.create_new {
            return Err(FsError::EntryNotFound);
        }
        let content = Arc::new(Mutex::new(Vec::new()));
        let entry = Entry::new(now, Kind::File(Arc::clone(&content)));
        parent.entries()?.push((name, entry));
        Ok(MemFile { content })
    }
}

/// A filesystem that can also rename.
trait Leaf: FileSystem<File = MemFile> {
    fn rename(&self, from: &[u8], to: &[u8]) -> Result<(), FsError>;
}

impl Leaf for MemFs {
    fn rename(&self, from: &[u8], to: &[u8]) -> Result<(), FsError> {
        let (from_parent, from_name) = split_last(from).ok_or(FsError::PermissionDenied)?;
        let (to_parent, to_name) = split_last(to).ok_or(FsError::PermissionDenied)?;
        let mut state = self.state.lock().unwrap();
        let now = state.tick();
        if state.root.walk(&to_parent).is_none() {
            return Err(FsError::EntryNotFound);
        }
        let source = state.root.walk(&from_parent).ok_or(FsError::EntryNotFound)?;
        let entries = source.entries()?;
        let at = entries
            .iter()
            .position(|(name, _)| *name == from_name)
            .ok_or(FsError::EntryNotFound)?;
        let (_, mut entry) = entries.remove(at);
        entry.times.2 = now;
        let target = state.root.walk(&to_parent).unwrap().entries()?;
        target.retain(|(name, _)| *name != to_name);
        target.push((to_name, entry));
        Ok(())
    }
}

/// A filesystem of another type, which hands every call on.
#[derive(Default)]
struct MountlessFileSystem {
    inner: MemFs,
}

impl FileSystem for MountlessFileSystem {
    type File = MemFile;

    fn readlink(&self, path: &[u8]) -> Result<Vec<u8>, FsError> {
        self.inner.readlink(path)
    }

    fn read_dir(&self, path: &[u8]) -> Result<ReadDir, FsError> {
        self.inner.read_dir(path)
    }

    fn create_dir(&self, path: &[u8]) -> Result<(), FsError> {
        self.inner.create_dir(path)
    }

    fn remove_dir(&self, path: &[u8]) -> Result<(), FsError> {
        self.inner.remove_dir(path)
    }

    fn metadata(&self, path: &[u8]) -> Result<Metadata, FsError> {
        self.inner.metadata(path)
    }

    fn symlink_metadata(&self, path: &[u8]) -> Result<Metadata, FsError> {
        self.inner.symlink_metadata(path)
    }

    fn remove_file(&self, path: &[u8]) -> Result<(), FsError> {
        self.inner.remove_file(path)
    }

    fn open(&self, path: &[u8], conf: &OpenOptionsConfig) -> Result<MemFile, FsError> {
        self.inner.open(path, conf)
    }
}

impl Leaf for MountlessFileSystem {
    fn rename(&self, from: &[u8], to: &[u8]) -> Result<(), FsError> {
        self.inner.rename(from, to)
    }
}

const CREATE_NEW: OpenOptionsConfig = OpenOptionsConfig {
    read: false,
    write: true,
    create_new: true,
    create: false,
    append: false,
    truncate: false,
};

const CREATE: OpenOptionsConfig = OpenOptionsConfig {
    read: true,
    write: true,
    create_new: false,
    create: true,
    append: false,
    truncate: false,
};

type Union = UnionFileSystem<dyn Leaf>;

fn paths(listing: ReadDir) -> Vec<String> {
    listing
        .data
        .into_iter()
        .map(|entry| String::from_utf8(entry.path).unwrap())
        .collect()
}

fn read_dir_names(fs: &Union, path: &[u8]) -> Vec<String> {
    fs.read_dir(path)
        .unwrap()
        .data
        .iter()
        .filter_map(|entry| file_name(&entry.path))
        .map(|name| String::from_utf8(name).unwrap())
        .collect()
}

fn rename(fs: &Union, from: &[u8], to: &[u8]) -> Result<(), FsError> {
    let call = fs.rename(from, to)?;
    call.fs.rename(&call.from, &call.to)
}

fn gen_filesystem() -> Union {
    let mut union: Union = UnionFileSystem::new();
    let a = MemFs::default();
    let b = MemFs::default();
    let c = MemFs::default();
    let d = MemFs::default();
    let e = MemFs::default();
    let f = MemFs::default();
    let g = MemFs::default();
    let h = MemFs::default();

    union
        .mount("mem_fs_1".to_string(), b"/test_new_filesystem", Box::new(a))
        .unwrap();
    union
        .mount("mem_fs_2".to_string(), b"/test_create_dir", Box::new(b))
        .unwrap();
    union
        .mount("mem_fs_3".to_string(), b"/test_remove_dir", Box::new(c))
        .unwrap();
    union
        .mount("mem_fs_4".to_string(), b"/test_rename", Box::new(d))
        .unwrap();
    union
        .mount("mem_fs_5".to_string(), b"/test_metadata", Box::new(e))
        .unwrap();
    union
        .mount("mem_fs_6".to_string(), b"/test_remove_file", Box::new(f))
        .unwrap();
    union
        .mount("mem_fs_6".to_string(), b"/test_readdir", Box::new(g))
        .unwrap();
    union
        .mount("mem_fs_6".to_string(), b"/test_canonicalize", Box::new(h))
        .unwrap();

    union
}

fn gen_nested_filesystem() -> Union {
    let mut union: Union = UnionFileSystem::new();
    let a = MemFs::default();
    a.open(b"/data-a.txt", &CREATE).unwrap();
    let b = MemFs::default();
    b.open(b"/data-b.txt", &CREATE).unwrap();

    union
        .mount("mem_fs_1".to_string(), b"/app/a", Box::new(a))
        .unwrap();
    union
        .mount("mem_fs_2".to_string(), b"/app/b", Box::new(b))
        .unwrap();

    union
}

#[test]
fn test_nested_read_dir() {
    let fs = gen_nested_filesystem();

    let root_contents = paths(fs.read_dir(b"/").unwrap());
    assert_eq!(root_contents, vec!["/app".to_string()]);

    let app_contents: HashSet<String> = paths(fs.read_dir(b"/app").unwrap()).into_iter().collect();
    assert_eq!(
        app_contents,
        HashSet::from_iter(["/app/a".to_string(), "/app/b".to_string()].into_iter())
    );

    let a_contents = paths(fs.read_dir(b"/app/a").unwrap());
    assert_eq!(a_contents, vec!["/app/a/data-a.txt".to_string()]);

    let b_contents = paths(fs.read_dir(b"/app/b").unwrap());
    assert_eq!(b_contents, vec!["/app/b/data-b.txt".to_string()]);
}

#[test]
fn test_nested_metadata() {
    let fs = gen_nested_filesystem();

    assert!(fs.metadata(b"/").is_ok());
    assert!(fs.metadata(b"/app").is_ok());
    assert!(fs.metadata(b"/app/a").is_ok());
    assert!(fs.metadata(b"/app/b").is_ok());
    assert!(fs.metadata(b"/app/a/data-a.txt").is_ok());
    assert!(fs.metadata(b"/app/b/data-b.txt").is_ok());
}

#[test]
fn test_nested_symlink_metadata() {
    let fs = gen_nested_filesystem();

    assert!(fs.symlink_metadata(b"/").is_ok());
    assert!(fs.symlink_metadata(b"/app").is_ok());
    assert!(fs.symlink_metadata(b"/app/a").is_ok());
    assert!(fs.symlink_metadata(b"/app/b").is_ok());
    assert!(fs.symlink_metadata(b"/app/a/data-a.txt").is_ok());
    assert!(fs.symlink_metadata(b"/app/b/data-b.txt").is_ok());
}

#[test]
fn test_merge_preserves_nested_root_mounts_with_skip() {
    let mut primary: Union = UnionFileSystem::new();
    let openssl = MemFs::default();
    openssl.create_dir(b"/certs").unwrap();
    openssl.open(b"/certs/ca.pem", &CREATE_NEW).unwrap();
    primary
        .mount("openssl".to_string(), b"/openssl", Box::new(openssl))
        .unwrap();

    let mut injected: Union = UnionFileSystem::new();
    let app = MemFs::default();
    app.open(b"/index.php", &CREATE_NEW).unwrap();
    injected
        .mount("app".to_string(), b"/app", Box::new(app))
        .unwrap();

    let assets = MemFs::default();
    assets.create_dir(b"/css").unwrap();
    assets.open(b"/css/site.css", &CREATE_NEW).unwrap();
    injected
        .mount("assets".to_string(), b"/opt/assets", Box::new(assets))
        .unwrap();

    primary.merge(&injected, UnionMergeMode::Skip).unwrap();

    let root_contents = read_dir_names(&primary, b"/");
    assert!(root_contents.contains(&"app".to_string()));
    assert!(root_contents.contains(&"opt".to_string()));
    assert!(root_contents.contains(&"openssl".to_string()));
    assert!(primary.metadata(b"/app/index.php").is_ok());
    assert!(primary.metadata(b"/opt/assets/css/site.css").is_ok());
    assert!(primary.metadata(b"/openssl/certs/ca.pem").is_ok());
}

/// A `MountlessFileSystem` at `/opt` and a `MemFs` at `/opt/assets`.
fn nested_under(top: MountlessFileSystem) -> Union {
    let mut fs: Union = UnionFileSystem::new();

    let nested = MemFs::default();
    nested.create_dir(b"/css").unwrap();
    nested.open(b"/css/site.css", &CREATE_NEW).unwrap();

    fs.mount("opt".to_string(), b"/opt", Box::new(top)).unwrap();
    fs.mount("assets".to_string(), b"/opt/assets", Box::new(nested))
        .unwrap();
    fs
}

fn top_with_tool() -> MountlessFileSystem {
    let top = MountlessFileSystem::default();
    top.create_dir(b"/bin").unwrap();
    top.open(b"/bin/tool", &CREATE_NEW).unwrap();
    top
}

#[test]
fn test_nested_mount_under_non_mountable_leaf_is_supported() {
    let fs = nested_under(top_with_tool());

    assert!(fs.metadata(b"/opt/bin/tool").is_ok());
    assert!(fs.metadata(b"/opt/assets/css/site.css").is_ok());
}

#[test]
fn test_parent_read_dir_merges_leaf_entries_with_child_mounts() {
    let fs = nested_under(top_with_tool());

    let opt_contents = read_dir_names(&fs, b"/opt");
    assert!(opt_contents.contains(&"bin".to_string()));
    assert!(opt_contents.contains(&"assets".to_string()));
}

#[test]
fn test_child_mount_shadows_same_named_parent_entry() {
    let top = MountlessFileSystem::default();
    top.open(b"/assets", &CREATE_NEW).unwrap();
    let fs = nested_under(top);

    assert!(fs.metadata(b"/opt/assets").unwrap().is_dir());
    assert_eq!(
        read_dir_names(&fs, b"/opt")
            .into_iter()
            .filter(|entry| entry == "assets")
            .count(),
        1,
    );
    assert!(fs.metadata(b"/opt/assets/css/site.css").is_ok());
}

#[test]
fn test_new_filesystem() {
    let fs = gen_filesystem();
    assert!(
        fs.read_dir(b"/test_new_filesystem").is_ok(),
        "hostfs can read root"
    );
    let mut file_write = fs
        .new_open_options()
        .read(true)
        .write(true)
        .create_new(true)
        .open(b"/test_new_filesystem/foo2.txt")
        .unwrap();
    file_write.write_all(b"hello").unwrap();
    assert_eq!(
        fs.metadata(b"/test_new_filesystem/foo2.txt").unwrap().len,
        5
    );
}

#[test]
fn test_create_dir() {
    let fs = gen_filesystem();

    assert_eq!(fs.create_dir(b"/"), Ok(()));

    assert_eq!(fs.create_dir(b"/test_create_dir"), Ok(()));

    assert_eq!(
        fs.create_dir(b"/test_create_dir/foo"),
        Ok(()),
        "creating a directory",
    );

    let cur_dir = read_dir_names(&fs, b"/test_create_dir");

    if !cur_dir.contains(&"foo".to_string()) {
        panic!("cur_dir does not contain foo: {cur_dir:#?}");
    }

    assert!(
        cur_dir.contains(&"foo".to_string()),
        "the root is updated and well-defined"
    );

    assert_eq!(
        fs.create_dir(b"/test_create_dir/foo/bar"),
        Ok(()),
        "creating a sub-directory",
    );

    let foo_dir = read_dir_names(&fs, b"/test_create_dir/foo");

    assert!(
        foo_dir.contains(&"bar".to_string()),
        "the foo directory is updated and well-defined"
    );

    let bar_dir = read_dir_names(&fs, b"/test_create_dir/foo/bar");

    assert!(
        bar_dir.is_empty(),
        "the foo directory is updated and well-defined"
    );
}

#[test]
fn test_remove_dir() {
    let fs = gen_filesystem();

    assert_eq!(
        fs.remove_dir(b"/"),
        Err(FsError::PermissionDenied),
        "cannot remove the root directory",
    );

    assert_eq!(
        fs.remove_dir(b"/foo"),
        Err(FsError::EntryNotFound),
        "cannot remove a directory that doesn't exist",
    );

    assert_eq!(fs.create_dir(b"/test_remove_dir"), Ok(()));

    assert_eq!(
        fs.create_dir(b"/test_remove_dir/foo"),
        Ok(()),
        "creating a directory",
    );

    assert_eq!(
        fs.create_dir(b"/test_remove_dir/foo/bar"),
        Ok(()),
        "creating a sub-directory",
    );

    assert!(
        read_dir_names(&fs, b"/test_remove_dir/foo").contains(&"bar".to_string()),
        "./foo/bar exists"
    );

    assert_eq!(
        fs.remove_dir(b"/test_remove_dir/foo"),
        Err(FsError::DirectoryNotEmpty),
        "removing a directory that has children",
    );

    assert_eq!(
        fs.remove_dir(b"/test_remove_dir/foo/bar"),
        Ok(()),
        "removing a sub-directory",
    );

    assert_eq!(
        fs.remove_dir(b"/test_remove_dir/foo"),
        Ok(()),
        "removing a directory",
    );

    assert!(
        !read_dir_names(&fs, b"/test_remove_dir").contains(&"foo".to_string()),
        "the foo directory still exists"
    );
}

#[test]
fn test_rename() {
    let fs = gen_filesystem();

    assert_eq!(
        rename(&fs, b"/", b"/bar"),
        Err(FsError::PermissionDenied),
        "renaming a directory that has no parent",
    );
    assert_eq!(
        rename(&fs, b"/foo", b"/"),
        Err(FsError::EntryNotFound),
        "renaming to a directory that has no parent",
    );

    assert_eq!(fs.create_dir(b"/test_rename"), Ok(()));
    assert_eq!(fs.create_dir(b"/test_rename/foo"), Ok(()));
    assert_eq!(fs.create_dir(b"/test_rename/foo/qux"), Ok(()));

    assert_eq!(
        rename(&fs, b"/test_rename/foo", b"/test_rename/bar/baz"),
        Err(FsError::EntryNotFound),
        "renaming to a directory that has parent that doesn't exist",
    );

    assert_eq!(fs.create_dir(b"/test_rename/bar"), Ok(()));

    assert_eq!(
        rename(&fs, b"/test_rename/foo", b"/test_rename/bar"),
        Ok(()),
        "renaming to a directory that has parent that exists",
    );

    assert!(
        fs.new_open_options()
            .write(true)
            .create_new(true)
            .open(b"/test_rename/bar/hello1.txt")
            .is_ok(),
        "creating a new file (`hello1.txt`)",
    );
    assert!(
        fs.new_open_options()
            .write(true)
            .create_new(true)
            .open(b"/test_rename/bar/hello2.txt")
            .is_ok(),
        "creating a new file (`hello2.txt`)",
    );

    let cur_dir = read_dir_names(&fs, b"/test_rename");

    assert!(
        !cur_dir.contains(&"foo".to_string()),
        "the foo directory still exists"
    );

    assert!(
        cur_dir.contains(&"bar".to_string()),
        "the bar directory still exists"
    );

    let bar_dir = read_dir_names(&fs, b"/test_rename/bar");

    if !bar_dir.contains(&"qux".to_string()) {
        println!("qux does not exist: {bar_dir:?}")
    }

    let qux_dir = read_dir_names(&fs, b"/test_rename/bar/qux");

    assert!(qux_dir.is_empty(), "the qux directory is empty");

    assert!(
        read_dir_names(&fs, b"/test_rename/bar").contains(&"hello1.txt".to_string()),
        "the /bar/hello1.txt file exists"
    );

    assert!(
        read_dir_names(&fs, b"/test_rename/bar").contains(&"hello2.txt".to_string()),
        "the /bar/hello2.txt file exists"
    );

    assert_eq!(
        fs.create_dir(b"/test_rename/foo"),
        Ok(()),
        "create ./foo again",
    );

    assert_eq!(
        rename(
            &fs,
            b"/test_rename/bar/hello2.txt",
            b"/test_rename/foo/world2.txt"
        ),
        Ok(()),
        "renaming (and moving) a file",
    );

    assert_eq!(
        rename(&fs, b"/test_rename/foo", b"/test_rename/bar/baz"),
        Ok(()),
        "renaming a directory",
    );

    assert_eq!(
        rename(
            &fs,
            b"/test_rename/bar/hello1.txt",
            b"/test_rename/bar/world1.txt"
        ),
        Ok(()),
        "renaming a file (in the same directory)",
    );

    assert!(
        read_dir_names(&fs, b"/test_rename").contains(&"bar".to_string()),
        "./bar exists"
    );

    assert!(
        read_dir_names(&fs, b"/test_rename/bar").contains(&"baz".to_string()),
        "/bar/baz exists"
    );
    assert!(
        !read_dir_names(&fs, b"/test_rename").contains(&"foo".to_string()),
        "foo does not exist anymore"
    );
    assert!(
        read_dir_names(&fs, b"/test_rename/bar/baz").contains(&"world2.txt".to_string()),
        "/bar/baz/world2.txt exists"
    );
    assert!(
        read_dir_names(&fs, b"/test_rename/bar").contains(&"world1.txt".to_string()),
        "/bar/world1.txt (ex hello1.txt) exists"
    );
    assert!(
        !read_dir_names(&fs, b"/test_rename/bar").contains(&"hello1.txt".to_string()),
        "hello1.txt was moved"
    );
    assert!(
        !read_dir_names(&fs, b"/test_rename/bar").contains(&"hello2.txt".to_string()),
        "hello2.txt was moved"
    );
    assert!(
        read_dir_names(&fs, b"/test_rename/bar/baz").contains(&"world2.txt".to_string()),
        "world2.txt was moved to the correct place"
    );
}

#[test]
fn test_metadata() {
    let fs = gen_filesystem();

    let root_metadata = fs.metadata(b"/test_metadata").unwrap();

    assert!(root_metadata.ft.dir);
    assert_eq!(root_metadata.accessed, root_metadata.created);
    assert_eq!(root_metadata.modified, root_metadata.created);
    assert!(root_metadata.modified > 0);

    assert_eq!(fs.create_dir(b"/test_metadata/foo"), Ok(()));

    let foo_metadata = fs.metadata(b"/test_metadata/foo");
    assert!(foo_metadata.is_ok());
    let foo_metadata = foo_metadata.unwrap();

    assert!(foo_metadata.ft.dir);
    assert!(foo_metadata.accessed == foo_metadata.created);
    assert!(foo_metadata.modified == foo_metadata.created);
    assert!(foo_metadata.modified > 0);

    assert_eq!(
        rename(&fs, b"/test_metadata/foo", b"/test_metadata/bar"),
        Ok(())
    );

    let bar_metadata = fs.metadata(b"/test_metadata/bar").unwrap();
    assert!(bar_metadata.ft.dir);
    assert!(bar_metadata.accessed == foo_metadata.accessed);
    assert!(bar_metadata.created == foo_metadata.created);
    assert!(bar_metadata.modified > foo_metadata.modified);

    let root_metadata = fs.metadata(b"/test_metadata/bar").unwrap();
    assert!(
        root_metadata.modified > foo_metadata.modified,
        "the parent modified time was updated"
    );
}

#[test]
fn test_remove_file() {
    let fs = gen_filesystem();

    assert!(
        fs.new_open_options()
            .write(true)
            .create_new(true)
            .open(b"/test_remove_file/foo.txt")
            .is_ok(),
        "creating a new file",
    );

    assert!(read_dir_names(&fs, b"/test_remove_file").contains(&"foo.txt".to_string()));

    assert_eq!(
        fs.remove_file(b"/test_remove_file/foo.txt"),
        Ok(()),
        "removing a file that exists",
    );

    assert!(!read_dir_names(&fs, b"/test_remove_file").contains(&"foo.txt".to_string()));

    assert_eq!(
        fs.remove_file(b"/test_remove_file/foo.txt"),
        Err(FsError::EntryNotFound),
        "removing a file that doesn't exists",
    );
}

#[test]
fn test_readdir() {
    let fs = gen_filesystem();

    assert_eq!(
        fs.create_dir(b"/test_readdir/foo"),
        Ok(()),
        "creating `foo`"
    );
    assert_eq!(
        fs.create_dir(b"/test_readdir/foo/sub"),
        Ok(()),
        "creating `sub`"
    );
    assert_eq!(
        fs.create_dir(b"/test_readdir/bar"),
        Ok(()),
        "creating `bar`"
    );
    assert_eq!(
        fs.create_dir(b"/test_readdir/baz"),
        Ok(()),
        "creating `bar`"
    );
    assert!(
        fs.new_open_options()
            .write(true)
            .create_new(true)
            .open(b"/test_readdir/a.txt")
            .is_ok(),
        "creating `a.txt`",
    );
    assert!(
        fs.new_open_options()
            .write(true)
            .create_new(true)
            .open(b"/test_readdir/b.txt")
            .is_ok(),
        "creating `b.txt`",
    );

    let readdir = fs.read_dir(b"/test_readdir");

    assert!(readdir.is_ok(), "reading the directory `/test_readdir/`");

    let mut readdir = readdir.unwrap().data.into_iter();

    let next = readdir.next().unwrap();
    assert!(next.path.ends_with(b"/foo"), "checking entry #1");
    println!("entry 1: {next:#?}");
    assert!(next.metadata.unwrap().ft.is_dir(), "checking entry #1");

    let next = readdir.next().unwrap();
    assert!(next.path.ends_with(b"/bar"), "checking entry #2");
    assert!(next.metadata.unwrap().ft.is_dir(), "checking entry #2");

    let next = readdir.next().unwrap();
    assert!(next.path.ends_with(b"/baz"), "checking entry #3");
    assert!(next.metadata.unwrap().ft.is_dir(), "checking entry #3");

    let next = readdir.next().unwrap();
    assert!(next.path.ends_with(b"/a.txt"), "checking entry #2");
    assert!(next.metadata.unwrap().ft.is_file(), "checking entry #4");

    let next = readdir.next().unwrap();
    assert!(next.path.ends_with(b"/b.txt"), "checking entry #2");
    assert!(next.metadata.unwrap().ft.is_file(), "checking entry #5");

    if let Some(s) = readdir.next() {
        panic!("next: {s:?}");
    }
}
