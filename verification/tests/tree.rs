use std::sync::{Arc, Mutex};

use mount_fs::fs::{
    directory_metadata, DirEntry, FileSystem, FileType, FsError, Metadata, OpenOptionsConfig,
    ReadDir,
};
use mount_fs::model::UnionMergeMode;
use mount_fs::mount::MountFileSystem;
use mount_fs::operations::tolerate_existing;
use mount_fs::path::file_name;

/// A filesystem that answers every call with its number or with an error, and
/// remembers what it was asked.
struct Probe {
    number: u64,
    failure: Option<FsError>,
    asked: Arc<Mutex<Vec<String>>>,
}

impl Probe {
    fn note<T>(&self, call: &str, path: &[u8], value: T) -> Result<T, FsError> {
        let path = String::from_utf8(path.to_vec()).unwrap();
        self.asked.lock().unwrap().push(format!("{call} {path}"));
        match self.failure {
            Some(error) => Err(error),
            None => Ok(value),
        }
    }

    fn stat(&self) -> Metadata {
        Metadata {
            ft: FileType::new_dir(),
            accessed: 1,
            created: 2,
            modified: 3,
            len: self.number,
        }
    }
}

impl FileSystem for Probe {
    type File = u64;

    fn readlink(&self, path: &[u8]) -> Result<Vec<u8>, FsError> {
        self.note("readlink", path, b"target".to_vec())
    }

    fn read_dir(&self, path: &[u8]) -> Result<ReadDir, FsError> {
        let listed = DirEntry {
            path: b"/own".to_vec(),
            metadata: Ok(self.stat()),
        };
        self.note("read_dir", path, ReadDir::new(vec![listed]))
    }

    fn create_dir(&self, path: &[u8]) -> Result<(), FsError> {
        self.note("create_dir", path, ())
    }

    fn remove_dir(&self, path: &[u8]) -> Result<(), FsError> {
        self.note("remove_dir", path, ())
    }

    fn metadata(&self, path: &[u8]) -> Result<Metadata, FsError> {
        self.note("metadata", path, self.stat())
    }

    fn symlink_metadata(&self, path: &[u8]) -> Result<Metadata, FsError> {
        self.note("symlink_metadata", path, self.stat())
    }

    fn remove_file(&self, path: &[u8]) -> Result<(), FsError> {
        self.note("remove_file", path, ())
    }

    fn open(&self, path: &[u8], conf: &OpenOptionsConfig) -> Result<u64, FsError> {
        let call = if conf.create_new { "create" } else { "open" };
        self.note(call, path, self.number)
    }
}

type Tree = MountFileSystem<Probe>;

struct Scene {
    tree: Tree,
    asked: Arc<Mutex<Vec<String>>>,
}

impl Scene {
    fn new() -> Self {
        Scene {
            tree: MountFileSystem::default(),
            asked: Arc::new(Mutex::new(Vec::new())),
        }
    }

    fn probe(&self, number: u64, failure: Option<FsError>) -> Box<Probe> {
        Box::new(Probe {
            number,
            failure,
            asked: Arc::clone(&self.asked),
        })
    }

    fn with(mut self, path: &str, number: u64) -> Self {
        let probe = self.probe(number, None);
        self.tree
            .mount("name".to_string(), path.as_bytes(), probe)
            .unwrap();
        self
    }

    fn failing(mut self, path: &str, error: FsError) -> Self {
        let probe = self.probe(0, Some(error));
        self.tree
            .mount("name".to_string(), path.as_bytes(), probe)
            .unwrap();
        self
    }

    fn asked(&self) -> Vec<String> {
        std::mem::take(&mut *self.asked.lock().unwrap())
    }
}

/// The number of the filesystem that `path` resolves to, and the path within it.
fn resolved(tree: &Tree, path: &str) -> Option<(u64, String)> {
    tree.resolve_deepest_mount(path.as_bytes())
        .map(|call| (call.fs.number, String::from_utf8(call.path).unwrap()))
}

fn found(number: u64, path: &str) -> Option<(u64, String)> {
    Some((number, path.to_string()))
}

fn sorted_names(tree: &Tree, path: &str) -> Vec<String> {
    let mut names: Vec<String> = tree
        .read_dir(path.as_bytes())
        .unwrap()
        .data
        .iter()
        .map(|entry| String::from_utf8(file_name(&entry.path).unwrap()).unwrap())
        .collect();
    names.sort();
    names
}

#[test]
fn the_deepest_mount_is_found() {
    let scene = Scene::new().with("/", 1).with("/opt", 2).with("/opt/a/b", 3);
    let tree = &scene.tree;
    assert_eq!(resolved(tree, "/"), found(1, "/"));
    assert_eq!(resolved(tree, "/etc/x"), found(1, "/etc/x"));
    assert_eq!(resolved(tree, "/opt"), found(2, "/"));
    assert_eq!(resolved(tree, "/opt/a"), found(2, "/a"));
    assert_eq!(resolved(tree, "/opt/a/c"), found(2, "/a/c"));
    assert_eq!(resolved(tree, "/opt/a/b/"), found(3, "/"));
    assert_eq!(resolved(tree, "/opt/./a//b/../c"), found(3, "/c"));
    let call = tree.resolve_deepest_mount(b"/opt/a/b/c").unwrap();
    assert_eq!(call.depth, 3);
}

#[test]
fn without_a_mount_nothing_is_found() {
    let scene = Scene::new().with("/opt/a", 1);
    assert_eq!(resolved(&scene.tree, "/"), None);
    assert_eq!(resolved(&scene.tree, "/opt"), None);
    assert_eq!(resolved(&scene.tree, "/opt/b"), None);
    assert_eq!(
        scene.tree.readlink(b"/opt/b"),
        Err(FsError::EntryNotFound)
    );
    assert_eq!(
        scene.tree.metadata(b"/opt/b"),
        Err(FsError::EntryNotFound)
    );
    assert_eq!(
        scene.tree.symlink_metadata(b"/opt/b"),
        Err(FsError::EntryNotFound)
    );
    assert_eq!(
        scene.tree.read_dir(b"/opt/b"),
        Err(FsError::EntryNotFound)
    );
    assert_eq!(
        scene.tree.create_dir(b"/opt/b"),
        Err(FsError::EntryNotFound)
    );
    assert_eq!(
        scene.tree.remove_file(b"/opt/b"),
        Err(FsError::EntryNotFound)
    );
    assert_eq!(
        scene.tree.new_open_options().open(b"/opt/b"),
        Err(FsError::EntryNotFound)
    );
    assert_eq!(scene.asked(), Vec::<String>::new());
}

#[test]
fn a_taken_place_is_refused() {
    let mut scene = Scene::new().with("/", 1).with("/a/b", 2);
    let again = scene.probe(3, None);
    assert_eq!(
        scene.tree.mount("x".to_string(), b"/a/b", again),
        Err(FsError::AlreadyExists)
    );
    let root = scene.probe(4, None);
    assert_eq!(
        scene.tree.mount("x".to_string(), b"/", root),
        Err(FsError::AlreadyExists)
    );
    assert_eq!(resolved(&scene.tree, "/a/b"), found(2, "/"));
    assert_eq!(resolved(&scene.tree, "/a"), found(1, "/a"));
}

#[test]
fn a_branch_can_be_mounted_at_later() {
    let one = Scene::new().with("/a/b", 1).with("/a", 2);
    let two = Scene::new().with("/a", 2).with("/a/b", 1);
    for scene in [one, two] {
        assert_eq!(resolved(&scene.tree, "/a/c"), found(2, "/c"));
        assert_eq!(resolved(&scene.tree, "/a/b/c"), found(1, "/c"));
    }
}

#[test]
fn calls_are_handed_on() {
    let scene = Scene::new().with("/opt", 7);
    let tree = &scene.tree;
    assert_eq!(tree.readlink(b"/opt/l"), Ok(b"target".to_vec()));
    assert_eq!(tree.metadata(b"/opt").unwrap().len, 7);
    assert_eq!(tree.metadata(b"/opt/x/y").unwrap().len, 7);
    assert_eq!(tree.symlink_metadata(b"/opt/x").unwrap().len, 7);
    assert_eq!(tree.create_dir(b"/opt"), Ok(()));
    assert_eq!(tree.create_dir(b"/opt/d"), Ok(()));
    assert_eq!(tree.remove_dir(b"/opt/d"), Ok(()));
    assert_eq!(tree.remove_dir(b"/opt"), Ok(()));
    assert_eq!(tree.remove_file(b"/opt/f"), Ok(()));
    assert_eq!(tree.remove_file(b"/opt"), Ok(()));
    assert_eq!(tree.new_open_options().read(true).open(b"/opt/f"), Ok(7));
    let conf = OpenOptionsConfig {
        read: false,
        write: true,
        create_new: true,
        create: false,
        append: false,
        truncate: false,
    };
    assert_eq!(tree.open(b"/opt/g", &conf), Ok(7));
    assert_eq!(tree.new_open_options().options(conf).open(b"/opt/g"), Ok(7));
    assert_eq!(
        scene.asked(),
        vec![
            "readlink /l",
            "metadata /",
            "metadata /x/y",
            "symlink_metadata /x",
            "create_dir /",
            "create_dir /d",
            "remove_dir /d",
            "remove_dir /",
            "remove_file /f",
            "remove_file /",
            "open /f",
            "create /g",
            "create /g",
        ]
    );
}

#[test]
fn branches_answer_themselves() {
    let scene = Scene::new().with("/opt/a", 1);
    let tree = &scene.tree;
    assert_eq!(tree.metadata(b"/"), Ok(directory_metadata()));
    assert_eq!(tree.metadata(b"/opt"), Ok(directory_metadata()));
    assert_eq!(tree.symlink_metadata(b"/opt"), Ok(directory_metadata()));
    assert_eq!(tree.create_dir(b"/opt"), Ok(()));
    assert_eq!(tree.create_dir(b"/"), Ok(()));
    assert_eq!(tree.remove_dir(b"/opt"), Err(FsError::PermissionDenied));
    assert_eq!(tree.remove_dir(b"/"), Err(FsError::PermissionDenied));
    assert_eq!(tree.remove_file(b"/opt"), Err(FsError::PermissionDenied));
    assert_eq!(tree.remove_file(b"/"), Err(FsError::NotAFile));
    assert_eq!(
        tree.new_open_options().open(b"/opt"),
        Err(FsError::NotAFile)
    );
    assert_eq!(
        tree.new_open_options().write(true).open(b"/"),
        Err(FsError::NotAFile)
    );
    assert_eq!(scene.asked(), Vec::<String>::new());
}

#[test]
fn a_mount_with_child_mounts_is_not_removed() {
    let scene = Scene::new().with("/opt", 1).with("/opt/a", 2);
    assert_eq!(
        scene.tree.remove_dir(b"/opt"),
        Err(FsError::PermissionDenied)
    );
    assert_eq!(
        scene.tree.remove_file(b"/opt"),
        Err(FsError::PermissionDenied)
    );
    assert_eq!(scene.asked(), Vec::<String>::new());
}

#[test]
fn a_branch_is_readlinked_in_the_mount_above() {
    let scene = Scene::new().with("/opt", 1).with("/opt/a/b", 2);
    assert_eq!(scene.tree.readlink(b"/opt/a"), Ok(b"target".to_vec()));
    assert_eq!(scene.asked(), vec!["readlink /a"]);
}

#[test]
fn errors_of_a_filesystem_are_passed_on() {
    let scene = Scene::new().failing("/opt", FsError::IOError);
    let tree = &scene.tree;
    assert_eq!(tree.read_dir(b"/opt"), Err(FsError::IOError));
    assert_eq!(tree.read_dir(b"/opt/x"), Err(FsError::IOError));
    assert_eq!(tree.create_dir(b"/opt"), Err(FsError::IOError));
    assert_eq!(tree.create_dir(b"/opt/x"), Err(FsError::IOError));
    assert_eq!(tree.metadata(b"/opt"), Err(FsError::IOError));
    assert_eq!(tree.remove_dir(b"/opt/x"), Err(FsError::IOError));
}

#[test]
fn an_existing_directory_counts_as_created() {
    let scene = Scene::new().failing("/opt", FsError::AlreadyExists);
    assert_eq!(scene.tree.create_dir(b"/opt"), Ok(()));
    assert_eq!(scene.tree.create_dir(b"/opt/x"), Ok(()));
    assert_eq!(
        scene.tree.remove_dir(b"/opt/x"),
        Err(FsError::AlreadyExists)
    );
    assert_eq!(tolerate_existing(Err(FsError::AlreadyExists)), Ok(()));
    assert_eq!(tolerate_existing(Ok(())), Ok(()));
    assert_eq!(
        tolerate_existing(Err(FsError::Unsupported)),
        Err(FsError::Unsupported)
    );
}

#[test]
fn listings_expose_child_mounts() {
    let scene = Scene::new().with("/opt", 1).with("/opt/a", 2).with("/opt/own", 3);
    let tree = &scene.tree;
    assert_eq!(sorted_names(tree, "/"), vec!["opt"]);
    assert_eq!(sorted_names(tree, "/opt"), vec!["a", "own"]);
    let listing = tree.read_dir(b"/opt").unwrap();
    assert!(listing
        .data
        .iter()
        .all(|entry| entry.metadata == Ok(directory_metadata())));
    let plain = tree.read_dir(b"/opt/a").unwrap();
    assert_eq!(plain.data.len(), 1);
    assert_eq!(plain.data[0].path, b"/opt/a/own".to_vec());
    assert_eq!(plain.data[0].metadata.unwrap().len, 2);
}

#[test]
fn listings_inside_a_mount_are_put_below_the_path() {
    let scene = Scene::new().with("/opt", 1);
    let listing = scene.tree.read_dir(b"/opt/x/").unwrap();
    assert_eq!(listing.data.len(), 1);
    assert_eq!(listing.data[0].path, b"/opt/x/own".to_vec());
    assert_eq!(scene.asked(), vec!["read_dir /x"]);
}

#[test]
fn renames_stay_within_a_mount() {
    let scene = Scene::new().with("/a", 1).with("/b", 2).with("/c/d", 3);
    let tree = &scene.tree;
    let call = tree.rename(b"/a/x", b"/a/y/z").unwrap();
    assert_eq!(call.fs.number, 1);
    assert_eq!(call.from, b"/x".to_vec());
    assert_eq!(call.to, b"/y/z".to_vec());
    let whole = tree.rename(b"/a", b"/a/y").unwrap();
    assert_eq!(whole.from, b"/".to_vec());

    let error = |from: &[u8], to: &[u8]| tree.rename(from, to).err();
    assert_eq!(error(b"/a/x", b"/b/x"), Some(FsError::InvalidInput));
    assert_eq!(error(b"/a/x", b"/nowhere"), Some(FsError::EntryNotFound));
    assert_eq!(error(b"/nowhere", b"/a/x"), Some(FsError::EntryNotFound));
    assert_eq!(error(b"/", b"/a/x"), Some(FsError::PermissionDenied));
    assert_eq!(error(b"/c", b"/a/x"), Some(FsError::PermissionDenied));
}

#[test]
fn a_mount_with_child_mounts_is_not_renamed() {
    let scene = Scene::new().with("/a", 1).with("/a/b", 2);
    assert_eq!(
        scene.tree.rename(b"/a", b"/a/c").err(),
        Some(FsError::PermissionDenied)
    );
    assert_eq!(
        scene.tree.rename(b"/a/x", b"/a/b/x").err(),
        Some(FsError::InvalidInput)
    );
}

#[test]
fn merge_replaces() {
    let mut scene = Scene::new().with("/a", 1).with("/b", 2);
    let other = Scene::new().with("/a", 3).with("/c/d", 4);
    assert_eq!(
        scene.tree.merge(&other.tree, UnionMergeMode::Replace),
        Ok(())
    );
    assert_eq!(resolved(&scene.tree, "/a/x"), found(3, "/x"));
    assert_eq!(resolved(&scene.tree, "/b/x"), found(2, "/x"));
    assert_eq!(resolved(&scene.tree, "/c/d/x"), found(4, "/x"));
    assert_eq!(sorted_names(&scene.tree, "/"), vec!["a", "b", "c"]);
    assert_eq!(resolved(&other.tree, "/b"), None);
}

#[test]
fn merge_skips() {
    let mut scene = Scene::new().with("/a", 1);
    let other = Scene::new().with("/a", 3).with("/a/d", 4).with("/", 5);
    assert_eq!(scene.tree.merge(&other.tree, UnionMergeMode::Skip), Ok(()));
    assert_eq!(resolved(&scene.tree, "/a/x"), found(1, "/x"));
    assert_eq!(resolved(&scene.tree, "/a/d/x"), found(4, "/x"));
    assert_eq!(resolved(&scene.tree, "/x"), found(5, "/x"));
    assert_eq!(scene.tree.merge(&other.tree, UnionMergeMode::Skip), Ok(()));
    assert_eq!(resolved(&scene.tree, "/a/x"), found(1, "/x"));
}

#[test]
fn merge_without_conflict_succeeds() {
    let mut scene = Scene::new().with("/a", 1);
    let other = Scene::new().with("/a/b", 2).with("/c", 3);
    assert_eq!(scene.tree.merge(&other.tree, UnionMergeMode::Fail), Ok(()));
    assert_eq!(resolved(&scene.tree, "/a/b"), found(2, "/"));
    assert_eq!(resolved(&scene.tree, "/c"), found(3, "/"));
}

#[test]
fn merge_fails_on_a_conflict() {
    let mut scene = Scene::new().with("/a/b", 1);
    let other = Scene::new().with("/a/b", 2).with("/a/c", 3).with("/d", 4);
    assert_eq!(
        scene.tree.merge(&other.tree, UnionMergeMode::Fail),
        Err(FsError::AlreadyExists)
    );
    assert_eq!(resolved(&scene.tree, "/a/b"), found(1, "/"));
    for (path, number) in [("/a/c", 3), ("/d", 4)] {
        let now = resolved(&scene.tree, path);
        assert!(now.is_none() || now == found(number, "/"));
    }
}

#[test]
fn a_conflict_at_the_root_changes_nothing() {
    let mut scene = Scene::new().with("/", 1);
    let other = Scene::new().with("/", 2).with("/a", 3);
    assert_eq!(
        scene.tree.merge(&other.tree, UnionMergeMode::Fail),
        Err(FsError::AlreadyExists)
    );
    assert_eq!(resolved(&scene.tree, "/a"), found(1, "/a"));
    assert_eq!(sorted_names(&scene.tree, "/"), vec!["own"]);
}

#[test]
fn merging_nothing_changes_nothing() {
    let mut scene = Scene::new().with("/a", 1);
    let nothing = Scene::new();
    for mode in [
        UnionMergeMode::Replace,
        UnionMergeMode::Skip,
        UnionMergeMode::Fail,
    ] {
        assert_eq!(scene.tree.merge(&nothing.tree, mode), Ok(()));
    }
    assert_eq!(resolved(&scene.tree, "/a"), found(1, "/"));
    assert_eq!(sorted_names(&scene.tree, "/"), vec!["a"]);
}

#[test]
fn a_duplicate_is_independent() {
    let mut scene = Scene::new().with("/a", 1).with("/b/c", 2);
    let mut copy = scene.tree.duplicate();
    assert_eq!(resolved(&copy, "/a/x"), found(1, "/x"));
    assert_eq!(resolved(&copy, "/b/c/x"), found(2, "/x"));
    assert_eq!(sorted_names(&copy, "/"), vec!["a", "b"]);

    let here = scene.probe(3, None);
    scene.tree.mount("x".to_string(), b"/here", here).unwrap();
    let there = scene.probe(4, None);
    copy.mount("x".to_string(), b"/there", there).unwrap();
    assert_eq!(resolved(&scene.tree, "/there"), None);
    assert_eq!(resolved(&copy, "/here"), None);

    let left = scene.tree.find_node(b"/a").unwrap().mount().unwrap();
    let right = copy.find_node(b"/a").unwrap().mount().unwrap();
    assert!(Arc::ptr_eq(&left, &right));
}

#[test]
fn clearing_removes_all_mounts() {
    let mut scene = Scene::new().with("/", 1).with("/a/b", 2);
    scene.tree.clear();
    assert_eq!(resolved(&scene.tree, "/a/b"), None);
    assert_eq!(sorted_names(&scene.tree, "/"), Vec::<String>::new());
    assert_eq!(scene.tree.metadata(b"/"), Ok(directory_metadata()));
}

#[test]
fn nodes_are_found() {
    let scene = Scene::new().with("/a/b", 1);
    let root = scene.tree.find_node(b"/").unwrap();
    assert!(!root.is_mounted());
    assert!(root.has_children());
    assert_eq!(root.child_names(), vec![b"a".to_vec()]);
    let leaf = scene.tree.find_node(b"/a//b/.").unwrap();
    assert!(leaf.is_mounted());
    assert!(!leaf.has_children());
    assert_eq!(leaf.mount().unwrap().number, 1);
    assert!(scene.tree.find_node(b"/a/b/c").is_none());
    assert!(scene.tree.find_node(b"/b").is_none());
}

#[test]
fn what_a_listing_shows_is_found_there() {
    let scene = Scene::new().with("/a", 1).with("/a/b", 2).with("/a/c/d", 3);
    for entry in scene.tree.read_dir(b"//a/").unwrap().data {
        let path = String::from_utf8(entry.path).unwrap();
        let place = scene.tree.find_node(path.as_bytes());
        match path.as_str() {
            "/a/own" => {
                assert!(place.is_none());
                assert_eq!(resolved(&scene.tree, &path), found(1, "/own"));
            }
            "/a/b" => assert!(place.unwrap().is_mounted()),
            "/a/c" => assert!(!place.unwrap().is_mounted()),
            other => panic!("unexpected entry {other}"),
        }
    }
}

/// What each of some paths resolves to.
fn survey(tree: &Tree) -> Vec<Option<(u64, String)>> {
    ["/", "/a", "/a/b", "/a/b/c", "/a/x", "/d", "/d/e", "/d/e/f"]
        .iter()
        .map(|path| resolved(tree, path))
        .collect()
}

#[test]
fn the_order_of_mounts_does_not_matter() {
    let one = Scene::new().with("/a", 1).with("/a/b", 2).with("/", 3);
    let two = Scene::new().with("/", 3).with("/a/b", 2).with("/a", 1);
    assert_eq!(survey(&one.tree), survey(&two.tree));
    assert_eq!(resolved(&one.tree, "/a/b/c"), found(2, "/c"));
    assert_eq!(resolved(&one.tree, "/d"), found(3, "/d"));
}

#[test]
fn replacing_is_skipping_with_the_trees_exchanged() {
    let mut one = Scene::new().with("/a", 1).with("/d/e", 2);
    let mut two = Scene::new().with("/a", 3).with("/a/b", 4);
    let (first, second) = (one.tree.duplicate(), two.tree.duplicate());
    one.tree.merge(&second, UnionMergeMode::Replace).unwrap();
    two.tree.merge(&first, UnionMergeMode::Skip).unwrap();
    assert_eq!(survey(&one.tree), survey(&two.tree));
    assert_eq!(resolved(&one.tree, "/a"), found(3, "/"));
    assert_eq!(resolved(&one.tree, "/d/e"), found(2, "/"));
}

#[test]
fn merging_once_more_changes_nothing() {
    for mode in [UnionMergeMode::Replace, UnionMergeMode::Skip] {
        let mut one = Scene::new().with("/a", 1);
        let two = Scene::new().with("/a", 2).with("/a/b", 3);
        one.tree.merge(&two.tree, mode).unwrap();
        let once = survey(&one.tree);
        one.tree.merge(&two.tree, mode).unwrap();
        assert_eq!(survey(&one.tree), once);
        assert_eq!(resolved(&one.tree, "/a/b"), found(3, "/"));
    }
}

#[test]
fn merges_associate() {
    for mode in [UnionMergeMode::Replace, UnionMergeMode::Skip] {
        let a = Scene::new().with("/a", 1).with("/d", 2);
        let b = Scene::new().with("/a", 3).with("/a/b", 4);
        let c = Scene::new().with("/a/b", 5).with("/d", 6);
        let mut left = a.tree.duplicate();
        left.merge(&b.tree, mode).unwrap();
        left.merge(&c.tree, mode).unwrap();
        let mut right = b.tree.duplicate();
        right.merge(&c.tree, mode).unwrap();
        let mut whole = a.tree.duplicate();
        whole.merge(&right, mode).unwrap();
        assert_eq!(survey(&left), survey(&whole));
    }
}

#[test]
fn a_merged_path_resolves_to_the_deeper_mount() {
    let mut one = Scene::new().with("/a", 1).with("/d/e", 2);
    let two = Scene::new().with("/a/b", 3).with("/d", 4);
    one.tree.merge(&two.tree, UnionMergeMode::Fail).unwrap();
    assert_eq!(resolved(&one.tree, "/a/b/c"), found(3, "/c"));
    assert_eq!(resolved(&one.tree, "/a/x"), found(1, "/x"));
    assert_eq!(resolved(&one.tree, "/d/e/f"), found(2, "/f"));
    assert_eq!(resolved(&one.tree, "/d/x"), found(4, "/x"));
}

#[test]
fn a_tree_of_mounts_can_be_mounted() {
    let inner = Scene::new().with("/b", 1);
    let asked = Arc::clone(&inner.asked);
    let mut outer: MountFileSystem<Tree> = MountFileSystem::new();
    outer
        .mount("inner".to_string(), b"/a", Box::new(inner.tree))
        .unwrap();
    assert_eq!(outer.metadata(b"/a/b/c").map(|m| m.len), Ok(1));
    assert_eq!(*asked.lock().unwrap(), ["metadata /c"]);
    assert_eq!(outer.metadata(b"/a"), Ok(directory_metadata()));
    assert_eq!(outer.metadata(b"/a/x"), Err(FsError::EntryNotFound));
}

#[test]
fn the_way_to_a_conflict_is_merged() {
    let mut scene = Scene::new().with("/a/c/e", 1);
    let other = Scene::new().with("/a", 2).with("/a/c", 3).with("/a/c/e", 4);
    assert_eq!(
        scene.tree.merge(&other.tree, UnionMergeMode::Fail),
        Err(FsError::AlreadyExists)
    );
    assert_eq!(resolved(&scene.tree, "/a"), found(2, "/"));
    assert_eq!(resolved(&scene.tree, "/a/c"), found(3, "/"));
    assert_eq!(resolved(&scene.tree, "/a/c/e"), found(1, "/"));
}

#[test]
fn beside_the_way_to_a_conflict_all_or_nothing_is_merged() {
    let mut scene = Scene::new().with("/a/e", 1).with("/a/e/f", 2);
    let other = Scene::new()
        .with("/a/e", 3)
        .with("/a/e/g", 4)
        .with("/a/b", 5)
        .with("/a/b/c", 6);
    assert_eq!(
        scene.tree.merge(&other.tree, UnionMergeMode::Fail),
        Err(FsError::AlreadyExists)
    );
    let (one, two) = (
        resolved(&scene.tree, "/a/b"),
        resolved(&scene.tree, "/a/b/c"),
    );
    assert!(one.is_none() && two.is_none() || one == found(5, "/") && two == found(6, "/"));
    assert_eq!(resolved(&scene.tree, "/a/e/g"), found(1, "/g"));
}

#[test]
fn a_second_merge_fails_where_something_is_mounted() {
    let mut one = Scene::new().with("/d", 1);
    let two = Scene::new().with("/a/b", 2).with("/d/e", 3);
    assert_eq!(one.tree.merge(&two.tree, UnionMergeMode::Fail), Ok(()));
    let once = survey(&one.tree);
    assert_eq!(
        one.tree.merge(&two.tree, UnionMergeMode::Fail),
        Err(FsError::AlreadyExists)
    );
    assert_eq!(survey(&one.tree), once);
    let nothing: Tree = MountFileSystem::new();
    assert_eq!(one.tree.merge(&nothing, UnionMergeMode::Fail), Ok(()));
    assert_eq!(one.tree.merge(&nothing, UnionMergeMode::Fail), Ok(()));
    assert_eq!(survey(&one.tree), once);
}

#[test]
fn there_are_nodes_on_the_way_to_mounts_only() {
    let scene = Scene::new().with("/a/b", 1);
    for path in ["/", "/a", "/a/b"] {
        assert!(scene.tree.find_node(path.as_bytes()).is_some());
    }
    for path in ["/b", "/a/c", "/a/b/c"] {
        assert!(scene.tree.find_node(path.as_bytes()).is_none());
    }
}

#[test]
fn a_cleared_tree_lists_nothing() {
    let mut scene = Scene::new().with("/", 1).with("/a", 2);
    let kept = scene.tree.duplicate();
    scene.tree.clear();
    assert_eq!(scene.tree.read_dir(b"/").unwrap().data, vec![]);
    assert_eq!(resolved(&scene.tree, "/a"), None);
    assert_eq!(resolved(&kept, "/a"), found(2, "/"));
}
