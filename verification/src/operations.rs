//! The operations of a filesystem, on the tree of mount points as a whole.
//!
//! Each operation finds out what the tree has at the path, and answers itself or
//! hands the call on to the filesystem that is mounted there.

use std::sync::Arc;

use vstd::prelude::*;

use crate::fs::{
    branch_metadata, create_dir_reply, directory_metadata, metadata_reply, open_reply,
    read_dir_reply, readlink_reply, remove_dir_reply, remove_file_reply, symlink_metadata_reply,
    FileSystem, FsError, Metadata, OpenOptionsConfig, ReadDir,
};
use crate::listing::{lists_node, overlay_entries, rebase_entries, rebased_all};
use crate::model::{MountTree, Place};
use crate::mount::MountFileSystem;
use crate::path::{
    absolute, absolute_path, bytes_equal, names, normalize_path_components, route_of, Name, Route,
    SEPARATOR,
};

verus! {

/// The path of the root of a filesystem.
pub open spec fn root_path() -> Seq<u8> {
    seq![SEPARATOR]
}

/// A directory that exists already counts as created.
pub open spec fn tolerated(reply: Result<(), FsError>) -> Result<(), FsError> {
    if reply == Err::<(), FsError>(FsError::AlreadyExists) {
        Ok(())
    } else {
        reply
    }
}

/// Turns the reply that a directory exists already into success.
pub fn tolerate_existing(reply: Result<(), FsError>) -> (result: Result<(), FsError>)
    ensures
        result == tolerated(reply),
{
    match reply {
        Err(FsError::AlreadyExists) => Ok(()),
        other => other,
    }
}

/// `result` is what `fs` answered to `create_dir` of `path`, except that a
/// directory that exists already counts as created.
pub open spec fn created_in<F: FileSystem + ?Sized>(
    fs: &F,
    path: Seq<u8>,
    result: Result<(), FsError>,
) -> bool {
    exists|reply: Result<(), FsError>| #[trigger]
        create_dir_reply(fs, path, reply) && result == tolerated(reply)
}

/// `result` is the listing of the node at `prefix` where `fs` is mounted: the
/// error that `fs` answered to `read_dir` of its root, or what it listed there
/// together with the child mounts `children`.
pub open spec fn listed_at_mount<F: FileSystem + ?Sized>(
    fs: &F,
    prefix: Seq<u8>,
    children: Set<Name>,
    result: Result<ReadDir, FsError>,
) -> bool {
    exists|reply: Result<ReadDir, FsError>| #[trigger]
        read_dir_reply(fs, root_path(), reply) && match reply {
            Ok(base) => result is Ok && lists_node(result->Ok_0@, base@, prefix, children),
            Err(error) => result == Err::<ReadDir, FsError>(error),
        }
}

/// `result` is what `fs` answered to `read_dir` of `path`, with the paths put
/// below `prefix`.
pub open spec fn listed_inside<F: FileSystem + ?Sized>(
    fs: &F,
    path: Seq<u8>,
    prefix: Seq<u8>,
    result: Result<ReadDir, FsError>,
) -> bool {
    exists|reply: Result<ReadDir, FsError>| #[trigger]
        read_dir_reply(fs, path, reply) && match reply {
            Ok(base) => result is Ok && result->Ok_0@ == rebased_all(base@, prefix),
            Err(error) => result == Err::<ReadDir, FsError>(error),
        }
}

/// `result` is what comes of opening `path` in `tree`: what the filesystem that
/// reaches there answered, and an error where there is none.
pub open spec fn opened_in<F: FileSystem + ?Sized>(
    tree: MountTree<F>,
    path: Seq<u8>,
    conf: &OpenOptionsConfig,
    result: Result<F::File, FsError>,
) -> bool {
    match tree.place(route_of(path)) {
        Place::Mount(fs) => open_reply(&*fs, root_path(), conf, result),
        Place::Branch => result == Err::<F::File, FsError>(FsError::NotAFile),
        Place::Inside { fs, rest } => open_reply(&*fs, absolute(rest), conf, result),
        Place::Nowhere => result == Err::<F::File, FsError>(FsError::EntryNotFound),
    }
}

/// A rename that is to be carried out within one filesystem.
pub struct Renaming<F: FileSystem + ?Sized> {
    pub fs: Arc<F>,
    pub from: Vec<u8>,
    pub to: Vec<u8>,
}

/// Where a rename from `from` to `to` is to be carried out: at the mount point
/// that both places have in common. The root cannot be renamed, nor a node
/// without a mount or with child mounts, and nothing is moved from one mount to
/// another.
pub open spec fn rename_point<F: ?Sized>(tree: MountTree<F>, from: Route, to: Route) -> Result<
    Route,
    FsError,
> {
    if from.len() == 0 {
        Err(FsError::PermissionDenied)
    } else if tree.nodes.contains(from) && (!tree.mounts.contains_key(from)
        || !tree.child_names(from).is_empty()) {
        Err(FsError::PermissionDenied)
    } else {
        match (tree.mount_point(from), tree.mount_point(to)) {
            (Some(here), Some(there)) => if here == there {
                Ok(here)
            } else {
                Err(FsError::InvalidInput)
            },
            _ => Err(FsError::EntryNotFound),
        }
    }
}

/// Whether the first `count` names of `a` and `b` are the same.
fn same_start(a: &Vec<Vec<u8>>, b: &Vec<Vec<u8>>, count: usize) -> (same: bool)
    requires
        count <= a@.len(),
        count <= b@.len(),
    ensures
        same == (names(a@).take(count as int) == names(b@).take(count as int)),
{
    let ghost left = names(a@).take(count as int);
    let ghost right = names(b@).take(count as int);
    let mut i: usize = 0;
    while i < count
        invariant
            i <= count <= a@.len(),
            count <= b@.len(),
            left == names(a@).take(count as int),
            right == names(b@).take(count as int),
            forall|j: int| 0 <= j < i ==> left[j] == right[j],
        decreases count - i,
    {
        if !bytes_equal(a[i].as_slice(), b[i].as_slice()) {
            assert(left[i as int] != right[i as int]);
            return false;
        }
        i += 1;
    }
    assert(left =~= right);
    true
}

impl<F: FileSystem + ?Sized> FileSystem for MountFileSystem<F> {
    type File = F::File;

    /// Reads a link: asks the deepest mount on the way.
    fn readlink(&self, path: &[u8]) -> (result: Result<Vec<u8>, FsError>)
        ensures
            match self@.mount_point(route_of(path@)) {
                Some(point) => readlink_reply(
                    &*self@.mounts[point],
                    absolute(route_of(path@).skip(point.len() as int)),
                    result,
                ),
                None => result == Err::<Vec<u8>, FsError>(FsError::EntryNotFound),
            },
    {
        match self.resolve_deepest_mount(path) {
            Some(call) => call.fs.readlink(call.path.as_slice()),
            None => Err(FsError::EntryNotFound),
        }
    }

    /// Lists a directory.
    ///
    /// At a node, the entries of the filesystem that is mounted there come first,
    /// without those that have the name of a child mount, and the child mounts
    /// follow in an order that is not specified. Everywhere else the listing is
    /// that of the deepest mount on the way. In either case the path that was
    /// asked for takes the place of the root in the paths of the entries that a
    /// mounted filesystem lists.
    fn read_dir(&self, path: &[u8]) -> (result: Result<ReadDir, FsError>)
        ensures
            ({
                let route = route_of(path@);
                let children = self@.child_names(route);
                match self@.place(route) {
                    Place::Mount(fs) => listed_at_mount(&*fs, absolute(route), children, result),
                    Place::Branch => result is Ok && lists_node(
                        result->Ok_0@,
                        Seq::empty(),
                        absolute(route),
                        children,
                    ),
                    Place::Inside { fs, rest } => listed_inside(
                        &*fs,
                        absolute(rest),
                        absolute(route),
                        result,
                    ),
                    Place::Nowhere => result == Err::<ReadDir, FsError>(FsError::EntryNotFound),
                }
            }),
    {
        let components = normalize_path_components(path);
        let prefix = absolute_path(&components, 0);
        let ghost route = route_of(path@);
        assert(names(components@).skip(0) =~= route);
        proof {
            use_type_invariant(self);
            self.lemma_view_wf();
        }
        match self.find_node(path) {
            Some(node) => {
                let children = node.child_names();
                let base = match node.mount() {
                    Some(fs) => {
                        let root = [SEPARATOR];
                        assert(root@ =~= root_path());
                        let reply = fs.read_dir(&root);
                        assert(read_dir_reply(&*fs, root_path(), reply));
                        match reply {
                            Ok(base) => base,
                            Err(error) => {
                                return Err(error);
                            },
                        }
                    },
                    None => {
                        let nothing = ReadDir::new(Vec::new());
                        assert(nothing@ =~= Seq::empty());
                        nothing
                    },
                };
                let listing = overlay_entries(base, prefix.as_slice(), &children);
                assert(lists_node(
                    listing@,
                    base@,
                    absolute(route),
                    self@.child_names(route),
                ));
                Ok(listing)
            },
            None => match self.resolve_deepest_mount(path) {
                Some(call) => {
                    let reply = call.fs.read_dir(call.path.as_slice());
                    assert(read_dir_reply(&*call.fs, call.path@, reply));
                    match reply {
                        Ok(base) => {
                            let mut entries = base;
                            rebase_entries(&mut entries, prefix.as_slice());
                            Ok(entries)
                        },
                        Err(error) => Err(error),
                    }
                },
                None => Err(FsError::EntryNotFound),
            },
        }
    }

    /// Creates a directory. One that exists already, the root and the nodes of
    /// the mount tree among them, counts as created.
    fn create_dir(&self, path: &[u8]) -> (result: Result<(), FsError>)
        ensures
            ({
                let route = route_of(path@);
                if route.len() == 0 {
                    result == Ok::<(), FsError>(())
                } else {
                    match self@.place(route) {
                        Place::Mount(fs) => created_in(&*fs, root_path(), result),
                        Place::Branch => result == Ok::<(), FsError>(()),
                        Place::Inside { fs, rest } => created_in(&*fs, absolute(rest), result),
                        Place::Nowhere => result == Err::<(), FsError>(FsError::EntryNotFound),
                    }
                }
            }),
    {
        let components = normalize_path_components(path);
        if components.len() == 0 {
            // Creating the virtual root is always a no-op.
            return Ok(());
        }
        proof {
            use_type_invariant(self);
            self.lemma_view_wf();
        }
        match self.find_node(path) {
            Some(node) => match node.mount() {
                Some(fs) => {
                    let root = [SEPARATOR];
                    assert(root@ =~= root_path());
                    let reply = fs.create_dir(&root);
                    assert(create_dir_reply(&*fs, root_path(), reply));
                    tolerate_existing(reply)
                },
                // Branch-only node: the directory implicitly exists.
                None => Ok(()),
            },
            None => match self.resolve_deepest_mount(path) {
                Some(call) => {
                    let reply = call.fs.create_dir(call.path.as_slice());
                    assert(create_dir_reply(&*call.fs, call.path@, reply));
                    tolerate_existing(reply)
                },
                None => Err(FsError::EntryNotFound),
            },
        }
    }

    /// Removes a directory, but not the root, and no node with child mounts.
    fn remove_dir(&self, path: &[u8]) -> (result: Result<(), FsError>)
        ensures
            ({
                let route = route_of(path@);
                if route.len() == 0 || !self@.child_names(route).is_empty() {
                    result == Err::<(), FsError>(FsError::PermissionDenied)
                } else {
                    match self@.place(route) {
                        Place::Mount(fs) => remove_dir_reply(&*fs, root_path(), result),
                        Place::Inside { fs, rest } => remove_dir_reply(
                            &*fs,
                            absolute(rest),
                            result,
                        ),
                        _ => result == Err::<(), FsError>(FsError::EntryNotFound),
                    }
                }
            }),
    {
        let components = normalize_path_components(path);
        if components.len() == 0 {
            return Err(FsError::PermissionDenied);
        }
        proof {
            use_type_invariant(self);
            self.lemma_view_wf();
            self@.lemma_children_of_node(route_of(path@));
        }
        match self.find_node(path) {
            Some(node) => {
                if node.has_children() {
                    // Refuse to remove a node that still has child mounts.
                    return Err(FsError::PermissionDenied);
                }
                match node.mount() {
                    Some(fs) => {
                        let root = [SEPARATOR];
                        assert(root@ =~= root_path());
                        fs.remove_dir(&root)
                    },
                    None => Err(FsError::EntryNotFound),
                }
            },
            None => match self.resolve_deepest_mount(path) {
                Some(call) => call.fs.remove_dir(call.path.as_slice()),
                None => Err(FsError::EntryNotFound),
            },
        }
    }

    /// What is known of an entry. A node without a mount is a directory.
    fn metadata(&self, path: &[u8]) -> (result: Result<Metadata, FsError>)
        ensures
            match self@.place(route_of(path@)) {
                Place::Mount(fs) => metadata_reply(&*fs, root_path(), result),
                Place::Branch => result == Ok::<Metadata, FsError>(branch_metadata()),
                Place::Inside { fs, rest } => metadata_reply(&*fs, absolute(rest), result),
                Place::Nowhere => result == Err::<Metadata, FsError>(FsError::EntryNotFound),
            },
    {
        proof {
            use_type_invariant(self);
            self.lemma_view_wf();
        }
        match self.find_node(path) {
            Some(node) => match node.mount() {
                Some(fs) => {
                    let root = [SEPARATOR];
                    assert(root@ =~= root_path());
                    fs.metadata(&root)
                },
                // Branch-only node: synthetic directory metadata.
                None => Ok(directory_metadata()),
            },
            None => match self.resolve_deepest_mount(path) {
                Some(call) => call.fs.metadata(call.path.as_slice()),
                None => Err(FsError::EntryNotFound),
            },
        }
    }

    /// What is known of an entry, where a link is not followed.
    fn symlink_metadata(&self, path: &[u8]) -> (result: Result<Metadata, FsError>)
        ensures
            match self@.place(route_of(path@)) {
                Place::Mount(fs) => symlink_metadata_reply(&*fs, root_path(), result),
                Place::Branch => result == Ok::<Metadata, FsError>(branch_metadata()),
                Place::Inside { fs, rest } => symlink_metadata_reply(&*fs, absolute(rest), result),
                Place::Nowhere => result == Err::<Metadata, FsError>(FsError::EntryNotFound),
            },
    {
        proof {
            use_type_invariant(self);
            self.lemma_view_wf();
        }
        match self.find_node(path) {
            Some(node) => match node.mount() {
                Some(fs) => {
                    let root = [SEPARATOR];
                    assert(root@ =~= root_path());
                    fs.symlink_metadata(&root)
                },
                None => Ok(directory_metadata()),
            },
            None => match self.resolve_deepest_mount(path) {
                Some(call) => call.fs.symlink_metadata(call.path.as_slice()),
                None => Err(FsError::EntryNotFound),
            },
        }
    }

    /// Removes a file, but no node with child mounts.
    fn remove_file(&self, path: &[u8]) -> (result: Result<(), FsError>)
        ensures
            ({
                let route = route_of(path@);
                if route.len() == 0 {
                    result == Err::<(), FsError>(FsError::NotAFile)
                } else if !self@.child_names(route).is_empty() {
                    result == Err::<(), FsError>(FsError::PermissionDenied)
                } else {
                    match self@.place(route) {
                        Place::Mount(fs) => remove_file_reply(&*fs, root_path(), result),
                        Place::Inside { fs, rest } => remove_file_reply(
                            &*fs,
                            absolute(rest),
                            result,
                        ),
                        _ => result == Err::<(), FsError>(FsError::EntryNotFound),
                    }
                }
            }),
    {
        let components = normalize_path_components(path);
        if components.len() == 0 {
            return Err(FsError::NotAFile);
        }
        proof {
            use_type_invariant(self);
            self.lemma_view_wf();
            self@.lemma_children_of_node(route_of(path@));
        }
        match self.find_node(path) {
            Some(node) => {
                if node.has_children() {
                    return Err(FsError::PermissionDenied);
                }
                match node.mount() {
                    Some(fs) => {
                        let root = [SEPARATOR];
                        assert(root@ =~= root_path());
                        fs.remove_file(&root)
                    },
                    None => Err(FsError::EntryNotFound),
                }
            },
            None => match self.resolve_deepest_mount(path) {
                Some(call) => call.fs.remove_file(call.path.as_slice()),
                None => Err(FsError::EntryNotFound),
            },
        }
    }

    /// Opens a file. A node without a mount is a directory, not a file.
    fn open(&self, path: &[u8], conf: &OpenOptionsConfig) -> (result: Result<F::File, FsError>)
        ensures
            opened_in(self@, path@, conf, result),
    {
        proof {
            use_type_invariant(self);
            self.lemma_view_wf();
            let route = route_of(path@);
            assert(route.skip(route.len() as int) =~= Seq::empty());
        }
        if let Some(node) = self.find_node(path) {
            if !node.is_mounted() {
                return Err(FsError::NotAFile);
            }
        }
        match self.resolve_deepest_mount(path) {
            Some(call) => call.fs.open(call.path.as_slice(), conf),
            None => Err(FsError::EntryNotFound),
        }
    }
}

impl<F: FileSystem + ?Sized> MountFileSystem<F> {
    /// Decides on a rename: which filesystem is to carry it out, and between
    /// which of its paths.
    pub fn rename(&self, from: &[u8], to: &[u8]) -> (result: Result<Renaming<F>, FsError>)
        ensures
            match (result, rename_point(self@, route_of(from@), route_of(to@))) {
                (Ok(call), Ok(point)) => {
                    &&& call.fs == self@.mounts[point]
                    &&& call.from@ == absolute(route_of(from@).skip(point.len() as int))
                    &&& call.to@ == absolute(route_of(to@).skip(point.len() as int))
                },
                (Err(error), Err(expected)) => error == expected,
                _ => false,
            },
    {
        let from_components = normalize_path_components(from);
        let to_components = normalize_path_components(to);
        if from_components.len() == 0 {
            return Err(FsError::PermissionDenied);
        }
        // Refuse to rename a mount-tree node that is branch-only or has child
        // mounts.
        if let Some(node) = self.find_node(from) {
            if !node.is_mounted() || node.has_children() {
                return Err(FsError::PermissionDenied);
            }
        }
        proof {
            self@.lemma_mount_point_is_deepest(route_of(from@));
            self@.lemma_mount_point_is_deepest(route_of(to@));
        }
        match (self.resolve_deepest_mount(from), self.resolve_deepest_mount(to)) {
            (Some(source), Some(target)) => {
                // Two paths are in the same mounted filesystem when they have the
                // same mount point.
                if source.depth == target.depth && same_start(
                    &from_components,
                    &to_components,
                    source.depth,
                ) {
                    Ok(Renaming { fs: source.fs, from: source.path, to: target.path })
                } else {
                    Err(FsError::InvalidInput)
                }
            },
            _ => Err(FsError::EntryNotFound),
        }
    }
}

} // verus!
