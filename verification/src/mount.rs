//! The filesystem that owns the tree of mount points.

use std::sync::Arc;

use vstd::prelude::*;

use crate::fs::{FileSystem, FsError};
use crate::model::{MountTree, UnionMergeMode};
use crate::path::{absolute, absolute_path, lemma_route_valid, normalize_path_components, route_of};
use crate::table::{MountNode, MountTable};

verus! {

/// A filesystem that manages a tree of mount points.
///
/// `MountFileSystem` owns mount-point topology: which filesystem is mounted at
/// which path, how path resolution crosses mount boundaries, and how directory
/// listings expose sub-mounts. Leaf filesystems only need to implement
/// operations for their own trees.
///
/// Path resolution always delegates to the *deepest* mounted node, so nested
/// mounts work whatever the filesystems above them do.
///
/// An operation that changes the topology needs the filesystem to itself.
pub struct MountFileSystem<F: FileSystem + ?Sized> {
    table: MountTable<F>,
}

/// A call that is to be handed on: the filesystem that answers it, and the path
/// to ask it for.
pub struct Delegation<F: FileSystem + ?Sized> {
    pub fs: Arc<F>,
    pub path: Vec<u8>,
    /// How many names lead to the mount point.
    pub depth: usize,
}

/// Another name of `MountFileSystem`.
pub type UnionFileSystem<F> = MountFileSystem<F>;

/// `Arc::from` of a box: moves the boxed filesystem to an allocation that can be
/// shared.
#[verifier::external_body]
fn share<F: ?Sized>(fs: Box<F>) -> (shared: Arc<F>)
    ensures
        &*shared == &*fs,
{
    Arc::from(fs)
}

impl<F: FileSystem + ?Sized> MountFileSystem<F> {
    /// The tree of mount points.
    pub closed spec fn view(&self) -> MountTree<F> {
        self.table@
    }

    /// The nodes make up a tree, and each of its branches leads to a mount.
    #[verifier::type_invariant]
    pub closed spec fn wf(&self) -> bool {
        self.table.wf()
    }

    /// The tree of mount points is well-formed at all times, and each of its
    /// branches leads to a mount.
    pub proof fn lemma_view_wf(&self)
        requires
            self.wf(),
        ensures
            self@.wf(),
            self@.no_dead_ends(),
    {
        self.table.lemma_wf();
    }

    /// A filesystem without mounts.
    pub fn new() -> (fs: Self)
        ensures
            fs@ == MountTree::<F>::empty(),
    {
        MountFileSystem { table: MountTable::new() }
    }

    /// Clear all mounts, replacing the root with a fresh empty node.
    pub fn clear(&mut self)
        ensures
            final(self)@ == MountTree::<F>::empty(),
    {
        *self = MountFileSystem::new();
    }

    /// Create an independent copy of this filesystem's mount topology.
    ///
    /// The returned filesystem shares the same leaf filesystems but has a
    /// completely independent mount tree, so adding or removing mounts in one
    /// copy does not affect the other.
    pub fn duplicate(&self) -> (copy: Self)
        ensures
            copy@ == self@,
    {
        proof {
            use_type_invariant(self);
        }
        MountFileSystem { table: self.table.deep_clone() }
    }

    /// Mount `fs` at `path`. The name is not stored: mount topology is keyed by
    /// path alone.
    pub fn mount(&mut self, _name: String, path: &[u8], fs: Box<F>) -> (result: Result<(), FsError>)
        ensures
            old(self)@.mounts.contains_key(route_of(path@)) ==> result == Err::<(), FsError>(
                FsError::AlreadyExists,
            ) && final(self)@ == old(self)@,
            !old(self)@.mounts.contains_key(route_of(path@)) ==> {
                let shared = final(self)@.mounts[route_of(path@)];
                &&& result == Ok::<(), FsError>(())
                &&& &*shared == &*fs
                &&& final(self)@ == old(self)@.mounted(route_of(path@), shared)
            },
    {
        proof {
            use_type_invariant(&*self);
            lemma_route_valid(path@);
        }
        let components = normalize_path_components(path);
        let mut table = MountTable::new();
        std::mem::swap(&mut table, &mut self.table);
        let result = table.mount(&components, share(fs));
        self.table = table;
        result
    }

    /// Merge `other` into `self` according to `mode`.
    ///
    /// A conflict that ends the merge in the mode `Fail` leaves what was merged
    /// before: what is on the way to the conflict, and some of the branches beside
    /// the way, each of them as a whole. Which conflict it is and which branches
    /// depends on the order in which the children of a node are visited, and that
    /// order is not specified.
    pub fn merge(&mut self, other: &MountFileSystem<F>, mode: UnionMergeMode) -> (result: Result<
        (),
        FsError,
    >)
        ensures
            result is Err <==> mode is Fail && old(self)@.conflicts(other@),
            match result {
                Ok(_) => final(self)@ == old(self)@.merged(other@, mode),
                Err(error) => error == FsError::AlreadyExists && old(self)@.interrupted(
                    other@,
                    Seq::empty(),
                    final(self)@,
                ),
            },
    {
        proof {
            use_type_invariant(&*self);
            use_type_invariant(other);
        }
        let mut table = MountTable::new();
        std::mem::swap(&mut table, &mut self.table);
        let result = table.merge(&other.table, mode);
        self.table = table;
        result
    }

    /// Find the exact node for `path`, if one exists in the tree.
    pub fn find_node(&self, path: &[u8]) -> (found: Option<&MountNode<F>>)
        ensures
            match found {
                Some(node) => node.stands_in(self@, route_of(path@)),
                None => !self@.nodes.contains(route_of(path@)),
            },
    {
        proof {
            use_type_invariant(self);
        }
        let components = normalize_path_components(path);
        self.table.find(&components)
    }

    /// Walk the mount tree and find the deepest mounted node whose path is a
    /// prefix of `path`. Returns the filesystem that is mounted there and the
    /// path to use within it.
    pub fn resolve_deepest_mount(&self, path: &[u8]) -> (found: Option<Delegation<F>>)
        ensures
            match (found, self@.mount_point(route_of(path@))) {
                (Some(call), Some(point)) => {
                    &&& call.fs == self@.mounts[point]
                    &&& call.path@ == absolute(route_of(path@).skip(point.len() as int))
                    &&& call.depth == point.len()
                },
                (None, None) => true,
                _ => false,
            },
    {
        proof {
            use_type_invariant(self);
        }
        let components = normalize_path_components(path);
        match self.table.resolve(&components) {
            Some((fs, depth)) => Some(
                Delegation { fs, path: absolute_path(&components, depth), depth },
            ),
            None => None,
        }
    }
}

impl<F: FileSystem + ?Sized> Default for MountFileSystem<F> {
    /// A filesystem without mounts.
    fn default() -> (fs: Self)
        ensures
            fs@ == MountTree::<F>::empty(),
    {
        Self::new()
    }
}

} // verus!
