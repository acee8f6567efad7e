//! What holds of calls: how the result of a call relates to its arguments, to
//! what is mounted where, and to what the mounted filesystems answer.
//!
//! Of the tree these laws speak of the places of its nodes and of its mounts, of
//! a path of the names that it goes through.

use vstd::prelude::*;

use crate::fs::{
    create_dir_reply, directory_metadata, entry_views, read_dir_reply, DirEntry, DirEntryView,
    FileSystem, FileType, FsError, Metadata, OpenOptionsConfig, ReadDir,
};
use crate::laws::{law_mount_point_is_deepest, law_rename_outcome};
use crate::listing::{
    child_entries, lists_node, overlaid, overlay_entries, rebase_entries, rebased_all,
    rebased_path, shadowed, unshadowed,
};
use crate::model::{below, UnionMergeMode};
use crate::mount::{Delegation, MountFileSystem};
use crate::open_options::OpenOptions;
use crate::operations::{root_path, tolerate_existing, tolerated, Renaming};
use crate::path::{
    absolute, absolute_path, collect_path, collected, components, components_of, file_name,
    file_name_of, join, joined, names, normalize_path_components, route_of, Component,
    ComponentView, Name, Route,
};
use crate::path_laws::law_route_of_path;
use crate::table::MountNode;

verus! {

/// The names that are found in a path are those of its route, in their order.
pub proof fn law_names_of_path(path: &[u8], found: Vec<Vec<u8>>)
    requires
        call_ensures(normalize_path_components, (path,), found),
    ensures
        found@.len() == route_of(path@).len(),
        forall|i: int| 0 <= i < found@.len() ==> #[trigger] found@[i]@ == route_of(path@)[i],
{
    assert(names(found@) == route_of(path@));
    assert forall|i: int| 0 <= i < found@.len() implies #[trigger] found@[i]@ == route_of(
        path@,
    )[i] by {
        assert(names(found@)[i] == found@[i]@);
    }
}

/// The components that are found in a path are its components, in their order.
pub proof fn law_components_of_call(path: &[u8], found: Vec<Component>)
    requires
        call_ensures(components, (path,), found),
    ensures
        found@.len() == components_of(path@).len(),
        forall|i: int|
            0 <= i < found@.len() ==> components_of(path@)[i] == (match #[trigger] found@[i] {
                Component::RootDir => ComponentView::RootDir,
                Component::CurDir => ComponentView::CurDir,
                Component::ParentDir => ComponentView::ParentDir,
                Component::Normal(name) => ComponentView::Normal(name@),
            }),
{
}

/// The file name that is found in a path is its file name.
pub proof fn law_file_name_of_call(path: &[u8], found: Option<Vec<u8>>)
    requires
        call_ensures(file_name, (path,), found),
    ensures
        found is Some <==> file_name_of(path@) is Some,
        found matches Some(name) ==> file_name_of(path@) == Some(name@),
{
}

/// Two paths are joined as their bytes say.
pub proof fn law_join(base: &[u8], tail: &[u8], both: Vec<u8>)
    requires
        call_ensures(join, (base, tail), both),
    ensures
        both@ == joined(base@, tail@),
{
}

/// The path that is collected of components is that of those from the given index
/// on.
pub proof fn law_collect_path(
    parts: &Vec<Component>,
    start: usize,
    views: Seq<ComponentView>,
    path: Vec<u8>,
)
    requires
        call_ensures(collect_path, (parts, start), path),
        start <= parts@.len(),
        views.len() == parts@.len() - start,
        forall|i: int|
            0 <= i < views.len() ==> #[trigger] views[i] == (match parts@[i + start] {
                Component::RootDir => ComponentView::RootDir,
                Component::CurDir => ComponentView::CurDir,
                Component::ParentDir => ComponentView::ParentDir,
                Component::Normal(name) => ComponentView::Normal(name@),
            }),
    ensures
        path@ == collected(views),
{
    assert(parts@.map_values(|item: Component| item@).skip(start as int) =~= views);
}

/// The path that is written of names is that of those from the given index on.
pub proof fn law_absolute_path(items: &Vec<Vec<u8>>, start: usize, route: Route, path: Vec<u8>)
    requires
        call_ensures(absolute_path, (items, start), path),
        start <= items@.len(),
        route.len() == items@.len() - start,
        forall|i: int| 0 <= i < route.len() ==> #[trigger] route[i] == items@[i + start]@,
    ensures
        path@ == absolute(route),
{
    assert(names(items@).skip(start as int) =~= route);
}

/// A new tree has no mounts, and no node but the root; the standard tree is a new
/// one.
pub proof fn law_new<F: FileSystem + ?Sized>(
    fresh: MountFileSystem<F>,
    standard: MountFileSystem<F>,
)
    requires
        call_ensures(MountFileSystem::<F>::new, (), fresh),
        call_ensures(<MountFileSystem<F> as Default>::default, (), standard),
    ensures
        forall|route: Route| !(#[trigger] fresh@.mounts.contains_key(route)),
        forall|route: Route| #[trigger] fresh@.nodes.contains(route) <==> route.len() == 0,
        standard@ == fresh@,
{
    assert forall|route: Route| #[trigger] fresh@.nodes.contains(route) == (route.len() == 0) by {
        if route.len() == 0 {
            assert(route =~= Seq::empty());
        }
    }
}

/// A duplicate has the same nodes, and the same mounts at the same places.
pub proof fn law_duplicate<F: FileSystem + ?Sized>(
    tree: &MountFileSystem<F>,
    copy: MountFileSystem<F>,
)
    requires
        call_ensures(MountFileSystem::<F>::duplicate, (tree,), copy),
    ensures
        copy@.mounts == tree@.mounts,
        copy@.nodes == tree@.nodes,
{
}

/// A cleared tree has no mounts, and no node but the root.
pub proof fn law_cleared<F: FileSystem + ?Sized>(tree: &mut MountFileSystem<F>)
    requires
        call_ensures(MountFileSystem::<F>::clear, (tree,), ()),
    ensures
        forall|route: Route| !(#[trigger] final(tree)@.mounts.contains_key(route)),
        forall|route: Route| #[trigger] final(tree)@.nodes.contains(route) <==> route.len() == 0,
{
    assert forall|route: Route| #[trigger] final(tree)@.nodes.contains(route) == (route.len()
        == 0) by {
        if route.len() == 0 {
            assert(route =~= Seq::empty());
        }
    }
}

/// Where something is mounted already a mount is refused and changes nothing.
/// Everywhere else it succeeds: the filesystem is mounted at the place of the path,
/// there are nodes on the way, and nothing else has changed.
pub proof fn law_mount<F: FileSystem + ?Sized>(
    tree: &mut MountFileSystem<F>,
    name: String,
    path: &[u8],
    fs: Box<F>,
    result: Result<(), FsError>,
)
    requires
        call_ensures(MountFileSystem::<F>::mount, (tree, name, path, fs), result),
    ensures
        old(tree)@.mounts.contains_key(route_of(path@)) ==> result == Err::<(), FsError>(
            FsError::AlreadyExists,
        ) && final(tree)@.mounts == old(tree)@.mounts && final(tree)@.nodes == old(tree)@.nodes,
        !old(tree)@.mounts.contains_key(route_of(path@)) ==> {
            &&& result is Ok
            &&& final(tree)@.mounts.contains_key(route_of(path@))
            &&& &*final(tree)@.mounts[route_of(path@)] == &*fs
            &&& forall|other: Route|
                other != route_of(path@) ==> (#[trigger] final(tree)@.mounts.contains_key(other)
                    <==> old(tree)@.mounts.contains_key(other)) && (old(tree)@.mounts.contains_key(
                    other,
                ) ==> final(tree)@.mounts[other] == old(tree)@.mounts[other])
            &&& forall|other: Route| #[trigger]
                final(tree)@.nodes.contains(other) <==> old(tree)@.nodes.contains(other)
                    || other.is_prefix_of(route_of(path@))
        },
{
}

/// What is mounted at a path is what a call for anything below that path goes to,
/// and it is asked for what is behind, unless there is a mount deeper on the way.
pub proof fn law_mounted_is_asked<F: FileSystem + ?Sized>(
    tree: &mut MountFileSystem<F>,
    name: String,
    path: &[u8],
    fs: Box<F>,
    result: Result<(), FsError>,
    after: &MountFileSystem<F>,
    rest: Seq<u8>,
    asked: &[u8],
    found: Option<Delegation<F>>,
)
    requires
        call_ensures(MountFileSystem::<F>::mount, (tree, name, path, fs), result),
        result is Ok,
        *after == *final(tree),
        asked@ == path@ + seq![0x2fu8] + rest,
        forall|k: int|
            route_of(path@).len() < k <= route_of(asked@).len() ==> !old(tree)@.mounts.contains_key(
                #[trigger] route_of(asked@).take(k),
            ),
        call_ensures(MountFileSystem::<F>::resolve_deepest_mount, (after, asked), found),
    ensures
        found is Some,
        &*found->0.fs == &*fs,
        found->0.path@ == absolute(route_of(rest)),
{
    let point = route_of(path@);
    let route = route_of(asked@);
    law_mount(tree, name, path, fs, result);
    law_route_of_path(path@, rest);
    assert(route == point + route_of(rest));
    assert(point =~= route.take(point.len() as int));
    assert forall|k: int| point.len() < k <= route.len() implies !after@.mounts.contains_key(
        #[trigger] route.take(k),
    ) by {
        assert(route.take(k).len() != point.len());
    }
    law_resolve(after, asked, point, found);
    assert(route.skip(point.len() as int) =~= route_of(rest));
}

/// A merge that succeeds leaves the nodes and mounts of both trees, and where both
/// have a mount the incoming one in the mode `Replace` and the existing one in the
/// mode `Skip`. It fails exactly in the mode `Fail`, and if there is such a place.
pub proof fn law_merge<F: FileSystem + ?Sized>(
    tree: &mut MountFileSystem<F>,
    other: &MountFileSystem<F>,
    mode: UnionMergeMode,
    result: Result<(), FsError>,
)
    requires
        call_ensures(MountFileSystem::<F>::merge, (tree, other, mode), result),
    ensures
        result is Err <==> mode is Fail && exists|route: Route|
            old(tree)@.mounts.contains_key(route) && #[trigger] other@.mounts.contains_key(route),
        result matches Err(error) ==> error == FsError::AlreadyExists,
        result is Ok ==> {
            &&& forall|route: Route| #[trigger]
                final(tree)@.nodes.contains(route) <==> old(tree)@.nodes.contains(route)
                    || other@.nodes.contains(route)
            &&& forall|route: Route| #[trigger]
                final(tree)@.mounts.contains_key(route) <==> old(tree)@.mounts.contains_key(route)
                    || other@.mounts.contains_key(route)
            &&& forall|route: Route| #[trigger]
                final(tree)@.mounts.contains_key(route) ==> final(tree)@.mounts[route] == (
                if !other@.mounts.contains_key(route) || old(tree)@.mounts.contains_key(route)
                    && mode is Skip {
                    old(tree)@.mounts[route]
                } else {
                    other@.mounts[route]
                })
        },
{
    if exists|route: Route|
        old(tree)@.mounts.contains_key(route) && #[trigger] other@.mounts.contains_key(route) {
        let route = choose|route: Route|
            old(tree)@.mounts.contains_key(route) && #[trigger] other@.mounts.contains_key(route);
        assert(Set::<Route>::full().contains(route));
        assert(old(tree)@.conflicts(other@));
    }
    if mode is Fail && result is Ok {
        assert forall|route: Route| #[trigger]
            final(tree)@.mounts.contains_key(route) implies !(old(tree)@.mounts.contains_key(route)
            && other@.mounts.contains_key(route)) by {
            assert(Set::<Route>::full().contains(route));
        }
    }
}

/// A merge that fails has come as far as a place where both trees have a mount.
/// What is on the way there has been merged. At that place and below nothing has
/// changed, nor has a mount that was there before, wherever it is. Of each branch
/// beside the way all has been merged, without a conflict, or nothing.
pub proof fn law_failed_merge<F: FileSystem + ?Sized>(
    tree: &mut MountFileSystem<F>,
    other: &MountFileSystem<F>,
    mode: UnionMergeMode,
    result: Result<(), FsError>,
    after: &MountFileSystem<F>,
) -> (conflict: Route)
    requires
        call_ensures(MountFileSystem::<F>::merge, (tree, other, mode), result),
        result is Err,
        *after == *final(tree),
    ensures
        old(tree)@.mounts.contains_key(conflict),
        other@.mounts.contains_key(conflict),
        forall|k: int|
            #![trigger conflict.take(k)]
            0 <= k < conflict.len() ==> {
                let place = conflict.take(k);
                &&& !(old(tree)@.mounts.contains_key(place) && other@.mounts.contains_key(place))
                &&& other@.nodes.contains(place) ==> after@.nodes.contains(place)
                &&& other@.mounts.contains_key(place) ==> after@.mounts.contains_key(place)
                    && after@.mounts[place] == other@.mounts[place]
            },
        forall|route: Route| #[trigger]
            old(tree)@.nodes.contains(route) ==> after@.nodes.contains(route),
        forall|route: Route| #[trigger]
            old(tree)@.mounts.contains_key(route) ==> after@.mounts.contains_key(route)
                && after@.mounts[route] == old(tree)@.mounts[route],
        forall|route: Route| #[trigger]
            after@.nodes.contains(route) && !old(tree)@.nodes.contains(route)
                ==> other@.nodes.contains(route) && !conflict.is_prefix_of(route),
        forall|route: Route| #[trigger]
            after@.mounts.contains_key(route) && !old(tree)@.mounts.contains_key(route)
                ==> other@.mounts.contains_key(route) && after@.mounts[route]
                == other@.mounts[route] && !conflict.is_prefix_of(route),
        forall|k: int, name: Name|
            #![trigger conflict.take(k).push(name)]
            0 <= k < conflict.len() && name != conflict[k] ==> {
                ||| forall|route: Route|
                    conflict.take(k).push(name).is_prefix_of(route) ==> {
                        &&& #[trigger] other@.nodes.contains(route) ==> after@.nodes.contains(route)
                        &&& other@.mounts.contains_key(route) ==> !old(tree)@.mounts.contains_key(
                            route,
                        ) && after@.mounts.contains_key(route)
                    }
                ||| forall|route: Route|
                    conflict.take(k).push(name).is_prefix_of(route) ==> {
                        &&& #[trigger] after@.nodes.contains(route) <==> old(tree)@.nodes.contains(route)
                        &&& after@.mounts.contains_key(route) <==> old(tree)@.mounts.contains_key(route)
                    }
            },
{
    let before = old(tree)@;
    let (conflict, places) = choose|conflict: Route, places: Set<Route>| #[trigger]
        before.interrupted_at(other@, Seq::empty(), conflict, places, after@);
    assert(before.interrupted_at(other@, Seq::empty(), conflict, places, after@));
    assert forall|route: Route| conflict.is_prefix_of(route) implies !places.contains(route) by {
        assert(below(conflict).contains(route));
    }
    assert forall|k: int, name: Name|
        #![trigger conflict.take(k).push(name)]
        0 <= k < conflict.len() && name != conflict[k] implies {
        ||| forall|route: Route|
            conflict.take(k).push(name).is_prefix_of(route) ==> {
                &&& #[trigger] other@.nodes.contains(route) ==> after@.nodes.contains(route)
                &&& other@.mounts.contains_key(route) ==> !before.mounts.contains_key(route)
                    && after@.mounts.contains_key(route)
            }
        ||| forall|route: Route|
            conflict.take(k).push(name).is_prefix_of(route) ==> {
                &&& #[trigger] after@.nodes.contains(route) <==> before.nodes.contains(route)
                &&& after@.mounts.contains_key(route) <==> before.mounts.contains_key(route)
            }
    } by {
        let branch = conflict.take(k).push(name);
        let inside = below(branch);
        assert(inside.subset_of(places) || inside.disjoint(places));
        assert forall|route: Route| branch.is_prefix_of(route) implies inside.contains(route) by {}
    }
    conflict
}

/// A path is resolved to the deepest mount on its way, and to what of it is behind
/// the mount point; and to nothing exactly where nothing is mounted on its way.
pub proof fn law_resolve<F: FileSystem + ?Sized>(
    tree: &MountFileSystem<F>,
    path: &[u8],
    point: Route,
    found: Option<Delegation<F>>,
)
    requires
        call_ensures(MountFileSystem::<F>::resolve_deepest_mount, (tree, path), found),
    ensures
        ({
            let route = route_of(path@);
            &&& point.is_prefix_of(route) && tree@.mounts.contains_key(point) && (forall|k: int|
                point.len() < k <= route.len() ==> !tree@.mounts.contains_key(
                    #[trigger] route.take(k),
                )) ==> {
                &&& found is Some
                &&& found->0.fs == tree@.mounts[point]
                &&& found->0.path@ == absolute(route.skip(point.len() as int))
                &&& found->0.depth == point.len()
            }
            &&& found is None <==> forall|k: int|
                0 <= k <= route.len() ==> !tree@.mounts.contains_key(#[trigger] route.take(k))
        }),
{
    law_mount_point_is_deepest(tree@, route_of(path@), point);
}

/// A node is found exactly where there is one. It tells what is mounted there, and
/// each of the names right below once.
pub proof fn law_find_node<F: FileSystem + ?Sized>(
    tree: &MountFileSystem<F>,
    path: &[u8],
    found: Option<&MountNode<F>>,
    mount: Option<std::sync::Arc<F>>,
    mounted: bool,
    parent: bool,
    children: Vec<Vec<u8>>,
)
    requires
        call_ensures(MountFileSystem::<F>::find_node, (tree, path), found),
        found matches Some(node) ==> call_ensures(MountNode::<F>::mount, (node,), mount)
            && call_ensures(MountNode::<F>::is_mounted, (node,), mounted) && call_ensures(
            MountNode::<F>::has_children,
            (node,),
            parent,
        ) && call_ensures(MountNode::<F>::child_names, (node,), children),
    ensures
        found is Some <==> tree@.nodes.contains(route_of(path@)),
        found is Some ==> {
            let route = route_of(path@);
            &&& mounted == tree@.mounts.contains_key(route)
            &&& mount == (if tree@.mounts.contains_key(route) {
                Some(tree@.mounts[route])
            } else {
                None
            })
            &&& parent == exists|name: Name| tree@.nodes.contains(#[trigger] route.push(name))
            &&& forall|i: int|
                0 <= i < children@.len() ==> tree@.nodes.contains(
                    route.push(#[trigger] children@[i]@),
                )
            &&& forall|name: Name|
                tree@.nodes.contains(#[trigger] route.push(name)) ==> exists|i: int|
                    0 <= i < children@.len() && #[trigger] children@[i]@ == name
            &&& forall|i: int, j: int|
                #![trigger children@[i], children@[j]]
                0 <= i < j < children@.len() ==> children@[i]@ != children@[j]@
        },
{
    let route = route_of(path@);
    if let Some(node) = found {
        let right_below = tree@.child_names(route);
        let listed = names(children@);
        assert(node.names_below() == right_below);
        assert(listed.to_set() == right_below);
        if exists|name: Name| tree@.nodes.contains(#[trigger] route.push(name)) {
            let name = choose|name: Name| tree@.nodes.contains(#[trigger] route.push(name));
            assert(right_below.contains(name));
        }
        if !right_below.is_empty() {
            let name = choose|name: Name| right_below.contains(name);
            assert(tree@.nodes.contains(route.push(name)));
        }
        assert forall|i: int| 0 <= i < children@.len() implies tree@.nodes.contains(
            route.push(#[trigger] children@[i]@),
        ) by {
            assert(listed[i] == children@[i]@);
            assert(listed.to_set().contains(listed[i]));
            assert(right_below.contains(listed[i]));
        }
        assert forall|name: Name| tree@.nodes.contains(#[trigger] route.push(name)) implies exists|
            i: int,
        | 0 <= i < children@.len() && #[trigger] children@[i]@ == name by {
            assert(right_below.contains(name));
            assert(listed.to_set().contains(name));
            let i = choose|i: int| 0 <= i < listed.len() && listed[i] == name;
            assert(children@[i]@ == name);
        }
        assert forall|i: int, j: int|
            #![trigger children@[i], children@[j]]
            0 <= i < j < children@.len() implies children@[i]@ != children@[j]@ by {
            assert(listed[i] != listed[j]);
        }
    }
}

/// A link is read by the deepest mount on the way, under what of the path is behind
/// the mount point, and its answer is passed on.
pub proof fn law_readlink<F: FileSystem + ?Sized>(
    tree: &MountFileSystem<F>,
    path: &[u8],
    point: Route,
    result: Result<Vec<u8>, FsError>,
)
    requires
        call_ensures(<MountFileSystem<F> as FileSystem>::readlink, (tree, path), result),
    ensures
        ({
            let route = route_of(path@);
            let mounted = tree@.mounts.contains_key(route);
            let deepest = point.is_prefix_of(route) && tree@.mounts.contains_key(point) && (forall|
                k: int,
            |
                point.len() < k <= route.len() ==> !tree@.mounts.contains_key(
                    #[trigger] route.take(k),
                ));
            let unmounted = forall|k: int|
                0 <= k <= route.len() ==> !tree@.mounts.contains_key(#[trigger] route.take(k));
            &&& deepest ==> exists|asked: &[u8]|
                asked@ == absolute(route.skip(point.len() as int)) && #[trigger] call_ensures(
                    F::readlink,
                    (&*tree@.mounts[point], asked),
                    result,
                )
            &&& unmounted ==> result == Err::<Vec<u8>, FsError>(FsError::EntryNotFound)
        }),
{
    law_mount_point_is_deepest(tree@, route_of(path@), point);
}

/// Where a filesystem is mounted it answers for its root, and inside it for what of
/// the path is behind the mount point. A node without a mount is a directory of
/// length 0 without times. Everywhere else nothing is found.
pub proof fn law_metadata<F: FileSystem + ?Sized>(
    tree: &MountFileSystem<F>,
    path: &[u8],
    point: Route,
    result: Result<Metadata, FsError>,
)
    requires
        call_ensures(<MountFileSystem<F> as FileSystem>::metadata, (tree, path), result),
    ensures
        ({
            let route = route_of(path@);
            let mounted = tree@.mounts.contains_key(route);
            let branch = tree@.nodes.contains(route) && !tree@.mounts.contains_key(route);
            let no_node = !tree@.nodes.contains(route) && !tree@.mounts.contains_key(route);
            let deepest = point.is_prefix_of(route) && tree@.mounts.contains_key(point) && (forall|
                k: int,
            |
                point.len() < k <= route.len() ==> !tree@.mounts.contains_key(
                    #[trigger] route.take(k),
                ));
            let unmounted = forall|k: int|
                0 <= k <= route.len() ==> !tree@.mounts.contains_key(#[trigger] route.take(k));
            &&& mounted ==> exists|asked: &[u8]|
                asked@ == seq![0x2fu8] && #[trigger] call_ensures(
                    F::metadata,
                    (&*tree@.mounts[route], asked),
                    result,
                )
            &&& branch ==> result == Ok::<Metadata, FsError>(
                (Metadata {
                    ft: (FileType {
                        dir: true,
                        file: false,
                        symlink: false,
                        char_device: false,
                        block_device: false,
                        socket: false,
                        fifo: false,
                    }),
                    accessed: 0,
                    created: 0,
                    modified: 0,
                    len: 0,
                }),
            )
            &&& no_node && deepest ==> exists|asked: &[u8]|
                asked@ == absolute(route.skip(point.len() as int)) && #[trigger] call_ensures(
                    F::metadata,
                    (&*tree@.mounts[point], asked),
                    result,
                )
            &&& no_node && unmounted ==> result == Err::<Metadata, FsError>(FsError::EntryNotFound)
        }),
{
    law_mount_point_is_deepest(tree@, route_of(path@), point);
}

/// Where a filesystem is mounted it answers for its root, and inside it for what of
/// the path is behind the mount point. A node without a mount is a directory of
/// length 0 without times. Everywhere else nothing is found.
pub proof fn law_symlink_metadata<F: FileSystem + ?Sized>(
    tree: &MountFileSystem<F>,
    path: &[u8],
    point: Route,
    result: Result<Metadata, FsError>,
)
    requires
        call_ensures(<MountFileSystem<F> as FileSystem>::symlink_metadata, (tree, path), result),
    ensures
        ({
            let route = route_of(path@);
            let mounted = tree@.mounts.contains_key(route);
            let branch = tree@.nodes.contains(route) && !tree@.mounts.contains_key(route);
            let no_node = !tree@.nodes.contains(route) && !tree@.mounts.contains_key(route);
            let deepest = point.is_prefix_of(route) && tree@.mounts.contains_key(point) && (forall|
                k: int,
            |
                point.len() < k <= route.len() ==> !tree@.mounts.contains_key(
                    #[trigger] route.take(k),
                ));
            let unmounted = forall|k: int|
                0 <= k <= route.len() ==> !tree@.mounts.contains_key(#[trigger] route.take(k));
            &&& mounted ==> exists|asked: &[u8]|
                asked@ == seq![0x2fu8] && #[trigger] call_ensures(
                    F::symlink_metadata,
                    (&*tree@.mounts[route], asked),
                    result,
                )
            &&& branch ==> result == Ok::<Metadata, FsError>(
                (Metadata {
                    ft: (FileType {
                        dir: true,
                        file: false,
                        symlink: false,
                        char_device: false,
                        block_device: false,
                        socket: false,
                        fifo: false,
                    }),
                    accessed: 0,
                    created: 0,
                    modified: 0,
                    len: 0,
                }),
            )
            &&& no_node && deepest ==> exists|asked: &[u8]|
                asked@ == absolute(route.skip(point.len() as int)) && #[trigger] call_ensures(
                    F::symlink_metadata,
                    (&*tree@.mounts[point], asked),
                    result,
                )
            &&& no_node && unmounted ==> result == Err::<Metadata, FsError>(FsError::EntryNotFound)
        }),
{
    law_mount_point_is_deepest(tree@, route_of(path@), point);
}

/// The root and the nodes without a mount are there already. A mounted filesystem is
/// asked to create its root, or what of the path is behind the mount point: that
/// succeeds if it does so or if it has such an entry already, and every other error
/// is passed on. Everywhere else nothing is found.
pub proof fn law_create_dir<F: FileSystem + ?Sized>(
    tree: &MountFileSystem<F>,
    path: &[u8],
    point: Route,
    result: Result<(), FsError>,
)
    requires
        call_ensures(<MountFileSystem<F> as FileSystem>::create_dir, (tree, path), result),
    ensures
        ({
            let route = route_of(path@);
            let mounted = tree@.mounts.contains_key(route);
            let branch = tree@.nodes.contains(route) && !tree@.mounts.contains_key(route);
            let no_node = !tree@.nodes.contains(route) && !tree@.mounts.contains_key(route);
            let deepest = point.is_prefix_of(route) && tree@.mounts.contains_key(point) && (forall|
                k: int,
            |
                point.len() < k <= route.len() ==> !tree@.mounts.contains_key(
                    #[trigger] route.take(k),
                ));
            let unmounted = forall|k: int|
                0 <= k <= route.len() ==> !tree@.mounts.contains_key(#[trigger] route.take(k));
            &&& route.len() == 0 ==> result is Ok
            &&& route.len() > 0 && mounted ==> exists|asked: &[u8], reply: Result<(), FsError>|
                asked@ == seq![0x2fu8] && #[trigger] call_ensures(
                    F::create_dir,
                    (&*tree@.mounts[route], asked),
                    reply,
                ) && (match reply {
                    Ok(_) => result is Ok,
                    Err(error) => if error == FsError::AlreadyExists {
                        result is Ok
                    } else {
                        result == Err::<(), FsError>(error)
                    },
                })
            &&& branch ==> result is Ok
            &&& route.len() > 0 && no_node && deepest ==> exists|
                asked: &[u8],
                reply: Result<(), FsError>,
            |
                asked@ == absolute(route.skip(point.len() as int)) && #[trigger] call_ensures(
                    F::create_dir,
                    (&*tree@.mounts[point], asked),
                    reply,
                ) && (match reply {
                    Ok(_) => result is Ok,
                    Err(error) => if error == FsError::AlreadyExists {
                        result is Ok
                    } else {
                        result == Err::<(), FsError>(error)
                    },
                })
            &&& route.len() > 0 && no_node && unmounted ==> result == Err::<
                (),
                FsError,
            >(FsError::EntryNotFound)
        }),
{
    law_mount_point_is_deepest(tree@, route_of(path@), point);
    let route = route_of(path@);
    if route.len() > 0 && tree@.mounts.contains_key(route) {
        let fs = tree@.mounts[route];
        let reply = choose|reply: Result<(), FsError>| #[trigger]
            create_dir_reply(&*fs, root_path(), reply) && result == tolerated(reply);
        assert(create_dir_reply(&*fs, root_path(), reply));
    } else if route.len() > 0 && !tree@.nodes.contains(route) && tree@.mount_point(route) == Some(
        point,
    ) {
        let fs = tree@.mounts[point];
        let rest = absolute(route.skip(point.len() as int));
        let reply = choose|reply: Result<(), FsError>| #[trigger]
            create_dir_reply(&*fs, rest, reply) && result == tolerated(reply);
        assert(create_dir_reply(&*fs, rest, reply));
    }
}

/// The root and a node with child mounts are not removed. Elsewhere the mounted
/// filesystem is asked to remove its root, or what of the path is behind the mount
/// point, and its answer is passed on. Everywhere else nothing is found.
pub proof fn law_remove_dir<F: FileSystem + ?Sized>(
    tree: &MountFileSystem<F>,
    path: &[u8],
    point: Route,
    result: Result<(), FsError>,
)
    requires
        call_ensures(<MountFileSystem<F> as FileSystem>::remove_dir, (tree, path), result),
    ensures
        ({
            let route = route_of(path@);
            let mounted = tree@.mounts.contains_key(route);
            let branch = tree@.nodes.contains(route) && !tree@.mounts.contains_key(route);
            let no_node = !tree@.nodes.contains(route) && !tree@.mounts.contains_key(route);
            let parent = exists|name: Name| tree@.nodes.contains(#[trigger] route.push(name));
            let deepest = point.is_prefix_of(route) && tree@.mounts.contains_key(point) && (forall|
                k: int,
            |
                point.len() < k <= route.len() ==> !tree@.mounts.contains_key(
                    #[trigger] route.take(k),
                ));
            let unmounted = forall|k: int|
                0 <= k <= route.len() ==> !tree@.mounts.contains_key(#[trigger] route.take(k));
            &&& route.len() == 0 ==> result == Err::<(), FsError>(FsError::PermissionDenied)
            &&& route.len() > 0 && parent ==> result == Err::<
                (),
                FsError,
            >(FsError::PermissionDenied)
            &&& route.len() > 0 && !parent && mounted ==> exists|asked: &[u8]|
                asked@ == seq![0x2fu8] && #[trigger] call_ensures(
                    F::remove_dir,
                    (&*tree@.mounts[route], asked),
                    result,
                )
            &&& route.len() > 0 && !parent && branch ==> result == Err::<
                (),
                FsError,
            >(FsError::EntryNotFound)
            &&& route.len() > 0 && !parent && no_node && deepest ==> exists|asked: &[u8]|
                asked@ == absolute(route.skip(point.len() as int)) && #[trigger] call_ensures(
                    F::remove_dir,
                    (&*tree@.mounts[point], asked),
                    result,
                )
            &&& route.len() > 0 && !parent && no_node && unmounted ==> result == Err::<
                (),
                FsError,
            >(FsError::EntryNotFound)
        }),
{
    law_mount_point_is_deepest(tree@, route_of(path@), point);
    let route = route_of(path@);
    let children = tree@.child_names(route);
    if exists|name: Name| tree@.nodes.contains(#[trigger] route.push(name)) {
        let name = choose|name: Name| tree@.nodes.contains(#[trigger] route.push(name));
        assert(children.contains(name));
    }
    if !children.is_empty() {
        let name = choose|name: Name| children.contains(name);
        assert(tree@.nodes.contains(route.push(name)));
    }
}

/// The root is no file, and a node with child mounts is not removed. Elsewhere the
/// mounted filesystem is asked to remove its root, or what of the path is behind the
/// mount point, and its answer is passed on. Everywhere else nothing is found.
pub proof fn law_remove_file<F: FileSystem + ?Sized>(
    tree: &MountFileSystem<F>,
    path: &[u8],
    point: Route,
    result: Result<(), FsError>,
)
    requires
        call_ensures(<MountFileSystem<F> as FileSystem>::remove_file, (tree, path), result),
    ensures
        ({
            let route = route_of(path@);
            let mounted = tree@.mounts.contains_key(route);
            let branch = tree@.nodes.contains(route) && !tree@.mounts.contains_key(route);
            let no_node = !tree@.nodes.contains(route) && !tree@.mounts.contains_key(route);
            let parent = exists|name: Name| tree@.nodes.contains(#[trigger] route.push(name));
            let deepest = point.is_prefix_of(route) && tree@.mounts.contains_key(point) && (forall|
                k: int,
            |
                point.len() < k <= route.len() ==> !tree@.mounts.contains_key(
                    #[trigger] route.take(k),
                ));
            let unmounted = forall|k: int|
                0 <= k <= route.len() ==> !tree@.mounts.contains_key(#[trigger] route.take(k));
            &&& route.len() == 0 ==> result == Err::<(), FsError>(FsError::NotAFile)
            &&& route.len() > 0 && parent ==> result == Err::<
                (),
                FsError,
            >(FsError::PermissionDenied)
            &&& route.len() > 0 && !parent && mounted ==> exists|asked: &[u8]|
                asked@ == seq![0x2fu8] && #[trigger] call_ensures(
                    F::remove_file,
                    (&*tree@.mounts[route], asked),
                    result,
                )
            &&& route.len() > 0 && !parent && branch ==> result == Err::<
                (),
                FsError,
            >(FsError::EntryNotFound)
            &&& route.len() > 0 && !parent && no_node && deepest ==> exists|asked: &[u8]|
                asked@ == absolute(route.skip(point.len() as int)) && #[trigger] call_ensures(
                    F::remove_file,
                    (&*tree@.mounts[point], asked),
                    result,
                )
            &&& route.len() > 0 && !parent && no_node && unmounted ==> result == Err::<
                (),
                FsError,
            >(FsError::EntryNotFound)
        }),
{
    law_mount_point_is_deepest(tree@, route_of(path@), point);
    let route = route_of(path@);
    let children = tree@.child_names(route);
    if exists|name: Name| tree@.nodes.contains(#[trigger] route.push(name)) {
        let name = choose|name: Name| tree@.nodes.contains(#[trigger] route.push(name));
        assert(children.contains(name));
    }
    if !children.is_empty() {
        let name = choose|name: Name| children.contains(name);
        assert(tree@.nodes.contains(route.push(name)));
    }
}

/// A file is opened by the filesystem that is mounted on the way, with the very options
/// that were given. A node without a mount is no file, and everywhere else nothing is
/// found.
pub proof fn law_open<F: FileSystem + ?Sized>(
    tree: &MountFileSystem<F>,
    path: &[u8],
    conf: &OpenOptionsConfig,
    point: Route,
    result: Result<F::File, FsError>,
)
    requires
        call_ensures(<MountFileSystem<F> as FileSystem>::open, (tree, path, conf), result),
    ensures
        ({
            let route = route_of(path@);
            let mounted = tree@.mounts.contains_key(route);
            let branch = tree@.nodes.contains(route) && !tree@.mounts.contains_key(route);
            let no_node = !tree@.nodes.contains(route) && !tree@.mounts.contains_key(route);
            let deepest = point.is_prefix_of(route) && tree@.mounts.contains_key(point) && (forall|
                k: int,
            |
                point.len() < k <= route.len() ==> !tree@.mounts.contains_key(
                    #[trigger] route.take(k),
                ));
            let unmounted = forall|k: int|
                0 <= k <= route.len() ==> !tree@.mounts.contains_key(#[trigger] route.take(k));
            &&& mounted ==> exists|asked: &[u8]|
                asked@ == seq![0x2fu8] && #[trigger] call_ensures(
                    F::open,
                    (&*tree@.mounts[route], asked, conf),
                    result,
                )
            &&& branch ==> result == Err::<F::File, FsError>(FsError::NotAFile)
            &&& no_node && deepest ==> exists|asked: &[u8]|
                asked@ == absolute(route.skip(point.len() as int)) && #[trigger] call_ensures(
                    F::open,
                    (&*tree@.mounts[point], asked, conf),
                    result,
                )
            &&& no_node && unmounted ==> result == Err::<F::File, FsError>(FsError::EntryNotFound)
        }),
{
    law_mount_point_is_deepest(tree@, route_of(path@), point);
}

/// A rename is refused for the root, for a node without a mount and for one with
/// child mounts. Otherwise it is handed to the filesystem that is mounted deepest on
/// the way to both places, wherever that is, with what of each path is behind the
/// mount point. It is invalid exactly where the two have different mount points, and
/// not found where there is none on the way to one of them.
pub proof fn law_rename<F: FileSystem + ?Sized>(
    tree: &MountFileSystem<F>,
    from: &[u8],
    to: &[u8],
    here: Route,
    there: Route,
    result: Result<Renaming<F>, FsError>,
)
    requires
        call_ensures(MountFileSystem::<F>::rename, (tree, from, to), result),
    ensures
        ({
            let source = route_of(from@);
            let target = route_of(to@);
            let refused = source.len() == 0 || tree@.nodes.contains(source) && (
            !tree@.mounts.contains_key(source) || exists|name: Name|
                tree@.nodes.contains(#[trigger] source.push(name)));
            let starts = here.is_prefix_of(source) && tree@.mounts.contains_key(here) && (forall|
                k: int,
            |
                here.len() < k <= source.len() ==> !tree@.mounts.contains_key(
                    #[trigger] source.take(k),
                ));
            let ends = there.is_prefix_of(target) && tree@.mounts.contains_key(there) && (forall|
                k: int,
            |
                there.len() < k <= target.len() ==> !tree@.mounts.contains_key(
                    #[trigger] target.take(k),
                ));
            &&& refused ==> result == Err::<Renaming<F>, FsError>(FsError::PermissionDenied)
            &&& !refused && starts && ends && here == there ==> {
                &&& result is Ok
                &&& result->Ok_0.fs == tree@.mounts[here]
                &&& result->Ok_0.from@ == absolute(source.skip(here.len() as int))
                &&& result->Ok_0.to@ == absolute(target.skip(here.len() as int))
            }
            &&& !refused && starts && ends && here != there ==> result == Err::<
                Renaming<F>,
                FsError,
            >(FsError::InvalidInput)
            &&& !refused && ((forall|k: int|
                0 <= k <= source.len() ==> !tree@.mounts.contains_key(#[trigger] source.take(k)))
                || (forall|k: int|
                0 <= k <= target.len() ==> !tree@.mounts.contains_key(#[trigger] target.take(k))))
                ==> result == Err::<Renaming<F>, FsError>(FsError::EntryNotFound)
        }),
{
    let source = route_of(from@);
    let target = route_of(to@);
    law_mount_point_is_deepest(tree@, source, here);
    law_mount_point_is_deepest(tree@, target, there);
    law_rename_outcome(tree@, source, target, here);
}

/// An answer that such a directory exists already counts as success, success stays
/// what it is, and every other error is passed on.
pub proof fn law_tolerate_existing(reply: Result<(), FsError>, result: Result<(), FsError>)
    requires
        call_ensures(tolerate_existing, (reply,), result),
    ensures
        reply is Ok ==> result is Ok,
        reply == Err::<(), FsError>(FsError::AlreadyExists) ==> result is Ok,
        reply matches Err(error) ==> error != FsError::AlreadyExists ==> result == Err::<
            (),
            FsError,
        >(error),
{
}

/// Where the items that a filter keeps were before.
proof fn lemma_kept<A>(items: Seq<A>, pred: spec_fn(A) -> bool) -> (kept: Seq<int>)
    ensures
        kept.len() == items.filter(pred).len(),
        forall|i: int, j: int|
            #![trigger kept[i], kept[j]]
            0 <= i < j < kept.len() ==> kept[i] < kept[j],
        forall|k: int|
            #![trigger kept[k]]
            0 <= k < kept.len() ==> 0 <= kept[k] < items.len() && items.filter(pred)[k]
                == items[kept[k]],
        forall|i: int|
            #![trigger items[i]]
            0 <= i < items.len() ==> (kept.contains(i) <==> pred(items[i])),
    decreases items.len(),
{
    reveal(Seq::filter);
    if items.len() == 0 {
        Seq::empty()
    } else {
        let init = items.drop_last();
        let last = items.len() - 1;
        let before = lemma_kept(init, pred);
        let kept = if pred(items.last()) {
            before.push(last)
        } else {
            before
        };
        assert forall|i: int|
            #![trigger items[i]]
            0 <= i < items.len() implies (kept.contains(i) <==> pred(items[i])) by {
            if i < last {
                assert(init[i] == items[i]);
                if before.contains(i) {
                    let k = choose|k: int| 0 <= k < before.len() && before[k] == i;
                    assert(kept[k] == i);
                }
                if kept.contains(i) {
                    let k = choose|k: int| 0 <= k < kept.len() && kept[k] == i;
                    assert(k < before.len() && before[k] == i);
                }
            } else {
                if pred(items[i]) {
                    assert(kept[before.len() as int] == i);
                }
                if kept.contains(i) {
                    let k = choose|k: int| 0 <= k < kept.len() && kept[k] == i;
                    if k < before.len() {
                        assert(before[k] == i);
                    }
                }
            }
        }
        assert forall|k: int|
            #![trigger kept[k]]
            0 <= k < kept.len() implies 0 <= kept[k] < items.len() && items.filter(pred)[k]
            == items[kept[k]] by {
            if k < before.len() {
                assert(before[k] == kept[k]);
                assert(init.filter(pred)[k] == init[before[k]]);
            }
        }
        kept
    }
}

/// Indices in a rising order that leave none out are all of them.
proof fn lemma_none_left_out(kept: Seq<int>, count: int)
    requires
        0 <= count,
        forall|i: int, j: int|
            #![trigger kept[i], kept[j]]
            0 <= i < j < kept.len() ==> kept[i] < kept[j],
        forall|k: int| 0 <= k < kept.len() ==> 0 <= #[trigger] kept[k] < count,
        forall|i: int| 0 <= i < count ==> kept.contains(i),
    ensures
        kept.len() == count,
        forall|k: int| 0 <= k < count ==> #[trigger] kept[k] == k,
    decreases count,
{
    if count == 0 {
        if kept.len() > 0 {
            assert(0 <= kept[0] < count);
        }
    } else {
        assert(kept.contains(count - 1));
        let at = choose|k: int| 0 <= k < kept.len() && kept[k] == count - 1;
        if at < kept.len() - 1 {
            assert(kept[at] < kept[kept.len() - 1]);
        }
        let init = kept.drop_last();
        assert forall|k: int| 0 <= k < init.len() implies 0 <= #[trigger] init[k] < count - 1 by {
            assert(kept[k] < kept[at]);
        }
        assert forall|i: int| 0 <= i < count - 1 implies init.contains(i) by {
            assert(kept.contains(i));
            let k = choose|k: int| 0 <= k < kept.len() && kept[k] == i;
            assert(init[k] == i);
        }
        lemma_none_left_out(init, count - 1);
        assert forall|k: int| 0 <= k < count implies #[trigger] kept[k] == k by {
            if k < count - 1 {
                assert(init[k] == k);
            }
        }
    }
}

/// What an overlaid listing consists of.
proof fn lemma_overlaid(
    base: Seq<DirEntry>,
    prefix: Seq<u8>,
    order: Seq<Name>,
    listing: Seq<DirEntry>,
) -> (kept: Seq<int>)
    requires
        entry_views(listing) == overlaid(entry_views(base), prefix, order),
    ensures
        forall|i: int, j: int|
            #![trigger kept[i], kept[j]]
            0 <= i < j < kept.len() ==> kept[i] < kept[j],
        forall|k: int|
            0 <= k < kept.len() ==> 0 <= #[trigger] kept[k] < base.len(),
        forall|i: int|
            #![trigger base[i]]
            0 <= i < base.len() ==> (kept.contains(i) <==> match file_name_of(
                rebased_path(base[i].path@, prefix),
            ) {
                Some(name) => !order.contains(name),
                None => true,
            }),
        listing.len() == kept.len() + order.len(),
        forall|k: int|
            #![trigger listing[k]]
            0 <= k < kept.len() ==> listing[k].path@ == rebased_path(
                base[kept[k]].path@,
                prefix,
            ) && listing[k].metadata == base[kept[k]].metadata,
        forall|k: int|
            #![trigger order[k]]
            0 <= k < order.len() ==> listing[kept.len() + k].path@ == joined(prefix, order[k])
                && listing[kept.len() + k].metadata == Ok::<Metadata, FsError>(
                    (Metadata {
                        ft: (FileType {
                            dir: true,
                            file: false,
                            symlink: false,
                            char_device: false,
                            block_device: false,
                            socket: false,
                            fifo: false,
                        }),
                        accessed: 0,
                        created: 0,
                        modified: 0,
                        len: 0,
                    }),
                ),
{
    let hidden = order.to_set();
    let all = rebased_all(entry_views(base), prefix);
    let pred = |entry: DirEntryView| !shadowed(entry, hidden);
    let visible = unshadowed(all, hidden);
    let kept = lemma_kept(all, pred);
    let tail = child_entries(prefix, order);
    assert(visible == all.filter(pred));
    assert(entry_views(listing) == visible + tail);
    assert(entry_views(listing).len() == listing.len());
    assert forall|i: int|
        #![trigger base[i]]
        0 <= i < base.len() implies (kept.contains(i) <==> match file_name_of(
        rebased_path(base[i].path@, prefix),
    ) {
        Some(name) => !order.contains(name),
        None => true,
    }) by {
        assert(entry_views(base)[i] == base[i]@);
        assert(all[i].path == rebased_path(base[i].path@, prefix));
        assert(kept.contains(i) <==> pred(all[i]));
        if let Some(name) = file_name_of(all[i].path) {
            assert(hidden.contains(name) == order.contains(name));
        }
    }
    assert forall|k: int|
        #![trigger listing[k]]
        0 <= k < kept.len() implies listing[k].path@ == rebased_path(base[kept[k]].path@, prefix)
        && listing[k].metadata == base[kept[k]].metadata by {
        assert(entry_views(listing)[k] == listing[k]@);
        assert(visible[k] == all[kept[k]]);
        assert(entry_views(base)[kept[k]] == base[kept[k]]@);
    }
    assert forall|k: int| #![trigger order[k]] 0 <= k < order.len() implies listing[kept.len()
        + k].path@ == joined(prefix, order[k]) && listing[kept.len() + k].metadata == Ok::<Metadata, FsError>(
        (Metadata {
            ft: (FileType {
                dir: true,
                file: false,
                symlink: false,
                char_device: false,
                block_device: false,
                socket: false,
                fifo: false,
            }),
            accessed: 0,
            created: 0,
            modified: 0,
            len: 0,
        }),
    ) by {
        assert(entry_views(listing)[kept.len() + k] == listing[kept.len() + k]@);
        assert(entry_views(listing)[kept.len() + k] == tail[k]);
    }
    kept
}

/// A listing with child mounts: first the entries of the mounted filesystem, in
/// their order, each with its own metadata and put below the prefix, where exactly
/// those are missing whose name is that of a child mount; and then the child
/// mounts, in their order, as directories.
pub proof fn law_overlay_entries(
    base: ReadDir,
    prefix: &[u8],
    children: &Vec<Vec<u8>>,
    order: Seq<Name>,
    listing: ReadDir,
) -> (kept: Seq<int>)
    requires
        call_ensures(overlay_entries, (base, prefix, children), listing),
        order.len() == children@.len(),
        forall|i: int| 0 <= i < order.len() ==> #[trigger] order[i] == children@[i]@,
    ensures
        forall|i: int, j: int|
            #![trigger kept[i], kept[j]]
            0 <= i < j < kept.len() ==> kept[i] < kept[j],
        forall|k: int|
            0 <= k < kept.len() ==> 0 <= #[trigger] kept[k] < base.data@.len(),
        forall|i: int|
            #![trigger base.data@[i]]
            0 <= i < base.data@.len() ==> (kept.contains(i) <==> match file_name_of(
                rebased_path(base.data@[i].path@, prefix@),
            ) {
                Some(name) => !order.contains(name),
                None => true,
            }),
        listing.data@.len() == kept.len() + order.len(),
        forall|k: int|
            #![trigger listing.data@[k]]
            0 <= k < kept.len() ==> listing.data@[k].path@ == rebased_path(
                base.data@[kept[k]].path@,
                prefix@,
            ) && listing.data@[k].metadata == base.data@[kept[k]].metadata,
        forall|k: int|
            #![trigger order[k]]
            0 <= k < order.len() ==> listing.data@[kept.len() + k].path@ == joined(prefix@, order[k])
                && listing.data@[kept.len() + k].metadata == Ok::<Metadata, FsError>(
                    (Metadata {
                        ft: (FileType {
                            dir: true,
                            file: false,
                            symlink: false,
                            char_device: false,
                            block_device: false,
                            socket: false,
                            fifo: false,
                        }),
                        accessed: 0,
                        created: 0,
                        modified: 0,
                        len: 0,
                    }),
                ),
{
    assert(names(children@) =~= order);
    lemma_overlaid(base.data@, prefix@, order, listing.data@)
}

/// Putting a listing below a prefix keeps the number of its entries, their order
/// and their metadata, and puts the path of each below the prefix.
pub proof fn law_rebase_entries(entries: &mut ReadDir, prefix: &[u8])
    requires
        call_ensures(rebase_entries, (entries, prefix), ()),
    ensures
        final(entries).data@.len() == old(entries).data@.len(),
        forall|i: int|
            #![trigger final(entries).data@[i]]
            0 <= i < old(entries).data@.len() ==> final(entries).data@[i].path@ == rebased_path(
                old(entries).data@[i].path@,
                prefix@,
            ) && final(entries).data@[i].metadata == old(entries).data@[i].metadata,
{
    let before = old(entries)@;
    let after = final(entries)@;
    assert(after == rebased_all(before, prefix@));
    assert(after.len() == final(entries).data@.len());
    assert forall|i: int|
        #![trigger final(entries).data@[i]]
        0 <= i < old(entries).data@.len() implies final(entries).data@[i].path@ == rebased_path(
        old(entries).data@[i].path@,
        prefix@,
    ) && final(entries).data@[i].metadata == old(entries).data@[i].metadata by {
        assert(after[i] == final(entries).data@[i]@);
        assert(before[i] == old(entries).data@[i]@);
    }
}

/// The listing of a place where a filesystem is mounted. It is asked for its root,
/// and an error is passed on. What it lists comes first, in its order and with its
/// metadata, put below the path, where exactly those entries are missing whose name
/// is that of a node right below. Then each of the nodes right below follows once,
/// as a directory.
pub proof fn law_read_dir_of_mount<F: FileSystem + ?Sized>(
    tree: &MountFileSystem<F>,
    path: &[u8],
    result: Result<ReadDir, FsError>,
) -> (found: (Result<ReadDir, FsError>, Seq<int>, Seq<Name>))
    requires
        call_ensures(<MountFileSystem<F> as FileSystem>::read_dir, (tree, path), result),
        tree@.mounts.contains_key(route_of(path@)),
    ensures
        ({
            let route = route_of(path@);
            let (reply, kept, order) = found;
            &&& exists|asked: &[u8]|
                asked@ == seq![0x2fu8] && #[trigger] call_ensures(
                    F::read_dir,
                    (&*tree@.mounts[route], asked),
                    reply,
                )
            &&& reply matches Err(error) ==> result == Err::<ReadDir, FsError>(error)
            &&& reply is Ok ==> result is Ok
            &&& reply is Ok ==> {
                let base = reply->Ok_0.data@;
                let listing = result->Ok_0.data@;
                &&& order.no_duplicates()
                &&& forall|name: Name| #[trigger]
                    order.contains(name) <==> tree@.nodes.contains(route.push(name))
                &&& forall|i: int, j: int|
                    #![trigger kept[i], kept[j]]
                    0 <= i < j < kept.len() ==> kept[i] < kept[j]
                &&& forall|k: int|
                    0 <= k < kept.len() ==> 0 <= #[trigger] kept[k] < base.len()
                &&& forall|i: int|
                    #![trigger base[i]]
                    0 <= i < base.len() ==> (kept.contains(i) <==> match file_name_of(
                        rebased_path(base[i].path@, absolute(route)),
                    ) {
                        Some(name) => !tree@.nodes.contains(route.push(name)),
                        None => true,
                    })
                &&& listing.len() == kept.len() + order.len()
                &&& forall|k: int|
                    #![trigger listing[k]]
                    0 <= k < kept.len() ==> listing[k].path@ == rebased_path(
                        base[kept[k]].path@,
                        absolute(route),
                    ) && listing[k].metadata == base[kept[k]].metadata
                &&& forall|k: int|
                    #![trigger order[k]]
                    0 <= k < order.len() ==> listing[kept.len() + k].path@ == joined(absolute(route), order[k])
                        && listing[kept.len() + k].metadata == Ok::<Metadata, FsError>(
                            (Metadata {
                                ft: (FileType {
                                    dir: true,
                                    file: false,
                                    symlink: false,
                                    char_device: false,
                                    block_device: false,
                                    socket: false,
                                    fifo: false,
                                }),
                                accessed: 0,
                                created: 0,
                                modified: 0,
                                len: 0,
                            }),
                        )
            }
        }),
{
    let route = route_of(path@);
    let prefix = absolute(route);
    let fs = tree@.mounts[route];
    let children = tree@.child_names(route);
    let reply = choose|reply: Result<ReadDir, FsError>| #[trigger]
        read_dir_reply(&*fs, root_path(), reply) && match reply {
            Ok(base) => result is Ok && lists_node(result->Ok_0@, base@, prefix, children),
            Err(error) => result == Err::<ReadDir, FsError>(error),
        };
    assert(read_dir_reply(&*fs, root_path(), reply));
    if reply is Ok {
        let base = reply->Ok_0;
        let listing = result->Ok_0;
        let order = choose|order: Seq<Name>|
            order.no_duplicates() && order.to_set() == children && listing@
                == #[trigger] overlaid(base@, prefix, order);
        let kept = lemma_overlaid(base.data@, prefix, order, listing.data@);
        assert forall|name: Name| #[trigger] order.contains(name) == tree@.nodes.contains(
            route.push(name),
        ) by {
            assert(order.to_set().contains(name) == children.contains(name));
        }
        (reply, kept, order)
    } else {
        (reply, Seq::empty(), Seq::empty())
    }
}

/// Where a filesystem is mounted and there are no nodes below, the listing is what it
/// lists: nothing is missing, nothing is added, and all is in its order.
pub proof fn law_read_dir_without_children<F: FileSystem + ?Sized>(
    tree: &MountFileSystem<F>,
    path: &[u8],
    result: Result<ReadDir, FsError>,
) -> (reply: Result<ReadDir, FsError>)
    requires
        call_ensures(<MountFileSystem<F> as FileSystem>::read_dir, (tree, path), result),
        tree@.mounts.contains_key(route_of(path@)),
        forall|name: Name| !tree@.nodes.contains(#[trigger] route_of(path@).push(name)),
    ensures
        exists|asked: &[u8]|
            asked@ == seq![0x2fu8] && #[trigger] call_ensures(
                F::read_dir,
                (&*tree@.mounts[route_of(path@)], asked),
                reply,
            ),
        reply matches Err(error) ==> result == Err::<ReadDir, FsError>(error),
        reply is Ok ==> result is Ok,
        reply is Ok ==> {
            let base = reply->Ok_0.data@;
            let listing = result->Ok_0.data@;
            &&& listing.len() == base.len()
            &&& forall|i: int|
                #![trigger listing[i]]
                0 <= i < base.len() ==> listing[i].path@ == rebased_path(
                    base[i].path@,
                    absolute(route_of(path@)),
                ) && listing[i].metadata == base[i].metadata
        },
{
    let route = route_of(path@);
    let (reply, kept, order) = law_read_dir_of_mount(tree, path, result);
    if reply is Ok {
        let base = reply->Ok_0.data@;
        assert forall|i: int| 0 <= i < base.len() implies kept.contains(i) by {
            let shown = file_name_of(rebased_path(base[i].path@, absolute(route)));
            if let Some(name) = shown {
                assert(!tree@.nodes.contains(route.push(name)));
            }
        }
        lemma_none_left_out(kept, base.len() as int);
        if order.len() > 0 {
            assert(order.contains(order[0]));
            assert(!tree@.nodes.contains(route.push(order[0])));
        }
    }
    reply
}

/// The listing of a node without a mount: each of the nodes right below once, as a
/// directory.
pub proof fn law_read_dir_of_branch<F: FileSystem + ?Sized>(
    tree: &MountFileSystem<F>,
    path: &[u8],
    result: Result<ReadDir, FsError>,
) -> (order: Seq<Name>)
    requires
        call_ensures(<MountFileSystem<F> as FileSystem>::read_dir, (tree, path), result),
        !tree@.mounts.contains_key(route_of(path@)),
        tree@.nodes.contains(route_of(path@)),
    ensures
        ({
            let route = route_of(path@);
            let listing = result->Ok_0.data@;
            &&& result is Ok
            &&& order.no_duplicates()
            &&& forall|name: Name| #[trigger]
                order.contains(name) <==> tree@.nodes.contains(route.push(name))
            &&& listing.len() == order.len()
            &&& forall|k: int|
                #![trigger order[k]]
                0 <= k < order.len() ==> listing[k].path@ == joined(absolute(route), order[k])
                    && listing[k].metadata == Ok::<Metadata, FsError>(
                        (Metadata {
                            ft: (FileType {
                                dir: true,
                                file: false,
                                symlink: false,
                                char_device: false,
                                block_device: false,
                                socket: false,
                                fifo: false,
                            }),
                            accessed: 0,
                            created: 0,
                            modified: 0,
                            len: 0,
                        }),
                    )
        }),
{
    let route = route_of(path@);
    let prefix = absolute(route);
    let children = tree@.child_names(route);
    let listing = result->Ok_0;
    let nothing = Seq::<DirEntry>::empty();
    assert(entry_views(nothing) =~= Seq::empty());
    let order = choose|order: Seq<Name>|
        order.no_duplicates() && order.to_set() == children && listing@ == #[trigger] overlaid(
            Seq::empty(),
            prefix,
            order,
        );
    let kept = lemma_overlaid(nothing, prefix, order, listing.data@);
    if kept.len() > 0 {
        assert(0 <= kept[0] < nothing.len());
    }
    assert(kept.len() == 0);
    assert forall|k: int| #![trigger order[k]] 0 <= k < order.len() implies listing.data@[k]
        == listing.data@[kept.len() + k] by {
        assert(kept.len() + k == k);
    }
    assert forall|name: Name| #[trigger] order.contains(name) == tree@.nodes.contains(
        route.push(name),
    ) by {
        assert(order.to_set().contains(name) == children.contains(name));
    }
    order
}

/// The listing of a place inside a mount: the mounted filesystem is asked for what of
/// the path is behind the mount point, an error is passed on, and of what it lists
/// all is kept, in its order and with its metadata, and put below the path.
/// Everywhere else nothing is found.
pub proof fn law_read_dir_inside<F: FileSystem + ?Sized>(
    tree: &MountFileSystem<F>,
    path: &[u8],
    point: Route,
    result: Result<ReadDir, FsError>,
)
    requires
        call_ensures(<MountFileSystem<F> as FileSystem>::read_dir, (tree, path), result),
        !tree@.mounts.contains_key(route_of(path@)),
        !tree@.nodes.contains(route_of(path@)),
    ensures
        ({
            let route = route_of(path@);
            &&& point.is_prefix_of(route) && tree@.mounts.contains_key(point) && (forall|k: int|
                point.len() < k <= route.len() ==> !tree@.mounts.contains_key(
                    #[trigger] route.take(k),
                )) ==> exists|asked: &[u8], reply: Result<ReadDir, FsError>|
                asked@ == absolute(route.skip(point.len() as int)) && #[trigger] call_ensures(
                    F::read_dir,
                    (&*tree@.mounts[point], asked),
                    reply,
                ) && (match reply {
                    Err(error) => result == Err::<ReadDir, FsError>(error),
                    Ok(base) => {
                        &&& result is Ok
                        &&& result->Ok_0.data@.len() == base.data@.len()
                        &&& forall|i: int|
                            #![trigger base.data@[i]]
                            0 <= i < base.data@.len() ==> result->Ok_0.data@[i].path@
                                == rebased_path(base.data@[i].path@, absolute(route))
                                && result->Ok_0.data@[i].metadata == base.data@[i].metadata
                    },
                })
            &&& (forall|k: int|
                0 <= k <= route.len() ==> !tree@.mounts.contains_key(#[trigger] route.take(k)))
                ==> result == Err::<ReadDir, FsError>(FsError::EntryNotFound)
        }),
{
    let route = route_of(path@);
    let prefix = absolute(route);
    law_mount_point_is_deepest(tree@, route, point);
    if tree@.mount_point(route) == Some(point) {
        let fs = tree@.mounts[point];
        let rest = absolute(route.skip(point.len() as int));
        let reply = choose|reply: Result<ReadDir, FsError>| #[trigger]
            read_dir_reply(&*fs, rest, reply) && match reply {
                Ok(base) => result is Ok && result->Ok_0@ == rebased_all(base@, prefix),
                Err(error) => result == Err::<ReadDir, FsError>(error),
            };
        assert(read_dir_reply(&*fs, rest, reply));
        if reply is Ok {
            let base = reply->Ok_0;
            let listing = result->Ok_0;
            assert(listing@.len() == listing.data@.len());
            assert forall|i: int|
                #![trigger base.data@[i]]
                0 <= i < base.data@.len() implies listing.data@[i].path@ == rebased_path(
                base.data@[i].path@,
                prefix,
            ) && listing.data@[i].metadata == base.data@[i].metadata by {
                assert(base@[i] == base.data@[i]@);
                assert(listing@[i] == listing.data@[i]@);
            }
        }
    }
}

/// The metadata of a node without a mount is that of a directory of length 0 without
/// times.
pub proof fn law_directory_metadata(metadata: Metadata)
    requires
        call_ensures(directory_metadata, (), metadata),
    ensures
        Ok::<Metadata, FsError>(metadata) == Ok::<Metadata, FsError>(
            (Metadata {
                ft: (FileType {
                    dir: true,
                    file: false,
                    symlink: false,
                    char_device: false,
                    block_device: false,
                    socket: false,
                    fifo: false,
                }),
                accessed: 0,
                created: 0,
                modified: 0,
                len: 0,
            }),
        ),
{
}

/// Options that nothing has been set of ask for nothing: with them the mounted
/// filesystem is asked to open a file as with any others, and told just that.
pub proof fn law_new_open_options<'a, F: FileSystem + ?Sized>(
    tree: &'a MountFileSystem<F>,
    options: OpenOptions<'a, F>,
    path: &[u8],
    point: Route,
    result: Result<F::File, FsError>,
)
    requires
        call_ensures(MountFileSystem::<F>::new_open_options, (tree,), options),
        call_ensures(OpenOptions::<'a, F>::open, (&options, path), result),
        point.is_prefix_of(route_of(path@)),
        tree@.mounts.contains_key(point),
        forall|k: int|
            point.len() < k <= route_of(path@).len() ==> !tree@.mounts.contains_key(
                #[trigger] route_of(path@).take(k),
            ),
        !tree@.nodes.contains(route_of(path@)),
    ensures
        exists|asked: &[u8], conf: &OpenOptionsConfig|
            asked@ == absolute(route_of(path@).skip(point.len() as int)) && #[trigger] call_ensures(
                F::open,
                (&*tree@.mounts[point], asked, conf),
                result,
            ) && !conf.read && !conf.write && !conf.create_new && !conf.create && !conf.append
                && !conf.truncate,
{
    law_mount_point_is_deepest(tree@, route_of(path@), point);
}

/// Options that are set at once are what the mounted filesystem is asked with.
pub proof fn law_open_options_set<'a, F: FileSystem + ?Sized>(
    tree: &'a MountFileSystem<F>,
    fresh: OpenOptions<'a, F>,
    options: &mut OpenOptions<'a, F>,
    conf: OpenOptionsConfig,
    set: &mut OpenOptions<'a, F>,
    path: &[u8],
    point: Route,
    result: Result<F::File, FsError>,
)
    requires
        call_ensures(OpenOptions::<'a, F>::new, (tree,), fresh),
        *old(options) == fresh,
        call_ensures(OpenOptions::<'a, F>::options, (options, conf), set),
        call_ensures(OpenOptions::<'a, F>::open, (&*old(set), path), result),
        point.is_prefix_of(route_of(path@)),
        tree@.mounts.contains_key(point),
        forall|k: int|
            point.len() < k <= route_of(path@).len() ==> !tree@.mounts.contains_key(
                #[trigger] route_of(path@).take(k),
            ),
        !tree@.nodes.contains(route_of(path@)),
    ensures
        exists|asked: &[u8], given: &OpenOptionsConfig|
            asked@ == absolute(route_of(path@).skip(point.len() as int)) && #[trigger] call_ensures(
                F::open,
                (&*tree@.mounts[point], asked, given),
                result,
            ) && given.read == conf.read && given.write == conf.write && given.create_new == conf.create_new
                && given.create == conf.create && given.append == conf.append && given.truncate
                == conf.truncate,
{
    law_mount_point_is_deepest(tree@, route_of(path@), point);
}

/// Setting whether the file is to be read changes that option, and no other, of
/// those that the mounted filesystem is asked with.
pub proof fn law_open_options_read<'a, F: FileSystem + ?Sized>(
    tree: &'a MountFileSystem<F>,
    fresh: OpenOptions<'a, F>,
    options: &mut OpenOptions<'a, F>,
    conf: OpenOptionsConfig,
    set: &mut OpenOptions<'a, F>,
    again: &mut OpenOptions<'a, F>,
    read: bool,
    changed: &mut OpenOptions<'a, F>,
    path: &[u8],
    point: Route,
    result: Result<F::File, FsError>,
)
    requires
        call_ensures(OpenOptions::<'a, F>::new, (tree,), fresh),
        *old(options) == fresh,
        call_ensures(OpenOptions::<'a, F>::options, (options, conf), set),
        *old(again) == *old(set),
        call_ensures(OpenOptions::<'a, F>::read, (again, read), changed),
        call_ensures(OpenOptions::<'a, F>::open, (&*old(changed), path), result),
        point.is_prefix_of(route_of(path@)),
        tree@.mounts.contains_key(point),
        forall|k: int|
            point.len() < k <= route_of(path@).len() ==> !tree@.mounts.contains_key(
                #[trigger] route_of(path@).take(k),
            ),
        !tree@.nodes.contains(route_of(path@)),
    ensures
        exists|asked: &[u8], given: &OpenOptionsConfig|
            asked@ == absolute(route_of(path@).skip(point.len() as int)) && #[trigger] call_ensures(
                F::open,
                (&*tree@.mounts[point], asked, given),
                result,
            ) && given.read == read && given.write == conf.write && given.create_new == conf.create_new
                && given.create == conf.create && given.append == conf.append && given.truncate
                == conf.truncate,
{
    law_mount_point_is_deepest(tree@, route_of(path@), point);
}

/// Setting whether the file is to be written changes that option, and no other, of
/// those that the mounted filesystem is asked with.
pub proof fn law_open_options_write<'a, F: FileSystem + ?Sized>(
    tree: &'a MountFileSystem<F>,
    fresh: OpenOptions<'a, F>,
    options: &mut OpenOptions<'a, F>,
    conf: OpenOptionsConfig,
    set: &mut OpenOptions<'a, F>,
    again: &mut OpenOptions<'a, F>,
    write: bool,
    changed: &mut OpenOptions<'a, F>,
    path: &[u8],
    point: Route,
    result: Result<F::File, FsError>,
)
    requires
        call_ensures(OpenOptions::<'a, F>::new, (tree,), fresh),
        *old(options) == fresh,
        call_ensures(OpenOptions::<'a, F>::options, (options, conf), set),
        *old(again) == *old(set),
        call_ensures(OpenOptions::<'a, F>::write, (again, write), changed),
        call_ensures(OpenOptions::<'a, F>::open, (&*old(changed), path), result),
        point.is_prefix_of(route_of(path@)),
        tree@.mounts.contains_key(point),
        forall|k: int|
            point.len() < k <= route_of(path@).len() ==> !tree@.mounts.contains_key(
                #[trigger] route_of(path@).take(k),
            ),
        !tree@.nodes.contains(route_of(path@)),
    ensures
        exists|asked: &[u8], given: &OpenOptionsConfig|
            asked@ == absolute(route_of(path@).skip(point.len() as int)) && #[trigger] call_ensures(
                F::open,
                (&*tree@.mounts[point], asked, given),
                result,
            ) && given.read == conf.read && given.write == write && given.create_new == conf.create_new
                && given.create == conf.create && given.append == conf.append && given.truncate
                == conf.truncate,
{
    law_mount_point_is_deepest(tree@, route_of(path@), point);
}

/// Setting whether the file is to be created changes that option, and no other, of
/// those that the mounted filesystem is asked with.
pub proof fn law_open_options_create_new<'a, F: FileSystem + ?Sized>(
    tree: &'a MountFileSystem<F>,
    fresh: OpenOptions<'a, F>,
    options: &mut OpenOptions<'a, F>,
    conf: OpenOptionsConfig,
    set: &mut OpenOptions<'a, F>,
    again: &mut OpenOptions<'a, F>,
    create_new: bool,
    changed: &mut OpenOptions<'a, F>,
    path: &[u8],
    point: Route,
    result: Result<F::File, FsError>,
)
    requires
        call_ensures(OpenOptions::<'a, F>::new, (tree,), fresh),
        *old(options) == fresh,
        call_ensures(OpenOptions::<'a, F>::options, (options, conf), set),
        *old(again) == *old(set),
        call_ensures(OpenOptions::<'a, F>::create_new, (again, create_new), changed),
        call_ensures(OpenOptions::<'a, F>::open, (&*old(changed), path), result),
        point.is_prefix_of(route_of(path@)),
        tree@.mounts.contains_key(point),
        forall|k: int|
            point.len() < k <= route_of(path@).len() ==> !tree@.mounts.contains_key(
                #[trigger] route_of(path@).take(k),
            ),
        !tree@.nodes.contains(route_of(path@)),
    ensures
        exists|asked: &[u8], given: &OpenOptionsConfig|
            asked@ == absolute(route_of(path@).skip(point.len() as int)) && #[trigger] call_ensures(
                F::open,
                (&*tree@.mounts[point], asked, given),
                result,
            ) && given.read == conf.read && given.write == conf.write && given.create_new == create_new
                && given.create == conf.create && given.append == conf.append && given.truncate
                == conf.truncate,
{
    law_mount_point_is_deepest(tree@, route_of(path@), point);
}

/// The reference that setting an option gives back is to the options themselves:
/// what is done with it is done with them.
pub proof fn law_open_options_chain<'a, F: FileSystem + ?Sized>(
    options: &mut OpenOptions<'a, F>,
    conf: OpenOptionsConfig,
    set: &mut OpenOptions<'a, F>,
    flag: bool,
    reading: &mut OpenOptions<'a, F>,
    writing: &mut OpenOptions<'a, F>,
    creating: &mut OpenOptions<'a, F>,
)
    ensures
        call_ensures(OpenOptions::<'a, F>::options, (options, conf), set) ==> *final(options)
            == *final(set),
        call_ensures(OpenOptions::<'a, F>::read, (options, flag), reading) ==> *final(options)
            == *final(reading),
        call_ensures(OpenOptions::<'a, F>::write, (options, flag), writing) ==> *final(options)
            == *final(writing),
        call_ensures(OpenOptions::<'a, F>::create_new, (options, flag), creating) ==> *final(options)
            == *final(creating),
{
}

/// What a file type says of directories and files is what metadata says of an entry,
/// and a listing is made of the entries that it is given.
pub proof fn law_entry_kinds(
    file_type: &FileType,
    metadata: &Metadata,
    dir: bool,
    file: bool,
    entry_dir: bool,
    entry_file: bool,
    data: Vec<DirEntry>,
    listing: ReadDir,
)
    requires
        call_ensures(FileType::is_dir, (file_type,), dir),
        call_ensures(FileType::is_file, (file_type,), file),
        call_ensures(Metadata::is_dir, (metadata,), entry_dir),
        call_ensures(Metadata::is_file, (metadata,), entry_file),
        call_ensures(ReadDir::new, (data,), listing),
    ensures
        dir == file_type.dir,
        file == file_type.file,
        entry_dir == metadata.ft.dir,
        entry_file == metadata.ft.file,
        listing.data == data,
{
}

} // verus!
