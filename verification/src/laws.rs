//! What holds of the mount tree, whatever is done with it.

use std::sync::Arc;

use vstd::prelude::*;

use crate::fs::{branch_metadata, DirEntryView, FsError};
use crate::listing::{
    child_entries, child_entry, lists_node, overlaid, rebased_all, rebased_path, shadowed,
    unshadowed,
};
use crate::model::{below, MountTree, Place, UnionMergeMode};
use crate::operations::rename_point;
use crate::path::{absolute, file_name_of, is_name, route_of, route_valid, Name, Route};
use crate::path_laws::{
    law_absolute_round_trip, law_child_entry, law_delegated_path, law_rebased_entry,
};

verus! {

/// The deepest mount on the way splits a path: what leads to the mount point and
/// what the path goes through in the filesystem that is mounted there are,
/// together, what the path goes through.
pub proof fn law_resolve_splits_path<F: ?Sized>(tree: MountTree<F>, path: Seq<u8>)
    ensures
        match tree.mount_point(route_of(path)) {
            Some(point) => point + route_of(absolute(route_of(path).skip(point.len() as int)))
                == route_of(path),
            None => true,
        },
{
    tree.lemma_mount_point_is_deepest(route_of(path));
    if let Some(point) = tree.mount_point(route_of(path)) {
        law_delegated_path(path, point.len() as int);
        assert(point + route_of(path).skip(point.len() as int) =~= route_of(path));
    }
}

/// Without mounts there is a root, a directory without a mount, and no filesystem
/// reaches anywhere.
pub proof fn law_empty_tree<F: ?Sized>(route: Route)
    ensures
        MountTree::<F>::empty().mount_point(route) is None,
        MountTree::<F>::empty().place(route) == (if route.len() == 0 {
            Place::<F>::Branch
        } else {
            Place::<F>::Nowhere
        }),
    decreases route.len(),
{
    if route.len() > 0 {
        law_empty_tree::<F>(route.drop_last());
    } else {
        assert(route =~= Seq::empty());
    }
}

/// The listing of the root of a tree without mounts is empty.
pub proof fn law_empty_tree_lists_nothing<F: ?Sized>(
    prefix: Seq<u8>,
    listing: Seq<DirEntryView>,
)
    requires
        lists_node(
            listing,
            Seq::empty(),
            prefix,
            MountTree::<F>::empty().child_names(Seq::empty()),
        ),
    ensures
        listing == Seq::<DirEntryView>::empty(),
{
    let children = MountTree::<F>::empty().child_names(Seq::empty());
    let nothing = Seq::<DirEntryView>::empty();
    let order = choose|order: Seq<Name>|
        order.no_duplicates() && order.to_set() == children && listing == #[trigger] overlaid(
            nothing,
            prefix,
            order,
        );
    if order.len() > 0 {
        assert(order.to_set().contains(order[0]));
        assert(Seq::<Name>::empty().push(order[0]).len() == 1);
    }
    reveal(Seq::filter);
    assert(rebased_all(nothing, prefix) =~= nothing);
    assert(unshadowed(nothing, order.to_set()) =~= nothing);
    assert(listing =~= nothing);
}

/// There is a node exactly at the root and on the way to the mounts, the mount
/// points among them.
pub proof fn law_nodes_lead_to_mounts<F: ?Sized>(tree: MountTree<F>, route: Route)
    requires
        tree.wf(),
        tree.no_dead_ends(),
    ensures
        tree.nodes.contains(route) <==> route.len() == 0 || tree.leads_to_mount(route),
{
    if route.len() == 0 {
        assert(route =~= Seq::empty());
    } else if tree.leads_to_mount(route) {
        let point = choose|point: Route| #[trigger]
            tree.mounts.contains_key(point) && route.is_prefix_of(point);
        assert(route =~= point.take(route.len() as int));
        assert(tree.nodes.contains(point.take(route.len() as int)));
    }
}

/// After a mount, every path below the mount point resolves there, unless there
/// is a mount deeper on the way; every other path resolves as before.
pub proof fn law_mount_then_resolve<F: ?Sized>(
    tree: MountTree<F>,
    point: Route,
    fs: Arc<F>,
    route: Route,
)
    ensures
        tree.mounted(point, fs).mounts[point] == fs,
        tree.mounted(point, fs).mount_point(route) == (match tree.mount_point(route) {
            Some(other) => if point.is_prefix_of(route) && other.len() <= point.len() {
                Some(point)
            } else {
                Some(other)
            },
            None => if point.is_prefix_of(route) {
                Some(point)
            } else {
                None
            },
        }),
    decreases route.len(),
{
    let after = tree.mounted(point, fs);
    tree.lemma_mount_point_is_deepest(route);
    if route == point {
        assert(point.is_prefix_of(route));
    } else if tree.mounts.contains_key(route) {
        assert(after.mounts.contains_key(route));
        if point.is_prefix_of(route) && route.len() <= point.len() {
            assert(point =~= route);
        }
    } else {
        assert(!after.mounts.contains_key(route));
        if route.len() > 0 {
            let shorter = route.drop_last();
            law_mount_then_resolve(tree, point, fs, shorter);
            assert(point.is_prefix_of(route) == point.is_prefix_of(shorter)) by {
                if point.is_prefix_of(route) {
                    if point.len() == route.len() {
                        assert(point =~= route);
                    }
                    assert(point =~= shorter.subrange(0, point.len() as int));
                }
                if point.is_prefix_of(shorter) {
                    assert(point =~= route.subrange(0, point.len() as int));
                }
            }
        } else if point.is_prefix_of(route) {
            assert(point =~= route);
        }
    }
}

/// What a mount changes of the places of the tree: the mount point, the places
/// that lead there, and those below that no deeper mount reaches.
pub proof fn law_mount_then_place<F: ?Sized>(
    tree: MountTree<F>,
    point: Route,
    fs: Arc<F>,
    route: Route,
)
    requires
        tree.wf(),
        !tree.mounts.contains_key(point),
    ensures
        tree.mounted(point, fs).place(route) == (if route == point {
            Place::Mount(fs)
        } else if tree.nodes.contains(route) {
            tree.place(route)
        } else if route.is_prefix_of(point) {
            Place::Branch
        } else if point.is_prefix_of(route) && (tree.mount_point(route) matches Some(
            other,
        ) ==> other.len() < point.len()) {
            Place::Inside { fs, rest: route.skip(point.len() as int) }
        } else {
            tree.place(route)
        }),
{
    law_mount_then_resolve(tree, point, fs, route);
    tree.lemma_mount_point_is_deepest(route);
    if let Some(other) = tree.mount_point(route) {
        if point.is_prefix_of(route) && other.len() == point.len() {
            assert(other =~= point);
        }
    }
}

/// A mount leaves the tree well-formed.
pub proof fn law_mounted_wf<F: ?Sized>(tree: MountTree<F>, point: Route, fs: Arc<F>)
    requires
        tree.wf(),
        route_valid(point),
    ensures
        tree.mounted(point, fs).wf(),
{
    let after = tree.mounted(point, fs);
    assert forall|route: Route| #[trigger] after.nodes.contains(route) implies route_valid(
        route,
    ) by {
        if route.is_prefix_of(point) {
            assert forall|i: int| 0 <= i < route.len() implies is_name(#[trigger] route[i]) by {
                assert(is_name(point[i]));
            }
        }
    }
    assert forall|route: Route, k: int|
        #![trigger after.nodes.contains(route.take(k))]
        after.nodes.contains(route) && 0 <= k <= route.len() implies after.nodes.contains(
        route.take(k),
    ) by {
        if tree.nodes.contains(route) {
            assert(tree.nodes.contains(route.take(k)));
        } else {
            assert(route.take(k) =~= point.subrange(0, k));
            assert(route.take(k).is_prefix_of(point));
        }
    }
    assert(point.is_prefix_of(point)) by {
        assert(point =~= point.subrange(0, point.len() as int));
    }
}

/// The order in which two filesystems are mounted at different places does not
/// matter.
pub proof fn law_mounts_commute<F: ?Sized>(
    tree: MountTree<F>,
    first: Route,
    fs: Arc<F>,
    second: Route,
    other: Arc<F>,
)
    requires
        first != second,
    ensures
        tree.mounted(first, fs).mounted(second, other) == tree.mounted(second, other).mounted(
            first,
            fs,
        ),
{
    let one = tree.mounted(first, fs).mounted(second, other);
    let two = tree.mounted(second, other).mounted(first, fs);
    assert(one.nodes =~= two.nodes);
    assert(one.mounts =~= two.mounts);
}

/// Every branch but the root has children, so that none of them can be removed
/// or renamed.
pub proof fn law_branch_has_children<F: ?Sized>(tree: MountTree<F>, route: Route)
    requires
        tree.wf(),
        tree.no_dead_ends(),
        route.len() > 0,
        tree.place(route) is Branch,
    ensures
        !tree.child_names(route).is_empty(),
{
    assert(tree.leads_to_mount(route));
    let point = choose|point: Route| #[trigger]
        tree.mounts.contains_key(point) && route.is_prefix_of(point);
    if point.len() == route.len() {
        assert(point =~= route);
    }
    let name = point[route.len() as int];
    let child = point.take(route.len() as int + 1);
    assert(child =~= route.push(name));
    assert(tree.nodes.contains(child));
    assert(tree.child_names(route).contains(name));
}

/// In a merged tree a path resolves to the deeper of the places to which it
/// resolves in the two trees.
pub proof fn law_merge_then_resolve<F: ?Sized>(
    tree: MountTree<F>,
    incoming: MountTree<F>,
    mode: UnionMergeMode,
    route: Route,
)
    ensures
        tree.merged(incoming, mode).mount_point(route) == (match (
            tree.mount_point(route),
            incoming.mount_point(route),
        ) {
            (Some(here), Some(there)) => if here.len() < there.len() {
                Some(there)
            } else {
                Some(here)
            },
            (Some(here), None) => Some(here),
            (None, there) => there,
        }),
    decreases route.len(),
{
    let after = tree.merged(incoming, mode);
    tree.lemma_mount_point_is_deepest(route);
    incoming.lemma_mount_point_is_deepest(route);
    assert(after.mounts.contains_key(route) == (tree.mounts.contains_key(route)
        || incoming.mounts.contains_key(route)));
    if after.mounts.contains_key(route) {
        if let Some(here) = tree.mount_point(route) {
            if here.len() == route.len() {
                assert(here =~= route);
            }
        }
    } else if route.len() > 0 {
        law_merge_then_resolve(tree, incoming, mode, route.drop_last());
    }
}

/// What is mounted in a merged tree: where only one of the two trees has a
/// mount, that one; where both have, the incoming one in the mode `Replace` and
/// the existing one otherwise.
pub proof fn law_merge_takes_sides<F: ?Sized>(
    tree: MountTree<F>,
    incoming: MountTree<F>,
    mode: UnionMergeMode,
    route: Route,
)
    requires
        tree.mounts.contains_key(route) || incoming.mounts.contains_key(route),
    ensures
        tree.merged(incoming, mode).mounts.contains_key(route),
        tree.merged(incoming, mode).mounts[route] == (if !incoming.mounts.contains_key(route) {
            tree.mounts[route]
        } else if !tree.mounts.contains_key(route) || mode is Replace {
            incoming.mounts[route]
        } else {
            tree.mounts[route]
        }),
{
}

/// Without conflicts the mode does not matter.
pub proof fn law_merge_without_conflict<F: ?Sized>(
    tree: MountTree<F>,
    incoming: MountTree<F>,
    mode: UnionMergeMode,
    other: UnionMergeMode,
)
    requires
        !tree.conflicts(incoming),
    ensures
        tree.merged(incoming, mode) == tree.merged(incoming, other),
{
    assert forall|route: Route|
        !(tree.mounts.contains_key(route) && #[trigger] incoming.mounts.contains_key(route)) by {
        assert(Set::<Route>::full().contains(route));
    }
    assert(tree.merged(incoming, mode).mounts =~= tree.merged(incoming, other).mounts);
}

/// Replacing by what comes in is the same as keeping what is there, with the two
/// trees exchanged.
pub proof fn law_replace_is_skip_exchanged<F: ?Sized>(
    tree: MountTree<F>,
    incoming: MountTree<F>,
)
    ensures
        tree.merged(incoming, UnionMergeMode::Replace) == incoming.merged(
            tree,
            UnionMergeMode::Skip,
        ),
{
    let one = tree.merged(incoming, UnionMergeMode::Replace);
    let two = incoming.merged(tree, UnionMergeMode::Skip);
    assert(one.nodes =~= two.nodes);
    assert(one.mounts =~= two.mounts);
}

/// Merging the same tree once more changes nothing.
pub proof fn law_merge_again<F: ?Sized>(
    tree: MountTree<F>,
    incoming: MountTree<F>,
    mode: UnionMergeMode,
)
    ensures
        tree.merged(incoming, mode).merged(incoming, mode) == tree.merged(incoming, mode),
{
    let once = tree.merged(incoming, mode);
    let twice = once.merged(incoming, mode);
    assert(twice.nodes =~= once.nodes);
    assert(twice.mounts =~= once.mounts);
}

/// Merging a tree without mounts changes nothing, and merging into one gives the
/// incoming tree.
pub proof fn law_merge_with_empty<F: ?Sized>(tree: MountTree<F>, mode: UnionMergeMode)
    requires
        tree.wf(),
    ensures
        tree.merged(MountTree::empty(), mode) == tree,
        MountTree::empty().merged(tree, mode) == tree,
{
    let one = tree.merged(MountTree::empty(), mode);
    let two = MountTree::<F>::empty().merged(tree, mode);
    assert(one.nodes =~= tree.nodes);
    assert(one.mounts =~= tree.mounts);
    assert(two.nodes =~= tree.nodes);
    assert(two.mounts =~= tree.mounts);
}

/// Merging three trees, it does not matter which two are merged first.
pub proof fn law_merge_associates<F: ?Sized>(
    a: MountTree<F>,
    b: MountTree<F>,
    c: MountTree<F>,
    mode: UnionMergeMode,
)
    ensures
        a.merged(b, mode).merged(c, mode) == a.merged(b.merged(c, mode), mode),
{
    let one = a.merged(b, mode).merged(c, mode);
    let two = a.merged(b.merged(c, mode), mode);
    assert(one.nodes =~= two.nodes);
    assert(one.mounts =~= two.mounts);
}

/// A merge leaves the tree well-formed.
pub proof fn law_merged_wf<F: ?Sized>(
    tree: MountTree<F>,
    incoming: MountTree<F>,
    mode: UnionMergeMode,
)
    requires
        tree.wf(),
        incoming.wf(),
    ensures
        tree.merged(incoming, mode).wf(),
{
    let after = tree.merged(incoming, mode);
    assert forall|route: Route, k: int|
        #![trigger after.nodes.contains(route.take(k))]
        after.nodes.contains(route) && 0 <= k <= route.len() implies after.nodes.contains(
        route.take(k),
    ) by {
        if tree.nodes.contains(route) {
            assert(tree.nodes.contains(route.take(k)));
        } else {
            assert(incoming.nodes.contains(route.take(k)));
        }
    }
}

/// A merge that a conflict ended has lost nothing: every node and mount is still
/// there, and what is new comes from the incoming tree. A conflict at the root
/// ends it before anything is changed.
pub proof fn law_interrupted_merge_keeps<F: ?Sized>(
    tree: MountTree<F>,
    incoming: MountTree<F>,
    after: MountTree<F>,
)
    requires
        tree.interrupted(incoming, Seq::empty(), after),
    ensures
        tree.nodes.subset_of(after.nodes),
        after.nodes.subset_of(tree.nodes.union(incoming.nodes)),
        forall|route: Route| #[trigger]
            tree.mounts.contains_key(route) ==> after.mounts.contains_key(route)
                && after.mounts[route] == tree.mounts[route],
        forall|route: Route| #[trigger]
            after.mounts.contains_key(route) && !tree.mounts.contains_key(route)
                ==> incoming.mounts.contains_key(route) && after.mounts[route]
                == incoming.mounts[route],
        tree.mounts.contains_key(Seq::empty()) && incoming.mounts.contains_key(Seq::empty())
            ==> after == tree,
{
    let root = Seq::<Name>::empty();
    let (conflict, places) = choose|conflict: Route, places: Set<Route>| #[trigger]
        tree.interrupted_at(incoming, root, conflict, places, after);
    if tree.mounts.contains_key(root) && incoming.mounts.contains_key(root) {
        assert(!places.contains(root));
        if conflict.len() > 0 {
            assert(conflict.take(0) =~= root);
            assert(places.contains(conflict.take(0)));
        }
        assert(conflict =~= root);
        assert(places =~= Set::empty());
        assert(after.nodes =~= tree.nodes);
        assert(after.mounts =~= tree.mounts);
    }
}

/// A merge that a conflict ended has come as far as some conflict: both trees
/// have a mount there, and what the incoming tree has on the way there has been
/// merged.
pub proof fn law_interrupted_merge_reaches_conflict<F: ?Sized>(
    tree: MountTree<F>,
    incoming: MountTree<F>,
    base: Route,
    after: MountTree<F>,
) -> (conflict: Route)
    requires
        tree.interrupted(incoming, base, after),
    ensures
        base.is_prefix_of(conflict),
        tree.mounts.contains_key(conflict),
        incoming.mounts.contains_key(conflict),
        forall|k: int| #![trigger conflict.take(k)]
            base.len() <= k < conflict.len() ==> {
                let place = conflict.take(k);
                &&& incoming.nodes.contains(place) ==> after.nodes.contains(place)
                &&& incoming.mounts.contains_key(place) ==> !tree.mounts.contains_key(place)
                    && after.mounts.contains_key(place) && after.mounts[place]
                    == incoming.mounts[place]
            },
{
    let (conflict, places) = choose|conflict: Route, places: Set<Route>| #[trigger]
        tree.interrupted_at(incoming, base, conflict, places, after);
    conflict
}

/// Merging from the root down merges all of the incoming tree.
pub proof fn law_merge_of_the_whole<F: ?Sized>(
    tree: MountTree<F>,
    incoming: MountTree<F>,
    mode: UnionMergeMode,
    result: Result<(), FsError>,
    after: MountTree<F>,
)
    ensures
        tree.merge_ends(incoming, Seq::empty(), mode, result, after) <==> {
            &&& result is Err <==> mode is Fail && tree.conflicts(incoming)
            &&& match result {
                Ok(_) => after == tree.merged(incoming, mode),
                Err(error) => error == FsError::AlreadyExists && tree.interrupted(
                    incoming,
                    Seq::empty(),
                    after,
                ),
            }
        },
{
    let root = Seq::<Name>::empty();
    assert forall|route: Route| below(root).contains(route) by {
        assert(root =~= route.take(0));
    }
    assert(below(root) =~= Set::full());
    assert(incoming.restricted(below(root)) =~= incoming);
}

/// Where the two trees have no mount in common, a merge succeeds in every mode,
/// and adds the nodes and mounts of the incoming tree to those that are there.
pub proof fn law_merge_without_common_mount<F: ?Sized>(
    tree: MountTree<F>,
    incoming: MountTree<F>,
    base: Route,
    mode: UnionMergeMode,
    result: Result<(), FsError>,
    after: MountTree<F>,
)
    requires
        tree.mounts.dom().disjoint(incoming.restricted(below(base)).mounts.dom()),
        tree.merge_ends(incoming, base, mode, result, after),
    ensures
        result is Ok,
        after.nodes == tree.nodes.union(incoming.restricted(below(base)).nodes),
        after.mounts.dom() == tree.mounts.dom().union(
            incoming.restricted(below(base)).mounts.dom(),
        ),
        forall|route: Route| #[trigger]
            tree.mounts.contains_key(route) ==> after.mounts[route] == tree.mounts[route],
        forall|route: Route|
            below(base).contains(route) && #[trigger] incoming.mounts.contains_key(route)
                ==> after.mounts[route] == incoming.mounts[route],
{
    let part = incoming.restricted(below(base));
    assert forall|route: Route|
        below(base).contains(route) && #[trigger] incoming.mounts.contains_key(
            route,
        ) implies !tree.mounts.contains_key(route) by {
        assert(part.mounts.dom().contains(route));
    }
    assert(!tree.conflicts_within(incoming, below(base)));
    assert(after.mounts.dom() =~= tree.mounts.dom().union(part.mounts.dom()));
}

/// Merging a part without a mount and without a node that is not there already
/// succeeds in every mode, and changes nothing.
pub proof fn law_merge_of_nothing<F: ?Sized>(
    tree: MountTree<F>,
    incoming: MountTree<F>,
    base: Route,
    mode: UnionMergeMode,
    result: Result<(), FsError>,
    after: MountTree<F>,
)
    requires
        incoming.restricted(below(base)).mounts.dom().is_empty(),
        incoming.restricted(below(base)).nodes.subset_of(tree.nodes),
        tree.merge_ends(incoming, base, mode, result, after),
    ensures
        result is Ok,
        after == tree,
{
    let part = incoming.restricted(below(base));
    assert forall|route: Route|
        below(base).contains(route) implies !#[trigger] incoming.mounts.contains_key(route) by {
        assert(!part.mounts.dom().contains(route));
    }
    assert(!tree.conflicts_within(incoming, below(base)));
    assert(after.nodes =~= tree.nodes);
    assert(after.mounts =~= tree.mounts);
}

/// After a merge that succeeded, the same merge once more changes nothing. It
/// fails in the mode `Fail` if there is a mount in the part that is merged, and
/// succeeds otherwise.
pub proof fn law_second_merge<F: ?Sized>(
    tree: MountTree<F>,
    incoming: MountTree<F>,
    base: Route,
    mode: UnionMergeMode,
    once: MountTree<F>,
    result: Result<(), FsError>,
    twice: MountTree<F>,
)
    requires
        tree.merge_ends(incoming, base, mode, Ok(()), once),
        once.merge_ends(incoming, base, mode, result, twice),
    ensures
        twice == once,
        result is Err <==> mode is Fail && !incoming.restricted(
            below(base),
        ).mounts.dom().is_empty(),
        result matches Err(error) ==> error == FsError::AlreadyExists,
{
    let part = incoming.restricted(below(base));
    assert forall|route: Route|
        below(base).contains(route) && #[trigger] incoming.mounts.contains_key(
            route,
        ) implies once.mounts.contains_key(route) && part.mounts.dom().contains(route) by {
    }
    if !part.mounts.dom().is_empty() {
        let route = choose|route: Route| part.mounts.dom().contains(route);
        assert(below(base).contains(route) && incoming.mounts.contains_key(route));
        assert(once.conflicts_within(incoming, below(base)));
    }
    if result is Err {
        let (conflict, places) = choose|conflict: Route, places: Set<Route>| #[trigger]
            once.interrupted_at(incoming, base, conflict, places, twice);
        assert(places.subset_of(below(base)));
    }
    assert(twice.nodes =~= once.nodes);
    assert(twice.mounts =~= once.mounts);
}

/// A rename is carried out only within one mount: both places lie below the same
/// mount point, and no mount is deeper on the way to either.
pub proof fn law_rename_stays_within_mount<F: ?Sized>(tree: MountTree<F>, from: Route, to: Route)
    ensures
        match rename_point(tree, from, to) {
            Ok(point) => {
                &&& tree.mounts.contains_key(point)
                &&& point.is_prefix_of(from)
                &&& point.is_prefix_of(to)
                &&& tree.mount_point(from) == Some(point)
                &&& tree.mount_point(to) == Some(point)
            },
            Err(_) => true,
        },
{
    tree.lemma_mount_point_is_deepest(from);
    tree.lemma_mount_point_is_deepest(to);
}

/// In the listing of a node every child mount appears exactly once, as a
/// directory under its own path, and no entry of the mounted filesystem appears
/// under its name.
pub proof fn law_child_mount_listed_once<F: ?Sized>(
    tree: MountTree<F>,
    route: Route,
    base: Seq<DirEntryView>,
    listing: Seq<DirEntryView>,
    name: Name,
)
    requires
        tree.wf(),
        tree.child_names(route).contains(name),
        lists_node(listing, base, absolute(route), tree.child_names(route)),
    ensures
        exists|i: int|
            0 <= i < listing.len() && #[trigger] listing[i] == (DirEntryView {
                path: absolute(route.push(name)),
                metadata: Ok(branch_metadata()),
            }),
        forall|i: int, j: int|
            #![trigger listing[i], listing[j]]
            0 <= i < listing.len() && 0 <= j < listing.len() && file_name_of(listing[i].path)
                == Some(name) && file_name_of(listing[j].path) == Some(name) ==> i == j,
{
    let prefix = absolute(route);
    let children = tree.child_names(route);
    let order = choose|order: Seq<Name>|
        order.no_duplicates() && order.to_set() == children && listing == #[trigger] overlaid(
            base,
            prefix,
            order,
        );
    let visible = unshadowed(rebased_all(base, prefix), children);
    let entries = child_entries(prefix, order);
    assert(listing == visible + entries);
    assert forall|k: int| 0 <= k < order.len() implies (#[trigger] entries[k]).path == absolute(
        route.push(order[k]),
    ) && file_name_of(entries[k].path) == Some(order[k]) by {
        assert(order.to_set().contains(order[k]));
        let child = route.push(order[k]);
        assert(tree.nodes.contains(child));
        assert(route_valid(child));
        assert(is_name(child[route.len() as int]));
        assert(route_valid(route)) by {
            assert forall|i: int| 0 <= i < route.len() implies is_name(#[trigger] route[i]) by {
                assert(is_name(child[i]));
            }
        }
        law_child_entry(route, order[k]);
    }
    assert(order.to_set().contains(name));
    let at = choose|k: int| 0 <= k < order.len() && order[k] == name;
    assert(entries[at].path == absolute(route.push(name)));
    assert(listing[visible.len() + at] == entries[at]);
    assert forall|i: int| 0 <= i < listing.len() && file_name_of(
        #[trigger] listing[i].path,
    ) == Some(name) implies i == visible.len() + at by {
        if i < visible.len() {
            let pred = |entry: DirEntryView| !shadowed(entry, children);
            rebased_all(base, prefix).lemma_filter_pred(pred, i);
            assert(pred(visible[i]));
            assert(listing[i] == visible[i]);
        } else {
            let k = i - visible.len();
            assert(listing[i] == entries[k]);
            assert(file_name_of(entries[k].path) == Some(order[k]));
            assert(order[k] == order[at]);
        }
    }
}

/// In the listing of a node every entry of the mounted filesystem appears that
/// has another name than the child mounts.
pub proof fn law_other_entries_listed(
    base: Seq<DirEntryView>,
    prefix: Seq<u8>,
    children: Set<Name>,
    listing: Seq<DirEntryView>,
    i: int,
)
    requires
        lists_node(listing, base, prefix, children),
        0 <= i < base.len(),
        !shadowed(rebased_all(base, prefix)[i], children),
    ensures
        listing.contains(rebased_all(base, prefix)[i]),
{
    let all = rebased_all(base, prefix);
    let pred = |entry: DirEntryView| !shadowed(entry, children);
    let order = choose|order: Seq<Name>|
        order.no_duplicates() && order.to_set() == children && listing == #[trigger] overlaid(
            base,
            prefix,
            order,
        );
    let visible = unshadowed(all, children);
    assert(pred(all[i]));
    all.lemma_filter_contains(pred, i);
    assert(visible == all.filter(pred));
    let k = choose|k: int| 0 <= k < visible.len() && visible[k] == all[i];
    assert(listing[k] == all[i]);
}

/// What a mounted filesystem has at its root is found under the path that the
/// listing of the mount point shows for it: a call for that path goes to that
/// filesystem, for that entry. The exception are entries with the name of a child
/// mount.
pub proof fn law_listed_entry_resolves<F: ?Sized>(tree: MountTree<F>, route: Route, name: Name)
    requires
        tree.wf(),
        tree.mounts.contains_key(route),
        is_name(name),
        !tree.child_names(route).contains(name),
    ensures
        ({
            let shown = rebased_path(absolute(seq![name]), absolute(route));
            tree.place(route_of(shown)) == Place::Inside {
                fs: tree.mounts[route],
                rest: seq![name],
            }
        }),
{
    let longer = route.push(name);
    assert(route_valid(route));
    assert(route + seq![name] =~= longer);
    law_rebased_entry(route, seq![name]);
    assert(route_valid(longer)) by {
        assert forall|i: int| 0 <= i < longer.len() implies is_name(#[trigger] longer[i]) by {
            if i < route.len() {
                assert(is_name(route[i]));
            }
        }
    }
    law_absolute_round_trip(longer);
    assert(longer.drop_last() =~= route);
    assert(!tree.mounts.contains_key(longer));
    assert(tree.mount_point(route) == Some(route));
    assert(tree.mount_point(longer) == Some(route));
    assert(longer.skip(route.len() as int) =~= seq![name]);
}

/// The path that a listing shows for a child mount leads to the child's node.
pub proof fn law_listed_child_resolves<F: ?Sized>(tree: MountTree<F>, route: Route, name: Name)
    requires
        tree.wf(),
        tree.child_names(route).contains(name),
    ensures
        route_of(child_entry(absolute(route), name).path) == route.push(name),
        tree.nodes.contains(route.push(name)),
{
    let child = route.push(name);
    assert(tree.nodes.contains(child));
    assert(route_valid(child));
    assert(is_name(child[route.len() as int]));
    assert(route_valid(route)) by {
        assert forall|i: int| 0 <= i < route.len() implies is_name(#[trigger] route[i]) by {
            assert(is_name(child[i]));
        }
    }
    law_child_entry(route, name);
    law_absolute_round_trip(child);
}

/// The mount point of a place is the deepest mount on the way there, and there is
/// none exactly where nothing is mounted on the way.
pub proof fn law_mount_point_is_deepest<F: ?Sized>(tree: MountTree<F>, route: Route, point: Route)
    ensures
        tree.mount_point(route) == Some(point) <==> point.is_prefix_of(route)
            && tree.mounts.contains_key(point) && forall|k: int|
            point.len() < k <= route.len() ==> !tree.mounts.contains_key(#[trigger] route.take(k)),
        tree.mount_point(route) is None <==> forall|k: int|
            0 <= k <= route.len() ==> !tree.mounts.contains_key(#[trigger] route.take(k)),
{
    tree.lemma_mount_point_is_deepest(route);
    if let Some(found) = tree.mount_point(route) {
        assert(found =~= route.take(found.len() as int));
        if point.is_prefix_of(route) && tree.mounts.contains_key(point) {
            assert(point =~= route.take(point.len() as int));
        }
    } else if point.is_prefix_of(route) {
        assert(point =~= route.take(point.len() as int));
    }
}

/// What a rename comes to. One that is not of the root, of a node without a mount
/// or of one with child mounts is carried out wherever both places have the same
/// mount point, the root among them; it is refused as invalid only where their
/// mount points differ, and not found only where one of them has none.
pub proof fn law_rename_outcome<F: ?Sized>(tree: MountTree<F>, from: Route, to: Route, point: Route)
    ensures
        rename_point(tree, from, to) == Err::<Route, FsError>(FsError::PermissionDenied)
            <==> from.len() == 0 || tree.nodes.contains(from) && (!tree.mounts.contains_key(from)
            || exists|name: Name| tree.nodes.contains(#[trigger] from.push(name))),
        rename_point(tree, from, to) == Ok::<Route, FsError>(point) <==> rename_point(tree, from, to)
            != Err::<Route, FsError>(FsError::PermissionDenied) && tree.mount_point(from) == Some(
            point,
        ) && tree.mount_point(to) == Some(point),
        rename_point(tree, from, to) == Err::<Route, FsError>(FsError::InvalidInput)
            <==> rename_point(tree, from, to) != Err::<Route, FsError>(FsError::PermissionDenied)
            && tree.mount_point(from) is Some && tree.mount_point(to) is Some && tree.mount_point(
            from,
        ) != tree.mount_point(to),
        rename_point(tree, from, to) == Err::<Route, FsError>(FsError::EntryNotFound)
            <==> rename_point(tree, from, to) != Err::<Route, FsError>(FsError::PermissionDenied)
            && (tree.mount_point(from) is None || tree.mount_point(to) is None),
{
    let children = tree.child_names(from);
    if exists|name: Name| tree.nodes.contains(#[trigger] from.push(name)) {
        let name = choose|name: Name| tree.nodes.contains(#[trigger] from.push(name));
        assert(children.contains(name));
    }
    if !children.is_empty() {
        let name = choose|name: Name| children.contains(name);
        assert(tree.nodes.contains(from.push(name)));
    }
}

/// In the listing of a node an entry of the mounted filesystem is missing only if
/// a child mount has its name.
pub proof fn law_unnamed_entries_listed(
    base: Seq<DirEntryView>,
    prefix: Seq<u8>,
    children: Set<Name>,
    listing: Seq<DirEntryView>,
    i: int,
)
    requires
        lists_node(listing, base, prefix, children),
        0 <= i < base.len(),
        match file_name_of(rebased_path(base[i].path, prefix)) {
            Some(name) => !children.contains(name),
            None => true,
        },
    ensures
        exists|k: int|
            0 <= k < listing.len() && #[trigger] listing[k].path == rebased_path(
                base[i].path,
                prefix,
            ) && listing[k].metadata == base[i].metadata,
{
    law_other_entries_listed(base, prefix, children, listing, i);
    let entry = rebased_all(base, prefix)[i];
    let k = choose|k: int| 0 <= k < listing.len() && listing[k] == entry;
    assert(listing[k].path == rebased_path(base[i].path, prefix));
}

} // verus!
