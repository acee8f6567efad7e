//! The mount tree as a mathematical value.

use std::sync::Arc;

use vstd::prelude::*;

use crate::fs::FsError;
use crate::path::{route_valid, Name, Route};

verus! {

/// How to handle conflicts when merging two trees.
#[derive(Clone, Copy, Debug)]
pub enum UnionMergeMode {
    /// Replace existing mount slots with the incoming ones.
    Replace,
    /// Keep existing mount slots; skip the incoming ones silently.
    Skip,
    /// Fail with `AlreadyExists` if a conflict is found.
    Fail,
}

/// What a tree of mount points is: the places that have a node, and the
/// filesystem that is mounted at some of them.
#[verifier::ext_equal]
pub struct MountTree<F: ?Sized> {
    pub nodes: Set<Route>,
    pub mounts: Map<Route, Arc<F>>,
}

/// What a tree of mount points has at a place.
pub enum Place<F: ?Sized> {
    /// A node with a filesystem mounted at it.
    Mount(Arc<F>),
    /// A node without one: a directory that leads to mounts further down.
    Branch,
    /// No node, but a place inside a mounted filesystem: `rest` leads there from
    /// the mount point.
    Inside { fs: Arc<F>, rest: Route },
    /// No node, and no mounted filesystem that reaches there.
    Nowhere,
}

/// The places that `base` leads to or through.
pub open spec fn below(base: Route) -> Set<Route> {
    Set::new(|route: Route| base.is_prefix_of(route))
}

impl<F: ?Sized> MountTree<F> {
    /// The tree without mounts: a root, and nothing else.
    pub open spec fn empty() -> Self {
        MountTree { nodes: set![Seq::empty()], mounts: Map::empty() }
    }

    /// The root is there, the way to each node is there, and mounts are at
    /// nodes.
    pub open spec fn wf(self) -> bool {
        &&& self.nodes.contains(Seq::empty())
        &&& forall|route: Route| #[trigger]
            self.nodes.contains(route) ==> route_valid(route)
        &&& forall|route: Route, k: int| #![trigger self.nodes.contains(route.take(k))]
            self.nodes.contains(route) && 0 <= k <= route.len() ==> self.nodes.contains(
                route.take(k),
            )
        &&& forall|route: Route| #[trigger]
            self.mounts.contains_key(route) ==> self.nodes.contains(route)
    }

    /// Every node but the root is on the way to a mount.
    pub open spec fn no_dead_ends(self) -> bool {
        forall|route: Route| #[trigger]
            self.nodes.contains(route) && route.len() > 0 ==> self.leads_to_mount(route)
    }

    /// There is a mount at `route` or below.
    pub open spec fn leads_to_mount(self, route: Route) -> bool {
        exists|point: Route| #[trigger]
            self.mounts.contains_key(point) && route.is_prefix_of(point)
    }

    /// The deepest mount on the way to `route`, if there is one.
    pub open spec fn mount_point(self, route: Route) -> Option<Route>
        decreases route.len(),
    {
        if self.mounts.contains_key(route) {
            Some(route)
        } else if route.len() == 0 {
            None
        } else {
            self.mount_point(route.drop_last())
        }
    }

    /// What the tree has at `route`.
    pub open spec fn place(self, route: Route) -> Place<F> {
        if self.mounts.contains_key(route) {
            Place::Mount(self.mounts[route])
        } else if self.nodes.contains(route) {
            Place::Branch
        } else {
            match self.mount_point(route) {
                Some(point) => Place::Inside {
                    fs: self.mounts[point],
                    rest: route.skip(point.len() as int),
                },
                None => Place::Nowhere,
            }
        }
    }

    /// The names of the nodes right below `route`.
    pub open spec fn child_names(self, route: Route) -> Set<Name> {
        Set::new(|name: Name| self.nodes.contains(route.push(name)))
    }

    /// The tree with `fs` mounted at `route`, and with the nodes that lead there.
    pub open spec fn mounted(self, route: Route, fs: Arc<F>) -> Self {
        MountTree {
            nodes: self.nodes.union(Set::new(|node: Route| node.is_prefix_of(route))),
            mounts: self.mounts.insert(route, fs),
        }
    }

    /// The part of the tree that lies at the places `places`.
    pub open spec fn restricted(self, places: Set<Route>) -> Self {
        MountTree { nodes: self.nodes.intersect(places), mounts: self.mounts.restrict(places) }
    }

    /// Both trees have a mount at one of the places `places`.
    pub open spec fn conflicts_within(self, incoming: Self, places: Set<Route>) -> bool {
        exists|route: Route|
            places.contains(route) && self.mounts.contains_key(route)
                && #[trigger] incoming.mounts.contains_key(route)
    }

    /// Both trees have a mount at the same place.
    pub open spec fn conflicts(self, incoming: Self) -> bool {
        self.conflicts_within(incoming, Set::full())
    }

    /// The tree with the nodes and mounts of `incoming` added. Where both have a
    /// mount, the incoming one is taken in the mode `Replace`, and the existing
    /// one is kept otherwise.
    pub open spec fn merged(self, incoming: Self, mode: UnionMergeMode) -> Self {
        MountTree {
            nodes: self.nodes.union(incoming.nodes),
            mounts: match mode {
                UnionMergeMode::Replace => self.mounts.union_prefer_right(incoming.mounts),
                _ => incoming.mounts.union_prefer_right(self.mounts),
            },
        }
    }

    /// `after` is this tree after `incoming` was merged into it from `base` down,
    /// up to a conflict that ended the merge.
    pub open spec fn interrupted(self, incoming: Self, base: Route, after: Self) -> bool {
        exists|conflict: Route, places: Set<Route>| #[trigger]
            self.interrupted_at(incoming, base, conflict, places, after)
    }

    /// See `interrupted`: the merge ended at `conflict`, and `places` are the
    /// places that it had dealt with before. It had dealt with those on the way
    /// from `base` to the conflict. Beside the way it had dealt with each branch
    /// wholly or not at all, and it had found no conflict there. At the conflict
    /// and below it had done nothing.
    pub open spec fn interrupted_at(
        self,
        incoming: Self,
        base: Route,
        conflict: Route,
        places: Set<Route>,
        after: Self,
    ) -> bool {
        &&& base.is_prefix_of(conflict)
        &&& self.mounts.contains_key(conflict)
        &&& incoming.mounts.contains_key(conflict)
        &&& places.subset_of(below(base))
        &&& places.disjoint(below(conflict))
        &&& forall|k: int| #![trigger conflict.take(k)]
            base.len() <= k < conflict.len() ==> places.contains(conflict.take(k))
        &&& forall|k: int, name: Name| #![trigger conflict.take(k).push(name)]
            base.len() <= k < conflict.len() && name != conflict[k] ==> {
                ||| below(conflict.take(k).push(name)).subset_of(places)
                ||| below(conflict.take(k).push(name)).disjoint(places)
            }
        &&& !self.conflicts_within(incoming, places)
        &&& after == self.merged(incoming.restricted(places), UnionMergeMode::Fail)
    }

    /// `result` and `after` are what comes of merging the part of `incoming` from
    /// `base` down into this tree: an error if there is a conflict in the mode
    /// `Fail`, and the merged tree otherwise.
    pub open spec fn merge_ends(
        self,
        incoming: Self,
        base: Route,
        mode: UnionMergeMode,
        result: Result<(), FsError>,
        after: Self,
    ) -> bool {
        &&& result is Err <==> mode is Fail && self.conflicts_within(incoming, below(base))
        &&& match result {
            Ok(_) => after == self.merged(incoming.restricted(below(base)), mode),
            Err(error) => error == FsError::AlreadyExists && self.interrupted(
                incoming,
                base,
                after,
            ),
        }
    }

    /// The mount point of a path is the deepest mount on the way: a prefix of the
    /// path at which something is mounted, and no longer one is.
    pub proof fn lemma_mount_point_is_deepest(self, route: Route)
        ensures
            match self.mount_point(route) {
                Some(point) => {
                    &&& point.is_prefix_of(route)
                    &&& self.mounts.contains_key(point)
                    &&& forall|k: int|
                        point.len() < k <= route.len() ==> !self.mounts.contains_key(
                            #[trigger] route.take(k),
                        )
                },
                None => forall|k: int|
                    0 <= k <= route.len() ==> !self.mounts.contains_key(#[trigger] route.take(k)),
            },
        decreases route.len(),
    {
        assert(route.take(route.len() as int) =~= route);
        if !self.mounts.contains_key(route) && route.len() > 0 {
            let shorter = route.drop_last();
            self.lemma_mount_point_is_deepest(shorter);
            assert forall|k: int| 0 <= k < route.len() implies #[trigger] route.take(k)
                == shorter.take(k) by {
                assert(route.take(k) =~= shorter.take(k));
            }
        }
    }

    /// Beyond the last node on the way there is no mount.
    pub proof fn lemma_mount_point_beyond(self, route: Route, k: int)
        requires
            self.wf(),
            0 <= k < route.len(),
            !self.nodes.contains(route.take(k + 1)),
        ensures
            !self.nodes.contains(route),
            self.mount_point(route) == self.mount_point(route.take(k)),
        decreases route.len(),
    {
        if self.nodes.contains(route) {
            assert(self.nodes.contains(route.take(k + 1)));
        }
        let shorter = route.drop_last();
        if k == route.len() - 1 {
            assert(shorter =~= route.take(k));
        } else {
            assert(shorter.take(k + 1) =~= route.take(k + 1));
            assert(shorter.take(k) =~= route.take(k));
            self.lemma_mount_point_beyond(shorter, k);
        }
    }

    /// Only nodes have children.
    pub proof fn lemma_children_of_node(self, route: Route)
        requires
            self.wf(),
        ensures
            !self.nodes.contains(route) ==> self.child_names(route).is_empty(),
    {
        if !self.child_names(route).is_empty() {
            let name = choose|name: Name| self.child_names(route).contains(name);
            let child = route.push(name);
            assert(child.take(route.len() as int) =~= route);
            assert(self.nodes.contains(child.take(route.len() as int)));
        }
    }

    /// A conflict at `base` itself ends a merge before anything is changed.
    pub proof fn lemma_conflict_at_once(self, incoming: Self, base: Route)
        requires
            self.mounts.contains_key(base),
            incoming.mounts.contains_key(base),
        ensures
            self.conflicts_within(incoming, below(base)),
            self.interrupted(incoming, base, self),
    {
        let places = Set::<Route>::empty();
        assert(below(base).contains(base));
        assert(self =~= self.merged(incoming.restricted(places), UnionMergeMode::Fail));
        assert(self.interrupted_at(incoming, base, base, places, self));
    }

    /// A merge that ended below one of the children of `base` ended below `base`:
    /// the children before it were merged wholly.
    pub proof fn lemma_interrupted_below(
        self,
        incoming: Self,
        base: Route,
        pairs: Seq<(Vec<u8>, usize)>,
        count: int,
        grown: Self,
        after: Self,
    )
        requires
            self.wf(),
            0 <= count < pairs.len(),
            incoming.nodes.contains(base.push(pairs[count].0@)),
            forall|i: int, j: int|
                #![trigger pairs[i], pairs[j]]
                0 <= i < j < pairs.len() ==> pairs[i].0@ != pairs[j].0@,
            ({
                let done = reached(base, pairs, count);
                let sofar = self.merged(incoming.restricted(done), UnionMergeMode::Fail);
                let next = base.push(pairs[count].0@);
                &&& !self.conflicts_within(incoming, done)
                &&& grown == MountTree { nodes: sofar.nodes.insert(next), mounts: sofar.mounts }
                &&& grown.interrupted(incoming, next, after)
            }),
        ensures
            self.interrupted(incoming, base, after),
    {
        let done = reached(base, pairs, count);
        let sofar = self.merged(incoming.restricted(done), UnionMergeMode::Fail);
        let next = base.push(pairs[count].0@);
        let (conflict, last) = choose|conflict: Route, last: Set<Route>| #[trigger]
            grown.interrupted_at(incoming, next, conflict, last, after);
        assert(grown.interrupted_at(incoming, next, conflict, last, after));
        let places = done.union(last);
        let depth = base.len() as int;
        assert(base =~= next.take(depth));
        assert(next =~= conflict.take(depth + 1));
        assert(base =~= conflict.take(depth));
        assert(conflict[depth] == next[depth]);
        assert forall|route: Route| below(next).contains(route) implies below(base).contains(route)
            && !done.contains(route) by {
            assert(base =~= route.take(depth));
            lemma_not_reached(base, pairs, count, route);
        }
        assert forall|route: Route| done.contains(route) implies below(base).contains(route) by {
            if route != base {
                let j = choose|j: int|
                    0 <= j < count && base.push(#[trigger] pairs[j].0@).is_prefix_of(route);
                assert(base =~= base.push(pairs[j].0@).take(depth));
                assert(base =~= route.take(depth));
            }
        }
        assert(places.subset_of(below(base)));
        assert forall|route: Route| below(conflict).contains(route) implies !places.contains(
            route,
        ) by {
            assert(next =~= route.take(depth + 1));
            assert(below(next).contains(route));
            assert(!last.contains(route));
        }
        assert(places.disjoint(below(conflict)));
        assert(below(next).contains(conflict));
        assert(self.mounts.contains_key(conflict));
        assert(self.nodes.contains(conflict.take(depth + 1)));
        assert forall|k: int|
            #![trigger conflict.take(k)]
            depth <= k < conflict.len() implies places.contains(conflict.take(k)) by {
            if k > depth {
                assert(last.contains(conflict.take(k)));
            }
        }
        assert forall|k: int, name: Name|
            #![trigger conflict.take(k).push(name)]
            depth <= k < conflict.len() && name != conflict[k] implies {
            ||| below(conflict.take(k).push(name)).subset_of(places)
            ||| below(conflict.take(k).push(name)).disjoint(places)
        } by {
            let branch = conflict.take(k).push(name);
            if k == depth {
                lemma_branch_of_base(base, pairs, count, name, last);
            } else {
                assert(below(branch).subset_of(last) || below(branch).disjoint(last));
                assert forall|route: Route| below(branch).contains(route) implies !done.contains(
                    route,
                ) by {
                    assert(next =~= branch.take(depth + 1));
                    assert(next =~= route.take(depth + 1));
                    assert(below(next).contains(route));
                }
            }
        }
        if conflict.len() > next.len() {
            assert(last.contains(conflict.take(depth + 1)));
            sofar.lemma_merged_with_node(
                next,
                incoming.restricted(last),
                UnionMergeMode::Fail,
            );
        } else {
            assert(conflict =~= next);
            assert(last =~= Set::empty());
            assert(grown =~= sofar);
        }
        self.lemma_merged_twice(incoming, done, last, UnionMergeMode::Fail);
        assert(self.interrupted_at(incoming, base, conflict, places, after));
    }

    /// The places that an interrupted merge has dealt with: with each where this
    /// tree has no node it has dealt with all below.
    pub proof fn lemma_interrupted_wholly(
        self,
        incoming: Self,
        base: Route,
        conflict: Route,
        places: Set<Route>,
        after: Self,
        route: Route,
    )
        requires
            self.wf(),
            self.interrupted_at(incoming, base, conflict, places, after),
            places.contains(route),
            !self.nodes.contains(route),
        ensures
            below(route).subset_of(places),
    {
        assert(self.nodes.contains(conflict));
        assert(below(base).contains(route));
        let depth = base.len() as int;
        assert(base =~= conflict.take(depth));
        assert(base =~= route.take(depth));
        let k = lemma_parting(conflict, route, depth);
        if k == route.len() {
            assert(route =~= conflict.take(k));
            assert(self.nodes.contains(conflict.take(k)));
        } else if k == conflict.len() {
            assert(conflict =~= route.take(k));
            assert(below(conflict).contains(route));
        } else {
            let branch = conflict.take(k).push(route[k]);
            assert(branch =~= route.take(k + 1));
            assert(below(branch).contains(route));
            assert forall|deeper: Route| below(route).contains(deeper) implies places.contains(
                deeper,
            ) by {
                assert(branch =~= deeper.take(k + 1));
                assert(below(branch).contains(deeper));
            }
        }
    }

    /// Mounting a filesystem leaves no dead end.
    pub proof fn lemma_mounted_no_dead_ends(self, route: Route, fs: Arc<F>)
        requires
            self.no_dead_ends(),
        ensures
            self.mounted(route, fs).no_dead_ends(),
    {
        let after = self.mounted(route, fs);
        assert forall|node: Route| #[trigger]
            after.nodes.contains(node) && node.len() > 0 implies after.leads_to_mount(node) by {
            if node.is_prefix_of(route) {
                assert(after.mounts.contains_key(route));
            } else {
                assert(self.leads_to_mount(node));
                let point = choose|point: Route| #[trigger]
                    self.mounts.contains_key(point) && node.is_prefix_of(point);
                assert(after.mounts.contains_key(point));
            }
        }
    }

    /// Merging a tree leaves no dead end.
    pub proof fn lemma_merged_no_dead_ends(self, incoming: Self, mode: UnionMergeMode)
        requires
            self.no_dead_ends(),
            incoming.no_dead_ends(),
        ensures
            self.merged(incoming, mode).no_dead_ends(),
    {
        let after = self.merged(incoming, mode);
        assert forall|node: Route| #[trigger]
            after.nodes.contains(node) && node.len() > 0 implies after.leads_to_mount(node) by {
            let tree = if self.nodes.contains(node) {
                self
            } else {
                incoming
            };
            assert(tree.leads_to_mount(node));
            let point = choose|point: Route| #[trigger]
                tree.mounts.contains_key(point) && node.is_prefix_of(point);
            assert(after.mounts.contains_key(point));
        }
    }

    /// A merge that a conflict ended leaves no dead end.
    pub proof fn lemma_interrupted_no_dead_ends(self, incoming: Self, base: Route, after: Self)
        requires
            self.wf(),
            incoming.wf(),
            self.no_dead_ends(),
            incoming.no_dead_ends(),
            self.interrupted(incoming, base, after),
        ensures
            after.no_dead_ends(),
    {
        let (conflict, places) = choose|conflict: Route, places: Set<Route>| #[trigger]
            self.interrupted_at(incoming, base, conflict, places, after);
        assert forall|node: Route| #[trigger]
            after.nodes.contains(node) && node.len() > 0 implies after.leads_to_mount(node) by {
            if self.nodes.contains(node) {
                assert(self.leads_to_mount(node));
                let point = choose|point: Route| #[trigger]
                    self.mounts.contains_key(point) && node.is_prefix_of(point);
                assert(after.mounts.contains_key(point));
            } else {
                assert(incoming.nodes.contains(node));
                assert(incoming.leads_to_mount(node));
                let point = choose|point: Route| #[trigger]
                    incoming.mounts.contains_key(point) && node.is_prefix_of(point);
                self.lemma_interrupted_wholly(incoming, base, conflict, places, after, node);
                assert(below(node).contains(point));
                assert(after.mounts.contains_key(point));
            }
        }
    }

    /// Merging two parts of a tree one after the other merges both.
    pub proof fn lemma_merged_twice(
        self,
        incoming: Self,
        first: Set<Route>,
        second: Set<Route>,
        mode: UnionMergeMode,
    )
        ensures
            self.merged(incoming.restricted(first), mode).merged(incoming.restricted(second), mode)
                == self.merged(incoming.restricted(first.union(second)), mode),
    {
        let once = self.merged(incoming.restricted(first), mode);
        let twice = once.merged(incoming.restricted(second), mode);
        let both = self.merged(incoming.restricted(first.union(second)), mode);
        assert(twice.nodes =~= both.nodes);
        assert(twice.mounts =~= both.mounts);
    }

    /// A node that the merge brings anyway may be there before.
    pub proof fn lemma_merged_with_node(
        self,
        node: Route,
        incoming: Self,
        mode: UnionMergeMode,
    )
        requires
            incoming.nodes.contains(node),
        ensures
            (MountTree { nodes: self.nodes.insert(node), mounts: self.mounts }).merged(
                incoming,
                mode,
            ) == self.merged(incoming, mode),
    {
        let grown = MountTree { nodes: self.nodes.insert(node), mounts: self.mounts };
        assert(grown.merged(incoming, mode).nodes =~= self.merged(incoming, mode).nodes);
    }
}

/// How far `a` and `b`, which have the first `from` names in common, go the same
/// way.
proof fn lemma_parting(a: Route, b: Route, from: int) -> (k: int)
    requires
        0 <= from <= a.len(),
        from <= b.len(),
        a.take(from) == b.take(from),
    ensures
        from <= k <= a.len(),
        k <= b.len(),
        a.take(k) == b.take(k),
        k < a.len() && k < b.len() ==> a[k] != b[k],
    decreases a.len() - from,
{
    if from < a.len() && from < b.len() && a[from] == b[from] {
        assert(a.take(from + 1) =~= a.take(from).push(a[from]));
        assert(b.take(from + 1) =~= b.take(from).push(b[from]));
        lemma_parting(a, b, from + 1)
    } else {
        from
    }
}

/// The place `base` and what lies below the first `count` of its children that
/// `pairs` lists.
pub open spec fn reached(base: Route, pairs: Seq<(Vec<u8>, usize)>, count: int) -> Set<Route> {
    Set::new(
        |route: Route|
            route == base || exists|j: int|
                0 <= j < count && base.push(#[trigger] pairs[j].0@).is_prefix_of(route),
    )
}

/// What lies below one more child is reached next.
pub proof fn lemma_reached_next(base: Route, pairs: Seq<(Vec<u8>, usize)>, count: int)
    requires
        0 <= count < pairs.len(),
    ensures
        reached(base, pairs, count + 1) == reached(base, pairs, count).union(
            below(base.push(pairs[count].0@)),
        ),
{
    let one = reached(base, pairs, count + 1);
    let two = reached(base, pairs, count).union(below(base.push(pairs[count].0@)));
    assert forall|route: Route| one.contains(route) == two.contains(route) by {
        if two.contains(route) && !reached(base, pairs, count).contains(route) {
            assert(base.push(pairs[count].0@).is_prefix_of(route));
        }
    }
    assert(one =~= two);
}

/// A route is not below two different children of the same place.
pub proof fn lemma_not_reached(
    base: Route,
    pairs: Seq<(Vec<u8>, usize)>,
    count: int,
    route: Route,
)
    requires
        0 <= count < pairs.len(),
        forall|i: int, j: int|
            #![trigger pairs[i], pairs[j]]
            0 <= i < j < pairs.len() ==> pairs[i].0@ != pairs[j].0@,
        below(base.push(pairs[count].0@)).contains(route),
    ensures
        !reached(base, pairs, count).contains(route),
{
    let next = base.push(pairs[count].0@);
    assert(next[base.len() as int] == route[base.len() as int]);
    assert forall|j: int| 0 <= j < count implies !base.push(
        #[trigger] pairs[j].0@,
    ).is_prefix_of(route) by {
        let other = base.push(pairs[j].0@);
        assert(pairs[j].0@ != pairs[count].0@);
        if other.is_prefix_of(route) {
            assert(other[base.len() as int] == route[base.len() as int]);
        }
    }
}

/// What lies below a child of `base` other than the one that comes next is
/// among what was reached before, or apart from that and from what lies below
/// the next one.
proof fn lemma_branch_of_base(
    base: Route,
    pairs: Seq<(Vec<u8>, usize)>,
    count: int,
    name: Name,
    last: Set<Route>,
)
    requires
        0 <= count < pairs.len(),
        name != pairs[count].0@,
        last.subset_of(below(base.push(pairs[count].0@))),
    ensures
        ({
            let branch = base.push(name);
            let places = reached(base, pairs, count).union(last);
            below(branch).subset_of(places) || below(branch).disjoint(places)
        }),
{
    let branch = base.push(name);
    let next = base.push(pairs[count].0@);
    let done = reached(base, pairs, count);
    let depth = base.len() as int;
    if exists|j: int| 0 <= j < count && #[trigger] pairs[j].0@ == name {
        let j = choose|j: int| 0 <= j < count && #[trigger] pairs[j].0@ == name;
        assert forall|route: Route| below(branch).contains(route) implies done.contains(
            route,
        ) by {
            assert(base.push(pairs[j].0@).is_prefix_of(route));
        }
    } else {
        assert forall|route: Route| below(branch).contains(route) implies !done.contains(route)
            && !last.contains(route) by {
            assert(branch[depth] == route[depth]);
            if last.contains(route) {
                assert(below(next).contains(route));
                assert(next[depth] == route[depth]);
            }
            assert forall|j: int| 0 <= j < count implies !base.push(
                #[trigger] pairs[j].0@,
            ).is_prefix_of(route) by {
                let other = base.push(pairs[j].0@);
                if other.is_prefix_of(route) {
                    assert(other[depth] == route[depth]);
                }
            }
        }
    }
}

} // verus!
