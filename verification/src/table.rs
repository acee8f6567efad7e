//! The nodes of the mount tree.
//!
//! The nodes are held in one vector, and a node knows its children by their
//! indices. What the nodes make up is a `MountTree`.

use std::sync::Arc;

use vstd::prelude::*;

use dashmap::DashMap;

use crate::children::{
    children_entry, children_get, children_insert, children_is_empty, children_iter, children_map,
    children_new, lists,
};
use crate::fs::{FileSystem, FsError};
use crate::laws::law_merge_of_the_whole;
use crate::model::{
    below, lemma_not_reached, lemma_reached_next, reached, MountTree, UnionMergeMode,
};
use crate::path::{is_name, names, route_valid, Name, Route};

verus! {

/// A single node in the mount tree.
///
/// A node represents one path component in the mount hierarchy. It may have a
/// filesystem mounted at its exact path (`mount`), and zero or more child
/// mount points (`children`), each given by the index of its node in the tree.
pub struct MountNode<F: FileSystem + ?Sized> {
    mount: Option<Arc<F>>,
    children: DashMap<Vec<u8>, usize>,
    route: Ghost<Route>,
}

/// The nodes of a mount tree, the root first, and each behind its parent.
pub(crate) struct MountTable<F: FileSystem + ?Sized> {
    nodes: Vec<MountNode<F>>,
}

impl<F: FileSystem + ?Sized> MountNode<F> {
    /// A node at `route` with nothing mounted and without children.
    fn new(Ghost(route): Ghost<Route>) -> (node: Self)
        ensures
            node.mount is None,
            (children_map(node.children) == Map::<Seq<u8>, usize>::empty()),
            node.route@ == route,
    {
        MountNode { mount: None, children: children_new(), route: Ghost(route) }
    }

    /// A node of its own with the same children, which shares the mounted
    /// filesystem.
    fn deep_clone(&self) -> (node: Self)
        ensures
            node.mount == self.mount,
            children_map(node.children) == children_map(self.children),
            node.route == self.route,
    {
        let pairs = children_iter(&self.children);
        let mut children = children_new();
        let ghost contents = children_map(self.children);
        for pair in iter: pairs
            invariant
                iter.seq() == pairs@,
                lists(pairs@, contents),
                forall|name: Name| #[trigger]
                    children_map(children).contains_key(name) <==> exists|i: int|
                        0 <= i < iter.index() && #[trigger] pairs@[i].0@ == name,
                forall|name: Name| #[trigger]
                    children_map(children).contains_key(name) ==> contents.contains_key(name)
                        && children_map(children)[name] == contents[name],
        {
            let (name, index) = pair;
            children_insert(&mut children, name, index);
        }
        assert(children_map(children) =~= contents);
        MountNode { mount: self.mount(), children, route: Ghost(self.route@) }
    }

    /// The filesystem that is mounted at the node.
    pub closed spec fn mounted(&self) -> Option<Arc<F>> {
        self.mount
    }

    /// The names of the children of the node.
    pub closed spec fn names_below(&self) -> Set<Name> {
        children_map(self.children).dom()
    }

    /// The node is the one that `tree` has at `route`.
    pub open spec fn stands_in(&self, tree: MountTree<F>, route: Route) -> bool {
        &&& tree.nodes.contains(route)
        &&& self.mounted() is Some <==> tree.mounts.contains_key(route)
        &&& self.mounted() is Some ==> self.mounted()->0 == tree.mounts[route]
        &&& self.names_below() == tree.child_names(route)
    }

    /// The filesystem that is mounted at the node, if there is one.
    pub fn mount(&self) -> (fs: Option<Arc<F>>)
        ensures
            fs == self.mounted(),
    {
        match &self.mount {
            Some(fs) => Some(Arc::clone(fs)),
            None => None,
        }
    }

    /// Whether a filesystem is mounted at the node.
    pub fn is_mounted(&self) -> (b: bool)
        ensures
            b == (self.mounted() is Some),
    {
        self.mount.is_some()
    }

    /// Whether the node has children.
    pub fn has_children(&self) -> (b: bool)
        ensures
            b == !self.names_below().is_empty(),
    {
        let empty = children_is_empty(&self.children);
        proof {
            let contents = children_map(self.children);
            if contents.dom().is_empty() {
                assert(contents =~= Map::<Seq<u8>, usize>::empty());
            }
        }
        !empty
    }

    /// The names of the children, each once, in an order that is not specified.
    pub fn child_names(&self) -> (found: Vec<Vec<u8>>)
        ensures
            names(found@).no_duplicates(),
            names(found@).to_set() == self.names_below(),
    {
        let pairs = children_iter(&self.children);
        let mut found: Vec<Vec<u8>> = Vec::new();
        let ghost contents = children_map(self.children);
        for pair in iter: pairs
            invariant
                iter.seq() == pairs@,
                lists(pairs@, contents),
                found@.len() == iter.index(),
                forall|i: int| 0 <= i < found@.len() ==> #[trigger] found@[i]@ == pairs@[i].0@,
        {
            let (name, _) = pair;
            found.push(name);
        }
        proof {
            assert forall|name: Name| names(found@).to_set().contains(name) == contents.dom().contains(
                name,
            ) by {
                if contents.contains_key(name) {
                    let i = choose|i: int| 0 <= i < pairs@.len() && #[trigger] pairs@[i].0@ == name;
                    assert(names(found@)[i] == name);
                }
            }
            assert(names(found@).to_set() =~= contents.dom());
        }
        found
    }
}

impl<F: FileSystem + ?Sized> MountTable<F> {
    spec fn route(&self, i: int) -> Route {
        self.nodes@[i].route@
    }

    spec fn edges(&self, i: int) -> Map<Name, usize> {
        children_map(self.nodes@[i].children)
    }

    spec fn slot(&self, i: int) -> Option<Arc<F>> {
        self.nodes@[i].mount
    }

    /// The node at index `i` stands at `route`.
    spec fn stands(&self, i: int, route: Route) -> bool {
        0 <= i < self.nodes@.len() && self.route(i) == route
    }

    spec fn index_of(&self, route: Route) -> int {
        choose|i: int| self.stands(i, route)
    }

    /// The tree of mount points.
    pub(crate) closed spec fn view(&self) -> MountTree<F> {
        MountTree {
            nodes: Set::new(|route: Route| exists|i: int| self.stands(i, route)),
            mounts: Map::new(
                |route: Route| exists|i: int| #[trigger] self.stands(i, route) && self.slot(i) is Some,
                |route: Route| self.slot(self.index_of(route))->0,
            ),
        }
    }

    /// The node at index `j` hangs below a node before it, under the last name
    /// of its route.
    spec fn hangs(&self, i: int, j: int) -> bool {
        &&& 0 <= i < j
        &&& self.route(j).len() > 0
        &&& self.route(i) == self.route(j).drop_last()
        &&& self.edges(i).contains_key(self.route(j).last())
    }

    /// The node at index `j` hangs below a node before it.
    spec fn has_parent(&self, j: int) -> bool {
        exists|i: int| self.hangs(i, j)
    }

    /// The root comes first, no two nodes stand at the same place, a child stands
    /// at its parent's place extended by its name, and every node but the root is
    /// the child of another.
    spec fn sound(&self) -> bool {
        &&& self.nodes@.len() > 0
        &&& self.route(0) == Seq::<Name>::empty()
        &&& forall|i: int, j: int|
            #![trigger self.route(i), self.route(j)]
            0 <= i < self.nodes@.len() && 0 <= j < self.nodes@.len() && self.route(i) == self.route(
                j,
            ) ==> i == j
        &&& forall|i: int, name: Name|
            #![trigger self.edges(i).contains_key(name)]
            0 <= i < self.nodes@.len() && self.edges(i).contains_key(name) ==> {
                &&& i < self.edges(i)[name] < self.nodes@.len()
                &&& self.route(self.edges(i)[name] as int) == self.route(i).push(name)
            }
        &&& forall|j: int| 0 < j < self.nodes@.len() ==> #[trigger] self.has_parent(j)
        &&& forall|i: int|
            #![trigger self.route(i)]
            0 <= i < self.nodes@.len() ==> route_valid(self.route(i))
    }

    /// Every node of `self` is still there in `later`, at the same index.
    spec fn kept_by(&self, later: &Self) -> bool {
        &&& self.nodes@.len() <= later.nodes@.len()
        &&& forall|i: int|
            #![trigger later.route(i)]
            0 <= i < self.nodes@.len() ==> later.route(i) == self.route(i)
    }

    /// What the view says of the node at index `i`.
    proof fn lemma_node(&self, i: int)
        requires
            self.sound(),
            0 <= i < self.nodes@.len(),
        ensures
            self@.nodes.contains(self.route(i)),
            self@.mounts.contains_key(self.route(i)) == (self.slot(i) is Some),
            self.slot(i) is Some ==> self@.mounts[self.route(i)] == self.slot(i)->0,
    {
        assert(self.stands(i, self.route(i)));
        let j = self.index_of(self.route(i));
        assert(self.stands(j, self.route(i)));
        assert(self.route(i) == self.route(j));
    }

    /// The node that the view has at `route`.
    proof fn lemma_node_at(&self, route: Route) -> (i: int)
        requires
            self.sound(),
            self@.nodes.contains(route),
        ensures
            self.stands(i, route),
    {
        choose|i: int| self.stands(i, route)
    }

    /// A node right below the one at index `i` is among its children.
    proof fn lemma_edge(&self, i: int, name: Name)
        requires
            self.sound(),
            0 <= i < self.nodes@.len(),
        ensures
            self@.nodes.contains(self.route(i).push(name)) == self.edges(i).contains_key(name),
    {
        let route = self.route(i).push(name);
        if self.edges(i).contains_key(name) {
            self.lemma_node(self.edges(i)[name] as int);
        }
        if self@.nodes.contains(route) {
            let j = self.lemma_node_at(route);
            assert(self.route(j).len() > 0);
            assert(j != 0);
            assert(self.has_parent(j));
            let parent = choose|parent: int| self.hangs(parent, j);
            assert(route.drop_last() =~= self.route(i));
            assert(self.route(parent) == self.route(i));
        }
    }

    /// The way to a node consists of nodes.
    proof fn lemma_prefix(&self, route: Route, k: int)
        requires
            self.sound(),
            self@.nodes.contains(route),
            0 <= k <= route.len(),
        ensures
            self@.nodes.contains(route.take(k)),
        decreases route.len(),
    {
        if k == route.len() {
            assert(route.take(k) =~= route);
        } else {
            let j = self.lemma_node_at(route);
            assert(self.route(j) == route);
            assert(j != 0);
            assert(self.has_parent(j));
            let parent = choose|parent: int| self.hangs(parent, j);
            self.lemma_node(parent);
            self.lemma_prefix(route.drop_last(), k);
            assert(route.drop_last().take(k) =~= route.take(k));
        }
    }

    /// The tree that the nodes make up is well-formed.
    proof fn lemma_sound_view(&self)
        requires
            self.sound(),
        ensures
            self@.wf(),
    {
        self.lemma_node(0);
        assert forall|route: Route| #[trigger] self@.nodes.contains(route) implies route_valid(
            route,
        ) by {
            let i = self.lemma_node_at(route);
            assert(route_valid(self.route(i)));
        }
        assert forall|route: Route, k: int|
            #![trigger self@.nodes.contains(route.take(k))]
            self@.nodes.contains(route) && 0 <= k <= route.len() implies self@.nodes.contains(
            route.take(k),
        ) by {
            self.lemma_prefix(route, k);
        }
        assert forall|route: Route| #[trigger]
            self@.mounts.contains_key(route) implies self@.nodes.contains(route) by {
            let i = choose|i: int| #[trigger] self.stands(i, route) && self.slot(i) is Some;
            assert(self.stands(i, route));
        }
    }

    /// Nodes with the same places and children stand at the same places.
    #[verifier::spinoff_prover]
    proof fn lemma_same_places(&self, before: &Self)
        requires
            before.sound(),
            self.nodes@.len() == before.nodes@.len(),
            forall|i: int|
                #![trigger self.route(i)]
                0 <= i < before.nodes@.len() ==> self.route(i) == before.route(i) && self.edges(i)
                    == before.edges(i),
        ensures
            self.sound(),
            self@.nodes == before@.nodes,
    {
        assert forall|j: int| 0 < j < self.nodes@.len() implies #[trigger] self.has_parent(j) by {
            assert(before.has_parent(j));
            let i = choose|i: int| before.hangs(i, j);
            assert(self.route(i) == before.route(i) && self.route(j) == before.route(j));
            assert(self.hangs(i, j));
        }
        assert forall|i: int, name: Name|
            #![trigger self.edges(i).contains_key(name)]
            0 <= i < self.nodes@.len() && self.edges(i).contains_key(name) implies {
            &&& i < self.edges(i)[name] < self.nodes@.len()
            &&& self.route(self.edges(i)[name] as int) == self.route(i).push(name)
        } by {
            assert(self.route(i) == before.route(i));
            assert(before.edges(i).contains_key(name));
            assert(self.route(self.edges(i)[name] as int) == before.route(
                self.edges(i)[name] as int,
            ));
        }
        assert forall|i: int|
            #![trigger self.route(i)]
            0 <= i < self.nodes@.len() implies route_valid(self.route(i)) by {
            assert(route_valid(before.route(i)));
        }
        assert(self.route(0) == before.route(0));
        assert(self.sound());
        assert forall|i: int, route: Route| self.stands(i, route) == before.stands(i, route) by {
        }
        assert(self@.nodes =~= before@.nodes);
    }

    /// Nodes with the same places, children and slots make up the same tree.
    #[verifier::spinoff_prover]
    proof fn lemma_unchanged(&self, before: &Self)
        requires
            before.sound(),
            self.nodes@.len() == before.nodes@.len(),
            forall|i: int|
                #![trigger self.route(i)]
                0 <= i < before.nodes@.len() ==> self.route(i) == before.route(i) && self.slot(i)
                    == before.slot(i) && self.edges(i) == before.edges(i),
        ensures
            self.sound(),
            self@ == before@,
    {
        assert forall|i: int|
            #![trigger self.route(i)]
            0 <= i < before.nodes@.len() implies self.route(i) == before.route(i) && self.edges(i)
            == before.edges(i) by {
            assert(self.route(i) == before.route(i));
            assert(self.edges(i) == before.edges(i));
        }
        self.lemma_same_places(before);
        assert forall|i: int|
            #![trigger self.route(i)]
            0 <= i < before.nodes@.len() implies self.route(i) == before.route(i) && self.slot(i)
            == before.slot(i) by {
            assert(self.route(i) == before.route(i));
            assert(self.slot(i) == before.slot(i));
        }
        assert forall|i: int|
            #![trigger self.slot(i)]
            before.nodes@.len() <= i < self.nodes@.len() implies self.slot(i) is None by {
            assert(self.nodes@.len() == before.nodes@.len());
        }
        self.lemma_same_mounts(before);
    }

    /// A new node as the child of the one at index `at` adds its place to the
    /// tree.
    #[verifier::spinoff_prover]
    proof fn lemma_grown(&self, before: &Self, at: int, name: Name)
        requires
            before.sound(),
            0 <= at < before.nodes@.len(),
            is_name(name),
            !before.edges(at).contains_key(name),
            self.nodes@.len() == before.nodes@.len() + 1,
            forall|i: int|
                #![trigger self.route(i)]
                0 <= i < before.nodes@.len() ==> self.route(i) == before.route(i) && self.slot(i)
                    == before.slot(i) && (i != at ==> self.edges(i) == before.edges(i)),
            self.edges(at) == before.edges(at).insert(name, before.nodes@.len() as usize),
            before.nodes@.len() <= usize::MAX,
            self.route(before.nodes@.len() as int) == before.route(at).push(name),
            self.slot(before.nodes@.len() as int) is None,
            (self.edges(before.nodes@.len() as int) == Map::<Name, usize>::empty()),
        ensures
            self.sound(),
            self@.nodes == before@.nodes.insert(before.route(at).push(name)),
            self@.mounts == before@.mounts,
    {
        let fresh = before.nodes@.len() as int;
        let route = before.route(at).push(name);
        before.lemma_edge(at, name);
        assert forall|i: int, j: int|
            #![trigger self.route(i), self.route(j)]
            0 <= i < self.nodes@.len() && 0 <= j < self.nodes@.len() && self.route(i) == self.route(
                j,
            ) implies i == j by {
            if i == fresh && j != fresh {
                before.lemma_node(j);
            }
            if j == fresh && i != fresh {
                before.lemma_node(i);
            }
        }
        assert forall|i: int, other: Name|
            #![trigger self.edges(i).contains_key(other)]
            0 <= i < self.nodes@.len() && self.edges(i).contains_key(other) implies {
            &&& i < self.edges(i)[other] < self.nodes@.len()
            &&& self.route(self.edges(i)[other] as int) == self.route(i).push(other)
        } by {
            assert(self.route(i) == self.route(i));
            if i < fresh && !(i == at && other == name) {
                assert(before.edges(i).contains_key(other));
                assert(self.route(before.edges(i)[other] as int) == before.route(
                    before.edges(i)[other] as int,
                ));
            }
        }
        assert forall|j: int| 0 < j < self.nodes@.len() implies #[trigger] self.has_parent(j) by {
            if j == fresh {
                assert(route.drop_last() =~= before.route(at));
                assert(self.route(at) == before.route(at));
                assert(self.hangs(at, j));
            } else {
                assert(before.has_parent(j));
                let i = choose|i: int| before.hangs(i, j);
                assert(self.route(i) == before.route(i) && self.route(j) == before.route(j));
                assert(self.hangs(i, j));
            }
        }
        assert forall|i: int|
            #![trigger self.route(i)]
            0 <= i < self.nodes@.len() implies route_valid(self.route(i)) by {
            assert(route_valid(before.route(at)));
            if i < fresh {
                assert(route_valid(before.route(i)));
            }
        }
        assert(self.route(0) == before.route(0));
        assert(self.sound());
        self.lemma_node(fresh);
        assert forall|other: Route| self@.nodes.contains(other) == before@.nodes.insert(
            route,
        ).contains(other) by {
            if self@.nodes.contains(other) {
                let i = self.lemma_node_at(other);
                if i < fresh {
                    assert(self.route(i) == before.route(i));
                    before.lemma_node(i);
                }
            }
            if before@.nodes.contains(other) {
                let i = before.lemma_node_at(other);
                assert(self.route(i) == before.route(i));
                self.lemma_node(i);
            }
        }
        assert(self@.nodes =~= before@.nodes.insert(route));
        assert forall|i: int|
            #![trigger self.route(i)]
            0 <= i < before.nodes@.len() implies self.route(i) == before.route(i) && self.slot(i)
            == before.slot(i) by {
            assert(self.route(i) == before.route(i));
            assert(self.slot(i) == before.slot(i));
        }
        assert forall|i: int|
            #![trigger self.slot(i)]
            before.nodes@.len() <= i < self.nodes@.len() implies self.slot(i) is None by {
            assert(i == fresh);
        }
        self.lemma_same_mounts(before);
    }

    /// Mounts stay where they are as long as the slots of the nodes do, and new
    /// nodes have empty slots.
    #[verifier::spinoff_prover]
    proof fn lemma_same_mounts(&self, before: &Self)
        requires
            before.sound(),
            self.sound(),
            before.nodes@.len() <= self.nodes@.len(),
            forall|i: int|
                #![trigger self.route(i)]
                0 <= i < before.nodes@.len() ==> self.route(i) == before.route(i) && self.slot(i)
                    == before.slot(i),
            forall|i: int|
                #![trigger self.slot(i)]
                before.nodes@.len() <= i < self.nodes@.len() ==> self.slot(i) is None,
        ensures
            self@.mounts == before@.mounts,
    {
        self.lemma_sound_view();
        before.lemma_sound_view();
        assert forall|other: Route| self@.mounts.contains_key(other)
            == before@.mounts.contains_key(other) by {
            if self@.mounts.contains_key(other) {
                let i = self.lemma_node_at(other);
                self.lemma_node(i);
                assert(self.route(i) == before.route(i));
                before.lemma_node(i);
            }
            if before@.mounts.contains_key(other) {
                let i = before.lemma_node_at(other);
                before.lemma_node(i);
                assert(self.route(i) == before.route(i));
                self.lemma_node(i);
            }
        }
        assert forall|other: Route| self@.mounts.contains_key(other) implies self@.mounts[other]
            == before@.mounts[other] by {
            let i = self.lemma_node_at(other);
            self.lemma_node(i);
            assert(self.route(i) == before.route(i));
            before.lemma_node(i);
        }
        assert(self@.mounts =~= before@.mounts);
    }

    /// The child of the node at index `at` under `name`, created if it is missing.
    fn child_or_create(&mut self, at: usize, name: Vec<u8>) -> (child: usize)
        requires
            old(self).sound(),
            at < old(self).nodes@.len(),
            is_name(name@),
        ensures
            final(self).sound(),
            old(self).kept_by(final(self)),
            child < final(self).nodes@.len(),
            final(self).route(child as int) == old(self).route(at as int).push(name@),
            final(self)@.nodes == old(self)@.nodes.insert(old(self).route(at as int).push(name@)),
            final(self)@.mounts == old(self)@.mounts,
    {
        let fresh = self.nodes.len();
        let ghost route = self.route(at as int).push(name@);
        let ghost key = name@;
        proof {
            self.lemma_edge(at as int, key);
        }
        let node = &mut self.nodes[at];
        let child = children_entry(&mut node.children, name, fresh);
        if child == fresh {
            self.nodes.push(MountNode::new(Ghost(route)));
        }
        proof {
            let before = old(self);
            assert(self.edges(at as int) == before.edges(at as int).insert(key, child));
            if child != fresh {
                assert(self.edges(at as int) =~= before.edges(at as int));
            }
            assert forall|i: int| 0 <= i < before.nodes@.len() implies #[trigger] self.route(i)
                == before.route(i) && self.slot(i) == before.slot(i) && (i != at ==> self.edges(i)
                == before.edges(i)) by {}
            if child == fresh {
                self.lemma_grown(before, at as int, key);
            } else {
                self.lemma_unchanged(before);
                assert(before@.nodes.insert(route) =~= before@.nodes);
            }
        }
        child
    }

    /// Puts `fs` into the slot of the node at index `at`.
    fn fill(&mut self, at: usize, fs: Arc<F>)
        requires
            old(self).sound(),
            at < old(self).nodes@.len(),
        ensures
            final(self).sound(),
            old(self).kept_by(final(self)),
            final(self)@.nodes == old(self)@.nodes,
            final(self)@.mounts == old(self)@.mounts.insert(old(self).route(at as int), fs),
    {
        self.nodes[at].mount = Some(fs);
        proof {
            self.lemma_filled(old(self), at as int, fs);
        }
    }

    /// Filling a slot mounts a filesystem at the place of its node.
    #[verifier::spinoff_prover]
    proof fn lemma_filled(&self, before: &Self, at: int, fs: Arc<F>)
        requires
            before.sound(),
            0 <= at < before.nodes@.len(),
            self.nodes@.len() == before.nodes@.len(),
            forall|i: int|
                #![trigger self.route(i)]
                0 <= i < before.nodes@.len() ==> self.route(i) == before.route(i) && self.edges(i)
                    == before.edges(i) && (i != at ==> self.slot(i) == before.slot(i)),
            self.slot(at) == Some(fs),
        ensures
            self.sound(),
            self@.nodes == before@.nodes,
            self@.mounts == before@.mounts.insert(before.route(at), fs),
    {
        assert forall|i: int|
            #![trigger self.route(i)]
            0 <= i < before.nodes@.len() implies self.route(i) == before.route(i) && self.edges(i)
            == before.edges(i) by {
            assert(self.route(i) == before.route(i));
            assert(self.edges(i) == before.edges(i));
        }
        self.lemma_same_places(before);
        self.lemma_sound_view();
        before.lemma_sound_view();
        let expected = before@.mounts.insert(before.route(at), fs);
        assert forall|other: Route| self@.mounts.contains_key(other) == expected.contains_key(
            other,
        ) by {
            if self@.mounts.contains_key(other) {
                let i = self.lemma_node_at(other);
                self.lemma_node(i);
                assert(self.route(i) == before.route(i));
                before.lemma_node(i);
            }
            if expected.contains_key(other) {
                if before@.mounts.contains_key(other) {
                    let i = before.lemma_node_at(other);
                    before.lemma_node(i);
                    assert(self.route(i) == before.route(i));
                    self.lemma_node(i);
                } else {
                    assert(self.route(at) == before.route(at));
                    self.lemma_node(at);
                }
            }
        }
        assert forall|other: Route| self@.mounts.contains_key(other) implies self@.mounts[other]
            == expected[other] by {
            let i = self.lemma_node_at(other);
            self.lemma_node(i);
            assert(self.route(i) == before.route(i));
            before.lemma_node(i);
        }
        assert(self@.mounts =~= expected);
    }

    /// Mount `fs` at the path described by the components from index `depth` on,
    /// relative to the node at index `at`.
    fn mount_at(
        &mut self,
        at: usize,
        components: &Vec<Vec<u8>>,
        depth: usize,
        fs: Arc<F>,
    ) -> (result: Result<(), FsError>)
        requires
            old(self).sound(),
            at < old(self).nodes@.len(),
            depth <= components@.len(),
            route_valid(names(components@)),
            old(self).route(at as int) == names(components@).take(depth as int),
        ensures
            final(self).sound(),
            old(self).kept_by(final(self)),
            old(self)@.mounts.contains_key(names(components@)) ==> result == Err::<(), FsError>(
                FsError::AlreadyExists,
            ) && final(self)@ == old(self)@,
            !old(self)@.mounts.contains_key(names(components@)) ==> result == Ok::<(), FsError>(())
                && final(self)@ == old(self)@.mounted(names(components@), fs),
        decreases components@.len() - depth,
    {
        let ghost route = names(components@);
        proof {
            self.lemma_sound_view();
            self.lemma_node(at as int);
        }
        if depth == components.len() {
            assert(route.take(depth as int) =~= route);
            if self.nodes[at].mount.is_some() {
                return Err(FsError::AlreadyExists);
            }
            self.fill(at, fs);
            assert(self@ =~= old(self)@.mounted(route, fs)) by {
                assert forall|node: Route| node.is_prefix_of(route) implies old(
                    self,
                )@.nodes.contains(node) by {
                    assert(node =~= route.take(node.len() as int));
                }
            }
            Ok(())
        } else {
            let name = components[depth].clone();
            assert(name@ =~= components@[depth as int]@);
            assert(route[depth as int] == name@);
            let ghost next = route.take(depth + 1);
            assert(next =~= route.take(depth as int).push(name@));
            let child = self.child_or_create(at, name);
            let ghost middle = *self;
            let result = self.mount_at(child, components, depth + 1, fs);
            proof {
                if old(self)@.mounts.contains_key(route) {
                    assert(old(self)@.nodes.contains(next));
                    assert(middle@.nodes =~= old(self)@.nodes);
                } else {
                    assert(next.is_prefix_of(route));
                    assert(self@ =~= old(self)@.mounted(route, fs));
                }
            }
            result
        }
    }

    /// Merge the part of `incoming` below its node at index `from` into the part
    /// below the node at index `dest`, which stands at the same place.
    fn merge_nodes(
        &mut self,
        dest: usize,
        incoming: &Self,
        from: usize,
        mode: UnionMergeMode,
    ) -> (result: Result<(), FsError>)
        requires
            old(self).sound(),
            incoming.sound(),
            dest < old(self).nodes@.len(),
            from < incoming.nodes@.len(),
            old(self).route(dest as int) == incoming.route(from as int),
        ensures
            final(self).sound(),
            old(self).kept_by(final(self)),
            old(self)@.merge_ends(
                incoming@,
                incoming.route(from as int),
                mode,
                result,
                final(self)@,
            ),
        decreases incoming.nodes@.len() - from,
    {
        let ghost base = incoming.route(from as int);
        let ghost before = *self;
        proof {
            self.lemma_sound_view();
            incoming.lemma_sound_view();
            self.lemma_node(dest as int);
            incoming.lemma_node(from as int);
        }
        // Merge the mount slot.
        if let Some(fs) = &incoming.nodes[from].mount {
            if self.nodes[dest].mount.is_some() {
                match mode {
                    UnionMergeMode::Replace => {
                        self.fill(dest, Arc::clone(fs));
                    },
                    UnionMergeMode::Skip => {},
                    UnionMergeMode::Fail => {
                        proof {
                            before@.lemma_conflict_at_once(incoming@, base);
                        }
                        return Err(FsError::AlreadyExists);
                    },
                }
            } else {
                self.fill(dest, Arc::clone(fs));
            }
        }
        let pairs = children_iter(&incoming.nodes[from].children);
        let mut k: usize = 0;
        proof {
            let done = reached(base, pairs@, 0);
            assert(done =~= set![base]);
            assert(self@ =~= before@.merged(incoming@.restricted(done), mode));
            assert(mode is Fail ==> !before@.conflicts_within(incoming@, done));
        }
        while k < pairs.len()
            invariant
                before == *old(self),
                before.sound(),
                self.sound(),
                incoming.sound(),
                dest < before.nodes@.len(),
                from < incoming.nodes@.len(),
                base == incoming.route(from as int),
                before.route(dest as int) == base,
                before.kept_by(self),
                k <= pairs@.len(),
                lists(pairs@, incoming.edges(from as int)),
                self@ == before@.merged(incoming@.restricted(reached(base, pairs@, k as int)), mode),
                mode is Fail ==> !before@.conflicts_within(
                    incoming@,
                    reached(base, pairs@, k as int),
                ),
            decreases pairs@.len() - k,
        {
            let name = pairs[k].0.clone();
            let child = pairs[k].1;
            let ghost done = reached(base, pairs@, k as int);
            let ghost next = base.push(pairs@[k as int].0@);
            proof {
                assert(name@ =~= pairs@[k as int].0@);
                assert(incoming.edges(from as int).contains_key(name@));
                assert(incoming.route(child as int) == next);
                incoming.lemma_node(child as int);
                incoming.lemma_sound_view();
                assert(route_valid(next));
                assert(next[base.len() as int] == name@);
                assert(self.route(dest as int) == base);
                self.lemma_sound_view();
            }
            let ghost reached_tree = self@;
            let dest_child = self.child_or_create(dest, name);
            let ghost grown = self@;
            let step = self.merge_nodes(dest_child, incoming, child, mode);
            proof {
                assert(before.kept_by(self));
                assert forall|route: Route| below(next).contains(route) implies !done.contains(
                    route,
                ) by {
                    lemma_not_reached(base, pairs@, k as int, route);
                }
                assert(grown.mounts == reached_tree.mounts);
                assert(mode is Fail ==> grown.conflicts_within(incoming@, below(next))
                    == before@.conflicts_within(incoming@, below(next)));
            }
            if let Err(error) = step {
                proof {
                    before.lemma_sound_view();
                    before.lemma_node(dest as int);
                    before@.lemma_interrupted_below(
                        incoming@,
                        base,
                        pairs@,
                        k as int,
                        grown,
                        self@,
                    );
                }
                return Err(error);
            }
            proof {
                assert(below(next).contains(next));
                reached_tree.lemma_merged_with_node(next, incoming@.restricted(below(next)), mode);
                before@.lemma_merged_twice(incoming@, done, below(next), mode);
                lemma_reached_next(base, pairs@, k as int);
            }
            k += 1;
        }
        proof {
            incoming.lemma_sound_view();
            let done = reached(base, pairs@, k as int);
            assert forall|route: Route| incoming@.nodes.contains(route) implies done.contains(route)
                == below(base).contains(route) by {
                if below(base).contains(route) && route != base {
                    if route.len() == base.len() {
                        assert(route =~= base);
                    }
                    let child = route.take(base.len() as int + 1);
                    let name = route[base.len() as int];
                    assert(child =~= base.push(name));
                    incoming.lemma_edge(from as int, name);
                    assert(incoming.edges(from as int).contains_key(name));
                    let j = choose|j: int| 0 <= j < pairs@.len() && #[trigger] pairs@[j].0@ == name;
                    assert(base.push(pairs@[j].0@).is_prefix_of(route));
                }
            }
            assert(incoming@.restricted(done) =~= incoming@.restricted(below(base)));
        }
        Ok(())
    }

    /// The index of the node that `components` lead to, if there is one.
    fn locate(&self, components: &Vec<Vec<u8>>) -> (found: Option<usize>)
        requires
            self.sound(),
        ensures
            match found {
                Some(i) => self.stands(i as int, names(components@)),
                None => !self@.nodes.contains(names(components@)),
            },
    {
        let ghost route = names(components@);
        let mut node: usize = 0;
        let mut i: usize = 0;
        assert(route.take(0) =~= Seq::empty());
        while i < components.len()
            invariant
                self.sound(),
                route == names(components@),
                i <= components@.len(),
                self.stands(node as int, route.take(i as int)),
            decreases components@.len() - i,
        {
            let child = children_get(&self.nodes[node].children, components[i].as_slice());
            proof {
                assert(route[i as int] == components@[i as int]@);
                assert(route.take(i + 1) =~= route.take(i as int).push(route[i as int]));
                self.lemma_edge(node as int, route[i as int]);
                self.lemma_sound_view();
            }
            match child {
                None => {
                    proof {
                        self@.lemma_mount_point_beyond(route, i as int);
                    }
                    return None;
                },
                Some(child_node) => {
                    assert(self.edges(node as int).contains_key(route[i as int]));
                    node = child_node;
                },
            }
            i += 1;
        }
        assert(route.take(i as int) =~= route);
        Some(node)
    }

    /// The nodes make up a tree, and each of its branches leads to a mount.
    pub(crate) closed spec fn wf(&self) -> bool {
        self.sound() && self@.no_dead_ends()
    }

    /// The tree that the nodes make up is well-formed, and each of its branches
    /// leads to a mount.
    pub(crate) proof fn lemma_wf(&self)
        requires
            self.wf(),
        ensures
            self@.wf(),
            self@.no_dead_ends(),
    {
        self.lemma_sound_view();
    }

    /// A root without a mount, and nothing else.
    pub(crate) fn new() -> (table: Self)
        ensures
            table.wf(),
            table@ == MountTree::<F>::empty(),
    {
        let root: MountNode<F> = MountNode::new(Ghost(Seq::empty()));
        let mut nodes: Vec<MountNode<F>> = Vec::new();
        nodes.push(root);
        let table = MountTable { nodes };
        proof {
            assert(table.sound());
            assert(table.stands(0, Seq::empty()));
            assert(table@ =~= MountTree::<F>::empty());
        }
        table
    }

    /// Nodes of their own that make up the same tree, and share the mounted
    /// filesystems.
    pub(crate) fn deep_clone(&self) -> (copy: Self)
        requires
            self.wf(),
        ensures
            copy.wf(),
            copy@ == self@,
    {
        let mut nodes: Vec<MountNode<F>> = Vec::new();
        let mut i: usize = 0;
        while i < self.nodes.len()
            invariant
                i <= self.nodes@.len(),
                nodes@.len() == i,
                forall|j: int|
                    #![trigger nodes@[j]]
                    0 <= j < i ==> nodes@[j].mount == self.nodes@[j].mount && nodes@[j].route
                        == self.nodes@[j].route && children_map(nodes@[j].children)
                        == children_map(self.nodes@[j].children),
            decreases self.nodes@.len() - i,
        {
            nodes.push(self.nodes[i].deep_clone());
            i += 1;
        }
        let copy = MountTable { nodes };
        proof {
            copy.lemma_unchanged(self);
        }
        copy
    }

    /// Mounts `fs` at the place that `components` lead to.
    pub(crate) fn mount(&mut self, components: &Vec<Vec<u8>>, fs: Arc<F>) -> (result: Result<
        (),
        FsError,
    >)
        requires
            old(self).wf(),
            route_valid(names(components@)),
        ensures
            final(self).wf(),
            old(self)@.mounts.contains_key(names(components@)) ==> result == Err::<(), FsError>(
                FsError::AlreadyExists,
            ) && final(self)@ == old(self)@,
            !old(self)@.mounts.contains_key(names(components@)) ==> result == Ok::<(), FsError>(())
                && final(self)@ == old(self)@.mounted(names(components@), fs),
    {
        assert(names(components@).take(0) =~= Seq::empty());
        let result = self.mount_at(0, components, 0, fs);
        proof {
            old(self)@.lemma_mounted_no_dead_ends(names(components@), fs);
        }
        result
    }

    /// Merges the tree of `other` into this one.
    pub(crate) fn merge(&mut self, other: &Self, mode: UnionMergeMode) -> (result: Result<
        (),
        FsError,
    >)
        requires
            old(self).wf(),
            other.wf(),
        ensures
            final(self).wf(),
            result is Err <==> mode is Fail && old(self)@.conflicts(other@),
            match result {
                Ok(_) => final(self)@ == old(self)@.merged(other@, mode),
                Err(error) => error == FsError::AlreadyExists && old(self)@.interrupted(
                    other@,
                    Seq::empty(),
                    final(self)@,
                ),
            },
    {
        let result = self.merge_nodes(0, other, 0, mode);
        proof {
            other.lemma_wf();
            law_merge_of_the_whole(old(self)@, other@, mode, result, self@);
            if result is Ok {
                old(self)@.lemma_merged_no_dead_ends(other@, mode);
            } else {
                old(self).lemma_wf();
                old(self)@.lemma_interrupted_no_dead_ends(other@, Seq::empty(), self@);
            }
        }
        result
    }

    /// The node at the place that `components` lead to, if there is one.
    pub(crate) fn find(&self, components: &Vec<Vec<u8>>) -> (found: Option<&MountNode<F>>)
        requires
            self.wf(),
        ensures
            match found {
                Some(node) => node.stands_in(self@, names(components@)),
                None => !self@.nodes.contains(names(components@)),
            },
    {
        match self.locate(components) {
            Some(i) => {
                proof {
                    let route = names(components@);
                    assert(self.stands(i as int, route));
                    self.lemma_node(i as int);
                    assert forall|name: Name| self.edges(i as int).contains_key(name)
                        == self@.child_names(route).contains(name) by {
                        self.lemma_edge(i as int, name);
                    }
                    assert(self.edges(i as int).dom() =~= self@.child_names(route));
                }
                Some(&self.nodes[i])
            },
            None => None,
        }
    }

    /// `best` is what is mounted at the mount point of `route`, and `depth` the
    /// number of names that lead there.
    spec fn best_at(&self, best: Option<Arc<F>>, depth: int, route: Route) -> bool {
        match (best, self@.mount_point(route)) {
            (Some(fs), Some(point)) => fs == self@.mounts[point] && depth == point.len(),
            (None, None) => true,
            _ => false,
        }
    }

    /// Walks along `components` and finds the deepest mounted node on the way:
    /// what is mounted there, and how many of `components` lead there.
    pub(crate) fn resolve(&self, components: &Vec<Vec<u8>>) -> (found: Option<(Arc<F>, usize)>)
        requires
            self.wf(),
        ensures
            match (found, self@.mount_point(names(components@))) {
                (Some((fs, depth)), Some(point)) => fs == self@.mounts[point] && depth
                    == point.len() && depth <= components@.len(),
                (None, None) => true,
                _ => false,
            },
    {
        let ghost route = names(components@);
        let mut node: usize = 0;
        let mut best: Option<Arc<F>> = self.nodes[0].mount();
        let mut best_depth: usize = 0;
        let mut i: usize = 0;
        proof {
            assert(route.take(0) =~= Seq::empty());
            self.lemma_node(0);
        }
        while i < components.len()
            invariant_except_break
                self.stands(node as int, route.take(i as int)),
                self.best_at(best, best_depth as int, route.take(i as int)),
                best_depth <= i,
                i == components@.len() ==> route.take(i as int) == route,
            invariant
                self.sound(),
                route == names(components@),
                i <= components@.len(),
            ensures
                self.best_at(best, best_depth as int, route),
                best_depth <= components@.len(),
            decreases components@.len() - i,
        {
            let child = children_get(&self.nodes[node].children, components[i].as_slice());
            proof {
                assert(route[i as int] == components@[i as int]@);
                assert(route.take(i + 1) =~= route.take(i as int).push(route[i as int]));
                assert(route.take(i + 1).drop_last() =~= route.take(i as int));
                self.lemma_edge(node as int, route[i as int]);
                self.lemma_sound_view();
            }
            match child {
                None => {
                    proof {
                        self@.lemma_mount_point_beyond(route, i as int);
                    }
                    break;
                },
                Some(child_node) => {
                    assert(self.edges(node as int).contains_key(route[i as int]));
                    proof {
                        self.lemma_node(child_node as int);
                    }
                    if let Some(fs) = self.nodes[child_node].mount() {
                        best = Some(fs);
                        best_depth = i + 1;
                    }
                    node = child_node;
                },
            }
            i += 1;
            assert(i == components@.len() ==> route.take(i as int) =~= route);
        }
        match best {
            Some(fs) => Some((fs, best_depth)),
            None => None,
        }
    }
}

} // verus!
