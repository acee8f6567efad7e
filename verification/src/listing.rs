//! Directory listings as they appear in the mount tree.

use vstd::prelude::*;

use crate::fs::{branch_metadata, directory_metadata, entry_views, DirEntry, DirEntryView, ReadDir};
use crate::path::{
    bytes_equal, collect_path, collected, components, components_of, file_name, file_name_of, join,
    joined, names, ComponentView, Name,
};

verus! {

/// What follows the first of `parts`.
pub open spec fn after_first(parts: Seq<ComponentView>) -> Seq<ComponentView> {
    if parts.len() > 0 {
        parts.skip(1)
    } else {
        parts
    }
}

/// `path` with its first component, the root of its filesystem, replaced by
/// `prefix`.
pub open spec fn rebased_path(path: Seq<u8>, prefix: Seq<u8>) -> Seq<u8> {
    joined(prefix, collected(after_first(components_of(path))))
}

/// `entry` as it appears below `prefix`.
pub open spec fn rebased(entry: DirEntryView, prefix: Seq<u8>) -> DirEntryView {
    DirEntryView { path: rebased_path(entry.path, prefix), metadata: entry.metadata }
}

/// `entries` as they appear below `prefix`, in their order.
pub open spec fn rebased_all(entries: Seq<DirEntryView>, prefix: Seq<u8>) -> Seq<DirEntryView> {
    entries.map_values(|entry: DirEntryView| rebased(entry, prefix))
}

/// The entry of a child mount.
pub open spec fn child_entry(prefix: Seq<u8>, name: Name) -> DirEntryView {
    DirEntryView { path: joined(prefix, name), metadata: Ok(branch_metadata()) }
}

/// The entries of the child mounts `children`, in their order.
pub open spec fn child_entries(prefix: Seq<u8>, children: Seq<Name>) -> Seq<DirEntryView> {
    children.map_values(|name: Name| child_entry(prefix, name))
}

/// A child mount hides `entry`: it has the same name.
pub open spec fn shadowed(entry: DirEntryView, children: Set<Name>) -> bool {
    match file_name_of(entry.path) {
        Some(name) => children.contains(name),
        None => false,
    }
}

/// Those of `entries` that no child mount hides, in their order.
pub open spec fn unshadowed(entries: Seq<DirEntryView>, children: Set<Name>) -> Seq<DirEntryView> {
    entries.filter(|entry: DirEntryView| !shadowed(entry, children))
}

/// The listing of a node: what the filesystem that is mounted there lists, as
/// far as no child mount hides it, and then the child mounts.
pub open spec fn overlaid(
    base: Seq<DirEntryView>,
    prefix: Seq<u8>,
    children: Seq<Name>,
) -> Seq<DirEntryView> {
    unshadowed(rebased_all(base, prefix), children.to_set()) + child_entries(prefix, children)
}

/// `listing` is the listing of a node with the child mounts `children`, in some
/// order.
pub open spec fn lists_node(
    listing: Seq<DirEntryView>,
    base: Seq<DirEntryView>,
    prefix: Seq<u8>,
    children: Set<Name>,
) -> bool {
    exists|order: Seq<Name>|
        order.no_duplicates() && order.to_set() == children && listing == #[trigger] overlaid(
            base,
            prefix,
            order,
        )
}

/// Replaces the root of the paths of `entries` by `prefix`.
pub fn rebase_entries(entries: &mut ReadDir, prefix: &[u8])
    ensures
        final(entries)@ == rebased_all(old(entries)@, prefix@),
{
    let mut i: usize = 0;
    let ghost before = entries.data@;
    while i < entries.data.len()
        invariant
            before == old(entries).data@,
            i <= entries.data@.len(),
            entries.data@.len() == before.len(),
            forall|j: int|
                #![trigger entries.data@[j]]
                0 <= j < i ==> entries.data@[j]@ == rebased(before[j]@, prefix@),
            forall|j: int|
                #![trigger entries.data@[j]]
                i <= j < before.len() ==> entries.data@[j] == before[j],
        decreases entries.data@.len() - i,
    {
        let parts = components(entries.data[i].path.as_slice());
        let suffix = collect_path(&parts, 1);
        proof {
            let views = components_of(before[i as int].path@);
            assert(views.len() == parts@.len());
            assert(views.len() == 0 ==> after_first(views) =~= Seq::empty());
        }
        let path = join(prefix, suffix.as_slice());
        entries.data[i].path = path;
        i += 1;
    }
    assert(entries@ =~= rebased_all(old(entries)@, prefix@));
}

/// Whether `name` is one of `listed`.
fn contains_name(listed: &Vec<Vec<u8>>, name: &[u8]) -> (found: bool)
    ensures
        found == names(listed@).to_set().contains(name@),
{
    let mut i: usize = 0;
    while i < listed.len()
        invariant
            i <= listed@.len(),
            forall|j: int| 0 <= j < i ==> #[trigger] listed@[j]@ != name@,
        decreases listed@.len() - i,
    {
        if bytes_equal(listed[i].as_slice(), name) {
            assert(names(listed@)[i as int] == name@);
            return true;
        }
        i += 1;
    }
    assert forall|j: int| 0 <= j < names(listed@).len() implies names(listed@)[j] != name@ by {
        assert(listed@[j]@ != name@);
    }
    false
}

/// The listing of a node at `prefix` with the child mounts `children`, where
/// `base` is what the filesystem that is mounted there lists.
pub fn overlay_entries(base: ReadDir, prefix: &[u8], children: &Vec<Vec<u8>>) -> (listing: ReadDir)
    ensures
        listing@ == overlaid(base@, prefix@, names(children@)),
{
    let mut base = base;
    let ghost hidden = names(children@).to_set();
    let ghost pred = |entry: DirEntryView| !shadowed(entry, hidden);
    rebase_entries(&mut base, prefix);
    let ghost all = base@;
    let mut entries: Vec<DirEntry> = Vec::new();
    proof {
        reveal(Seq::filter);
        assert(entry_views(entries@) =~= all.take(0).filter(pred));
    }
    for entry in iter: base.data
        invariant
            entry_views(iter.seq()) == all,
            hidden == names(children@).to_set(),
            pred == (|entry: DirEntryView| !shadowed(entry, hidden)),
            entry_views(entries@) == all.take(iter.index()).filter(pred),
    {
        proof {
            reveal(Seq::filter);
            assert(all.take(iter.index() + 1).drop_last() =~= all.take(iter.index()));
            assert(all[iter.index()] == entry@);
        }
        let hides = match file_name(entry.path.as_slice()) {
            Some(name) => contains_name(children, name.as_slice()),
            None => false,
        };
        let ghost kept = entries@;
        if !hides {
            entries.push(entry);
            assert(entry_views(entries@) =~= entry_views(kept).push(entry@));
        }
    }
    assert(all.take(all.len() as int) =~= all);
    let ghost visible = entry_views(entries@);
    let ghost order = names(children@);
    assert(visible == unshadowed(all, hidden));
    let mut i: usize = 0;
    assert(visible + child_entries(prefix@, order.take(0)) =~= visible);
    while i < children.len()
        invariant
            order == names(children@),
            i <= children@.len(),
            entry_views(entries@) == visible + child_entries(prefix@, order.take(i as int)),
        decreases children@.len() - i,
    {
        let path = join(prefix, children[i].as_slice());
        let ghost kept = entries@;
        let entry = DirEntry { path, metadata: Ok(directory_metadata()) };
        entries.push(entry);
        proof {
            assert(entry@ == child_entry(prefix@, order[i as int]));
            assert(entry_views(entries@) =~= entry_views(kept).push(entry@));
            assert(child_entries(prefix@, order.take(i + 1)) =~= child_entries(
                prefix@,
                order.take(i as int),
            ).push(entry@));
        }
        i += 1;
    }
    assert(order.take(order.len() as int) =~= order);
    ReadDir::new(entries)
}

} // verus!
