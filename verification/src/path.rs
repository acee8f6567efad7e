//! Paths as byte strings.
//!
//! A path is a sequence of bytes in which `/` separates the segments, as on
//! Unix. These are the paths of the mount tree, and they are written the same on
//! every platform: whoever has a path of an operating system with other
//! separators, or with a drive in front, writes down its components. Nothing here
//! assumes that a path is valid UTF-8.

use vstd::prelude::*;

verus! {

/// The byte that separates two segments of a path: `/`.
pub const SEPARATOR: u8 = 0x2f;

/// The byte that the segments `.` and `..` are made of.
pub const DOT: u8 = 0x2e;

/// The name of one entry in a directory.
pub type Name = Seq<u8>;

/// The names that lead from the root to a place in the tree.
pub type Route = Seq<Seq<u8>>;

/// The names that a vector of byte vectors holds.
pub open spec fn names(items: Seq<Vec<u8>>) -> Route {
    items.map_values(|item: Vec<u8>| item@)
}

/// What stands between the separators of `path`, read from left to right: a
/// separator opens a new segment, any other byte extends the last one.
pub open spec fn segments(path: Seq<u8>) -> Seq<Seq<u8>>
    decreases path.len(),
{
    if path.len() == 0 {
        seq![Seq::empty()]
    } else {
        let before = segments(path.drop_last());
        if path.last() == SEPARATOR {
            before.push(Seq::empty())
        } else {
            before.update(before.len() - 1, before.last().push(path.last()))
        }
    }
}

/// The segment `.`.
pub open spec fn is_cur_dir(segment: Seq<u8>) -> bool {
    segment.len() == 1 && segment[0] == DOT
}

/// The segment `..`.
pub open spec fn is_parent_dir(segment: Seq<u8>) -> bool {
    segment.len() == 2 && segment[0] == DOT && segment[1] == DOT
}

/// A segment that names a directory entry: neither empty, nor `.`, nor `..`.
pub open spec fn names_entry(segment: Seq<u8>) -> bool {
    segment.len() > 0 && !is_cur_dir(segment) && !is_parent_dir(segment)
}

/// What an entry of a directory can be called.
pub open spec fn is_name(name: Name) -> bool {
    names_entry(name) && !name.contains(SEPARATOR)
}

/// Every item of `route` is a name.
pub open spec fn route_valid(route: Route) -> bool {
    forall|i: int| 0 <= i < route.len() ==> is_name(#[trigger] route[i])
}

/// The segments among `parts` that name a directory entry, in their order.
pub open spec fn entry_names(parts: Seq<Seq<u8>>) -> Route {
    parts.filter(|part: Seq<u8>| names_entry(part))
}

/// The names that `path` goes through. Leading, doubled and trailing
/// separators, `.` and `..` are passed over: `..` does not cancel a name.
pub open spec fn route_of(path: Seq<u8>) -> Route {
    entry_names(segments(path))
}

/// What a component of a path is.
pub enum ComponentView {
    RootDir,
    CurDir,
    ParentDir,
    Normal(Name),
}

/// One component of a path.
#[derive(Debug, PartialEq, Eq)]
pub enum Component {
    /// The separator that an absolute path starts with.
    RootDir,
    /// A `.` that a relative path starts with.
    CurDir,
    /// A `..`.
    ParentDir,
    /// The name of an entry.
    Normal(Vec<u8>),
}

impl View for Component {
    type V = ComponentView;

    open spec fn view(&self) -> ComponentView {
        match self {
            Component::RootDir => ComponentView::RootDir,
            Component::CurDir => ComponentView::CurDir,
            Component::ParentDir => ComponentView::ParentDir,
            Component::Normal(name) => ComponentView::Normal(name@),
        }
    }
}

/// The components that a vector holds.
pub open spec fn component_views(items: Seq<Component>) -> Seq<ComponentView> {
    items.map_values(|item: Component| item@)
}

/// The component that a segment stands for, if it stands for one. A `.` counts
/// only as the first segment of a path.
pub open spec fn segment_component(segment: Seq<u8>, first: bool) -> Option<ComponentView> {
    if segment.len() == 0 {
        None
    } else if is_cur_dir(segment) {
        if first {
            Some(ComponentView::CurDir)
        } else {
            None
        }
    } else if is_parent_dir(segment) {
        Some(ComponentView::ParentDir)
    } else {
        Some(ComponentView::Normal(segment))
    }
}

/// The components that the segments `parts` of one path stand for.
pub open spec fn segment_components(parts: Seq<Seq<u8>>) -> Seq<ComponentView>
    decreases parts.len(),
{
    if parts.len() == 0 {
        Seq::empty()
    } else {
        let before = segment_components(parts.drop_last());
        match segment_component(parts.last(), parts.len() == 1) {
            Some(component) => before.push(component),
            None => before,
        }
    }
}

/// Whether `path` starts with a separator.
pub open spec fn is_absolute(path: Seq<u8>) -> bool {
    path.len() > 0 && path[0] == SEPARATOR
}

/// The components of `path`.
pub open spec fn components_of(path: Seq<u8>) -> Seq<ComponentView> {
    let root: Seq<ComponentView> = if is_absolute(path) {
        seq![ComponentView::RootDir]
    } else {
        Seq::empty()
    };
    root + segment_components(segments(path))
}

/// The last component of `path`, where it is a name.
pub open spec fn file_name_of(path: Seq<u8>) -> Option<Name> {
    let parts = components_of(path);
    if parts.len() > 0 {
        match parts.last() {
            ComponentView::Normal(name) => Some(name),
            _ => None,
        }
    } else {
        None
    }
}

/// `tail` taken as a path that starts at `base`: an absolute `tail` replaces
/// `base`, any other is put behind it, with one separator between the two
/// where `base` is not empty and does not end in one.
pub open spec fn joined(base: Seq<u8>, tail: Seq<u8>) -> Seq<u8> {
    if is_absolute(tail) {
        tail
    } else if base.len() > 0 && base.last() != SEPARATOR {
        base.push(SEPARATOR) + tail
    } else {
        base + tail
    }
}

/// How a component is written in a path.
pub open spec fn component_text(component: ComponentView) -> Seq<u8> {
    match component {
        ComponentView::RootDir => seq![SEPARATOR],
        ComponentView::CurDir => seq![DOT],
        ComponentView::ParentDir => seq![DOT, DOT],
        ComponentView::Normal(name) => name,
    }
}

/// The path that `parts` make up, each joined to those before it.
pub open spec fn collected(parts: Seq<ComponentView>) -> Seq<u8>
    decreases parts.len(),
{
    if parts.len() == 0 {
        Seq::empty()
    } else {
        joined(collected(parts.drop_last()), component_text(parts.last()))
    }
}

/// The names of `route`, each behind a separator.
pub open spec fn slashed(route: Route) -> Seq<u8>
    decreases route.len(),
{
    if route.len() == 0 {
        Seq::empty()
    } else {
        slashed(route.drop_last()).push(SEPARATOR) + route.last()
    }
}

/// The absolute path that goes through the names of `route`.
pub open spec fn absolute(route: Route) -> Seq<u8> {
    if route.len() == 0 {
        seq![SEPARATOR]
    } else {
        slashed(route)
    }
}

pub proof fn lemma_segments_nonempty(path: Seq<u8>)
    ensures
        segments(path).len() > 0,
    decreases path.len(),
{
    if path.len() > 0 {
        lemma_segments_nonempty(path.drop_last());
    }
}

/// No segment of a path holds a separator.
pub proof fn lemma_segments_hold_no_separator(path: Seq<u8>)
    ensures
        forall|i: int|
            0 <= i < segments(path).len() ==> !(#[trigger] segments(path)[i]).contains(SEPARATOR),
    decreases path.len(),
{
    if path.len() > 0 {
        let before = segments(path.drop_last());
        lemma_segments_hold_no_separator(path.drop_last());
        lemma_segments_nonempty(path.drop_last());
        assert forall|i: int| 0 <= i < segments(path).len() implies !(#[trigger] segments(
            path,
        )[i]).contains(SEPARATOR) by {
            if i < before.len() {
                assert(!before[i].contains(SEPARATOR));
                if path.last() != SEPARATOR && i == before.len() - 1 {
                    let part = before[i].push(path.last());
                    assert forall|j: int| 0 <= j < part.len() implies part[j] != SEPARATOR by {
                        if j < before[i].len() {
                            assert(before[i].contains(before[i][j]));
                        }
                    }
                }
            }
        }
    }
}

/// The route of a path consists of names.
pub proof fn lemma_route_valid(path: Seq<u8>)
    ensures
        route_valid(route_of(path)),
{
    let parts = segments(path);
    let pred = |part: Seq<u8>| names_entry(part);
    lemma_segments_hold_no_separator(path);
    lemma_filter_from(parts, pred);
    assert forall|i: int| 0 <= i < route_of(path).len() implies is_name(
        #[trigger] route_of(path)[i],
    ) by {
        parts.lemma_filter_pred(pred, i);
        assert(route_of(path) == parts.filter(pred));
        assert(pred(parts.filter(pred)[i]));
        assert(parts.contains(parts.filter(pred)[i]));
    }
}

/// What a filter keeps was there before.
proof fn lemma_filter_from<A>(items: Seq<A>, pred: spec_fn(A) -> bool)
    ensures
        forall|i: int|
            0 <= i < items.filter(pred).len() ==> items.contains(#[trigger] items.filter(pred)[i]),
    decreases items.len(),
{
    reveal(Seq::filter);
    if items.len() > 0 {
        let init = items.drop_last();
        lemma_filter_from(init, pred);
        assert forall|i: int| 0 <= i < items.filter(pred).len() implies items.contains(
            #[trigger] items.filter(pred)[i],
        ) by {
            if i < init.filter(pred).len() {
                assert(init.contains(init.filter(pred)[i]));
                let j = choose|j: int| 0 <= j < init.len() && init[j] == init.filter(pred)[i];
                assert(items[j] == items.filter(pred)[i]);
            } else {
                assert(items[items.len() - 1] == items.filter(pred)[i]);
            }
        }
    }
}

proof fn lemma_names_push(items: Seq<Vec<u8>>, item: Vec<u8>)
    ensures
        names(items.push(item)) == names(items).push(item@),
{
    assert(names(items.push(item)) =~= names(items).push(item@));
}

/// Splits `path` at its separators.
fn split(path: &[u8]) -> (parts: Vec<Vec<u8>>)
    ensures
        names(parts@) == segments(path@),
        parts@.len() > 0,
{
    let mut parts: Vec<Vec<u8>> = Vec::new();
    let mut current: Vec<u8> = Vec::new();
    let mut i: usize = 0;
    assert(path@.take(0) =~= Seq::empty());
    assert(names(parts@).push(current@) =~= segments(path@.take(0)));
    while i < path.len()
        invariant
            i <= path@.len(),
            names(parts@).push(current@) == segments(path@.take(i as int)),
        decreases path@.len() - i,
    {
        let byte = path[i];
        assert(path@.take(i + 1).drop_last() =~= path@.take(i as int));
        let ghost before = names(parts@).push(current@);
        if byte == SEPARATOR {
            proof {
                lemma_names_push(parts@, current);
            }
            parts.push(current);
            current = Vec::new();
            assert(names(parts@).push(current@) =~= before.push(Seq::empty()));
        } else {
            let ghost last = current@;
            current.push(byte);
            assert(names(parts@).push(current@) =~= before.update(
                before.len() - 1,
                last.push(byte),
            ));
        }
        i += 1;
    }
    assert(path@.take(i as int) =~= path@);
    proof {
        lemma_names_push(parts@, current);
    }
    parts.push(current);
    parts
}

/// Whether `segment` is `.`.
fn check_cur_dir(segment: &Vec<u8>) -> (b: bool)
    ensures
        b == is_cur_dir(segment@),
{
    segment.len() == 1 && segment[0] == DOT
}

/// Whether `segment` is `..`.
fn check_parent_dir(segment: &Vec<u8>) -> (b: bool)
    ensures
        b == is_parent_dir(segment@),
{
    segment.len() == 2 && segment[0] == DOT && segment[1] == DOT
}

/// The names that `path` goes through, without its root, `.` and `..`.
pub fn normalize_path_components(path: &[u8]) -> (components: Vec<Vec<u8>>)
    ensures
        names(components@) == route_of(path@),
{
    let parts = split(path);
    let mut components: Vec<Vec<u8>> = Vec::new();
    proof {
        reveal(Seq::filter);
        assert(names(components@) =~= entry_names(segments(path@).take(0)));
    }
    for part in iter: parts
        invariant
            names(iter.seq()) == segments(path@),
            names(components@) == entry_names(segments(path@).take(iter.index())),
    {
        let ghost done = segments(path@).take(iter.index());
        proof {
            reveal(Seq::filter);
            assert(segments(path@).take(iter.index() + 1).drop_last() =~= done);
            assert(segments(path@)[iter.index()] == part@);
            lemma_names_push(components@, part);
        }
        if part.len() > 0 && !check_cur_dir(&part) && !check_parent_dir(&part) {
            components.push(part);
        }
    }
    assert(segments(path@).take(segments(path@).len() as int) =~= segments(path@));
    components
}

/// The component that `segment` stands for, if it stands for one.
fn component_of_segment(segment: Vec<u8>, first: bool) -> (component: Option<Component>)
    ensures
        segment_component(segment@, first) == (match component {
            Some(found) => Some(found@),
            None => None,
        }),
{
    if segment.len() == 0 {
        None
    } else if check_cur_dir(&segment) {
        if first {
            Some(Component::CurDir)
        } else {
            None
        }
    } else if check_parent_dir(&segment) {
        Some(Component::ParentDir)
    } else {
        Some(Component::Normal(segment))
    }
}

/// The components of `path`, in their order.
pub fn components(path: &[u8]) -> (parts: Vec<Component>)
    ensures
        component_views(parts@) == components_of(path@),
{
    let pieces = split(path);
    let mut parts: Vec<Component> = Vec::new();
    if path.len() > 0 && path[0] == SEPARATOR {
        parts.push(Component::RootDir);
    }
    let ghost root = component_views(parts@);
    assert(root + segment_components(segments(path@)) =~= components_of(path@));
    assert(component_views(parts@) =~= root + segment_components(segments(path@).take(0)));
    let mut first = true;
    for piece in iter: pieces
        invariant
            names(iter.seq()) == segments(path@),
            first == (iter.index() == 0),
            component_views(parts@) == root + segment_components(
                segments(path@).take(iter.index()),
            ),
    {
        let ghost done = segments(path@).take(iter.index());
        let ghost next = segments(path@).take(iter.index() + 1);
        let ghost before = parts@;
        proof {
            assert(next.drop_last() =~= done);
            assert(segments(path@)[iter.index()] == piece@);
        }
        if let Some(component) = component_of_segment(piece, first) {
            parts.push(component);
            assert(component_views(parts@) =~= component_views(before).push(component@));
            assert(component_views(parts@) =~= root + segment_components(next));
        }
        first = false;
    }
    assert(segments(path@).take(segments(path@).len() as int) =~= segments(path@));
    parts
}

/// The name of the entry that `path` leads to, unless its last component is the
/// root, a `.` or a `..`, or there is none.
pub fn file_name(path: &[u8]) -> (name: Option<Vec<u8>>)
    ensures
        file_name_of(path@) == (match name {
            Some(found) => Some(found@),
            None => None,
        }),
{
    let mut parts = components(path);
    let ghost views = component_views(parts@);
    match parts.pop() {
        Some(last) => {
            assert(views.last() == last@);
            match last {
                Component::Normal(name) => Some(name),
                _ => None,
            }
        },
        None => None,
    }
}

/// Appends the bytes of `tail` to `base`.
fn append_bytes(base: &mut Vec<u8>, tail: &[u8])
    ensures
        final(base)@ == old(base)@ + tail@,
{
    let mut i: usize = 0;
    assert(base@ =~= old(base)@ + tail@.take(0));
    while i < tail.len()
        invariant
            i <= tail@.len(),
            base@ == old(base)@ + tail@.take(i as int),
        decreases tail@.len() - i,
    {
        base.push(tail[i]);
        i += 1;
        assert(base@ =~= old(base)@ + tail@.take(i as int));
    }
    assert(tail@.take(i as int) =~= tail@);
}

/// Whether two byte strings are equal.
pub(crate) fn bytes_equal(a: &[u8], b: &[u8]) -> (equal: bool)
    ensures
        equal == (a@ == b@),
{
    if a.len() != b.len() {
        return false;
    }
    let mut i: usize = 0;
    while i < a.len()
        invariant
            i <= a@.len(),
            a@.len() == b@.len(),
            forall|j: int| 0 <= j < i ==> a@[j] == b@[j],
        decreases a@.len() - i,
    {
        if a[i] != b[i] {
            return false;
        }
        i += 1;
    }
    assert(a@ =~= b@);
    true
}

/// `tail` taken as a path that starts at `base`.
pub fn join(base: &[u8], tail: &[u8]) -> (path: Vec<u8>)
    ensures
        path@ == joined(base@, tail@),
{
    let mut path: Vec<u8> = Vec::new();
    if tail.len() > 0 && tail[0] == SEPARATOR {
        append_bytes(&mut path, tail);
        assert(path@ =~= tail@);
        return path;
    }
    append_bytes(&mut path, base);
    assert(path@ =~= base@);
    if base.len() > 0 && base[base.len() - 1] != SEPARATOR {
        path.push(SEPARATOR);
    }
    append_bytes(&mut path, tail);
    path
}

/// The path that the components from index `start` on make up.
pub fn collect_path(parts: &Vec<Component>, start: usize) -> (path: Vec<u8>)
    ensures
        path@ == collected(
            if start <= parts@.len() {
                component_views(parts@).skip(start as int)
            } else {
                Seq::empty()
            },
        ),
{
    let mut path: Vec<u8> = Vec::new();
    let mut i: usize = start;
    let ghost views = component_views(parts@);
    if start <= parts.len() {
        assert(views.subrange(start as int, start as int) =~= Seq::empty());
    }
    while i < parts.len()
        invariant
            views == component_views(parts@),
            start <= i,
            start <= parts@.len() ==> i <= parts@.len() && path@ == collected(
                views.subrange(start as int, i as int),
            ),
            start > parts@.len() ==> path@ == Seq::<u8>::empty(),
        decreases parts@.len() - i,
    {
        let ghost next = views.subrange(start as int, i + 1);
        assert(next.drop_last() =~= views.subrange(start as int, i as int));
        assert(next.last() == parts@[i as int]@);
        path = match &parts[i] {
            Component::RootDir => {
                let text = [SEPARATOR];
                assert(text@ =~= seq![SEPARATOR]);
                join(path.as_slice(), &text)
            },
            Component::CurDir => {
                let text = [DOT];
                assert(text@ =~= seq![DOT]);
                join(path.as_slice(), &text)
            },
            Component::ParentDir => {
                let text = [DOT, DOT];
                assert(text@ =~= seq![DOT, DOT]);
                join(path.as_slice(), &text)
            },
            Component::Normal(name) => join(path.as_slice(), name.as_slice()),
        };
        i += 1;
    }
    if start <= parts.len() {
        assert(views.subrange(start as int, i as int) =~= views.skip(start as int));
    }
    path
}

/// The absolute path that goes through the names of `route` from index `start`
/// on.
pub fn absolute_path(route: &Vec<Vec<u8>>, start: usize) -> (path: Vec<u8>)
    requires
        start <= route@.len(),
    ensures
        path@ == absolute(names(route@).skip(start as int)),
{
    let mut path: Vec<u8> = Vec::new();
    let mut i: usize = start;
    let ghost all = names(route@);
    assert(all.subrange(start as int, start as int) =~= Seq::empty());
    while i < route.len()
        invariant
            all == names(route@),
            start <= i <= route@.len(),
            path@ == slashed(all.subrange(start as int, i as int)),
        decreases route@.len() - i,
    {
        let ghost next = all.subrange(start as int, i + 1);
        assert(next.drop_last() =~= all.subrange(start as int, i as int));
        assert(next.last() == route@[i as int]@);
        path.push(SEPARATOR);
        append_bytes(&mut path, route[i].as_slice());
        i += 1;
    }
    assert(all.subrange(start as int, i as int) =~= all.skip(start as int));
    if start == route.len() {
        path.push(SEPARATOR);
        assert(path@ =~= seq![SEPARATOR]);
    }
    path
}

} // verus!
