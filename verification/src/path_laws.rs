//! What holds of paths.

use vstd::prelude::*;

use crate::listing::{after_first, child_entry, rebased_path};
use crate::path::{
    absolute, collected, component_text, components_of, entry_names, file_name_of, is_absolute,
    is_name, joined, lemma_route_valid, lemma_segments_hold_no_separator, lemma_segments_nonempty,
    names_entry, route_of, route_valid, segment_component, segment_components, segments, slashed,
    ComponentView, Name, Route, SEPARATOR,
};

verus! {

/// `head`, a separator and `tail`.
pub open spec fn spliced(head: Seq<u8>, tail: Seq<u8>) -> Seq<u8> {
    head.push(SEPARATOR) + tail
}

/// The segments of two paths with a separator between them are those of the one
/// and then those of the other.
pub proof fn law_segments_spliced(head: Seq<u8>, tail: Seq<u8>)
    ensures
        segments(spliced(head, tail)) == segments(head) + segments(tail),
    decreases tail.len(),
{
    let whole = spliced(head, tail);
    if tail.len() == 0 {
        assert(whole =~= head.push(SEPARATOR));
        assert(whole.drop_last() =~= head);
        assert(segments(whole) =~= segments(head) + segments(tail));
    } else {
        let shorter = tail.drop_last();
        law_segments_spliced(head, shorter);
        lemma_segments_nonempty(shorter);
        assert(whole.drop_last() =~= spliced(head, shorter));
        assert(whole.last() == tail.last());
        assert(segments(whole) =~= segments(head) + segments(tail));
    }
}

/// `parts`, with a separator between each two.
pub open spec fn woven(parts: Seq<Seq<u8>>) -> Seq<u8>
    decreases parts.len(),
{
    if parts.len() == 0 {
        Seq::empty()
    } else if parts.len() == 1 {
        parts[0]
    } else {
        spliced(woven(parts.drop_last()), parts.last())
    }
}

/// The segments of a path, with a separator between each two, are the path.
pub proof fn law_segments_woven(path: Seq<u8>)
    ensures
        woven(segments(path)) == path,
    decreases path.len(),
{
    if path.len() == 0 {
        assert(woven(segments(path)) =~= path);
    } else {
        let shorter = path.drop_last();
        let before = segments(shorter);
        law_segments_woven(shorter);
        lemma_segments_nonempty(shorter);
        if path.last() == SEPARATOR {
            assert(segments(path).drop_last() =~= before);
            assert(woven(segments(path)) =~= path);
        } else if before.len() == 1 {
            assert(woven(segments(path)) =~= path);
        } else {
            let head = woven(before.drop_last());
            let tail = before.last();
            let byte = path.last();
            assert(segments(path).drop_last() =~= before.drop_last());
            assert(segments(path).last() == tail.push(byte));
            assert(woven(segments(path)) == spliced(head, tail.push(byte)));
            assert(spliced(head, tail.push(byte)) =~= spliced(head, tail).push(byte));
            assert(shorter.push(byte) =~= path);
        }
    }
}

/// The route of two paths with a separator between them is that of the one and
/// then that of the other. In particular `..` cancels nothing.
pub proof fn law_route_spliced(head: Seq<u8>, tail: Seq<u8>)
    ensures
        route_of(spliced(head, tail)) == route_of(head) + route_of(tail),
{
    law_segments_spliced(head, tail);
    Seq::filter_distributes_over_add(
        segments(head),
        segments(tail),
        |part: Seq<u8>| names_entry(part),
    );
}

/// A path without a separator is its only segment.
proof fn lemma_segments_of_one(part: Seq<u8>)
    requires
        !part.contains(SEPARATOR),
    ensures
        segments(part) == seq![part],
    decreases part.len(),
{
    if part.len() > 0 {
        let shorter = part.drop_last();
        assert(part[part.len() - 1] != SEPARATOR);
        assert(!shorter.contains(SEPARATOR)) by {
            if shorter.contains(SEPARATOR) {
                let i = choose|i: int| 0 <= i < shorter.len() && shorter[i] == SEPARATOR;
                assert(part[i] == SEPARATOR);
            }
        }
        lemma_segments_of_one(shorter);
        assert(shorter.push(part.last()) =~= part);
        assert(segments(part) =~= seq![part]);
    } else {
        assert(part =~= Seq::empty());
        assert(segments(part) =~= seq![part]);
    }
}

/// The empty path goes through nothing, a name through itself.
proof fn lemma_route_of_one(name: Name)
    ensures
        route_of(Seq::<u8>::empty()) == Seq::<Name>::empty(),
        is_name(name) ==> route_of(name) == seq![name],
{
    reveal(Seq::filter);
    let empty = Seq::<u8>::empty();
    let none = Seq::<Name>::empty();
    assert(entry_names(none) =~= none);
    assert(seq![empty].drop_last() =~= none);
    assert(seq![empty].last() == empty);
    assert(segments(empty) =~= seq![empty]);
    assert(entry_names(seq![empty]) =~= none);
    if is_name(name) {
        lemma_segments_of_one(name);
        assert(seq![name].drop_last() =~= none);
        assert(seq![name].last() == name);
        assert(entry_names(seq![name]) =~= seq![name]);
    }
}

#[verifier::rlimit(30)]
proof fn lemma_route_of_slashed(route: Route)
    requires
        route_valid(route),
    ensures
        segments(slashed(route)) == seq![Seq::<u8>::empty()] + route,
        route_of(slashed(route)) == route,
    decreases route.len(),
{
    let empty = Seq::<u8>::empty();
    if route.len() == 0 {
        lemma_route_of_one(empty);
        assert(slashed(route) =~= empty);
        assert(segments(slashed(route)) =~= seq![empty] + route);
        assert(route_of(slashed(route)) =~= route);
    } else {
        let init = route.drop_last();
        let name = route.last();
        assert(is_name(route[route.len() - 1]));
        assert(route_valid(init)) by {
            assert forall|i: int| 0 <= i < init.len() implies is_name(#[trigger] init[i]) by {
                assert(is_name(route[i]));
            }
        }
        lemma_route_of_slashed(init);
        lemma_segments_of_one(name);
        lemma_route_of_one(name);
        law_segments_spliced(slashed(init), name);
        law_route_spliced(slashed(init), name);
        assert(slashed(route) == spliced(slashed(init), name));
        assert(segments(slashed(route)) =~= seq![empty] + route);
        assert(route_of(slashed(route)) =~= route);
    }
}

/// Writing a route down as an absolute path and reading it again gives the
/// route back.
pub proof fn law_absolute_round_trip(route: Route)
    requires
        route_valid(route),
    ensures
        route_of(absolute(route)) == route,
{
    lemma_route_of_slashed(route);
    if route.len() == 0 {
        let empty = Seq::<u8>::empty();
        assert(absolute(route) =~= spliced(empty, empty));
        law_route_spliced(empty, empty);
        lemma_route_of_one(empty);
        assert(route_of(absolute(route)) =~= route);
    }
}

/// The path that a mounted filesystem is asked for leads there through what is
/// left of the route behind the mount point, and nothing else.
pub proof fn law_delegated_path(path: Seq<u8>, depth: int)
    requires
        0 <= depth <= route_of(path).len(),
    ensures
        route_of(absolute(route_of(path).skip(depth))) == route_of(path).skip(depth),
{
    lemma_route_valid(path);
    let rest = route_of(path).skip(depth);
    assert forall|i: int| 0 <= i < rest.len() implies is_name(#[trigger] rest[i]) by {
        assert(is_name(route_of(path)[i + depth]));
    }
    law_absolute_round_trip(rest);
}

/// The routes `head` and `tail`, one behind the other, written with separators.
proof fn lemma_slashed_append(head: Route, tail: Route)
    ensures
        slashed(head + tail) == slashed(head) + slashed(tail),
    decreases tail.len(),
{
    if tail.len() == 0 {
        assert(head + tail =~= head);
        assert(slashed(head) + slashed(tail) =~= slashed(head));
    } else {
        let shorter = tail.drop_last();
        lemma_slashed_append(head, shorter);
        assert((head + tail).drop_last() =~= head + shorter);
        assert((head + tail).last() == tail.last());
        assert(slashed(head + tail) =~= slashed(head) + slashed(tail));
    }
}

/// The components that the names of `route` are.
spec fn normals(route: Route) -> Seq<ComponentView> {
    route.map_values(|name: Name| ComponentView::Normal(name))
}

proof fn lemma_components_of_slashed(route: Route)
    requires
        route_valid(route),
    ensures
        segment_components(seq![Seq::<u8>::empty()] + route) == normals(route),
    decreases route.len(),
{
    let empty = Seq::<u8>::empty();
    let parts = seq![empty] + route;
    if route.len() == 0 {
        assert(parts =~= seq![empty]);
        assert(parts.drop_last() =~= Seq::empty());
        assert(segment_components(Seq::<Seq<u8>>::empty()) =~= Seq::empty());
        assert(parts.last() == empty);
        assert(segment_components(parts) =~= normals(route));
    } else {
        let init = route.drop_last();
        assert(is_name(route[route.len() - 1]));
        assert forall|i: int| 0 <= i < init.len() implies is_name(#[trigger] init[i]) by {
            assert(is_name(route[i]));
        }
        lemma_components_of_slashed(init);
        assert(parts.drop_last() =~= seq![empty] + init);
        assert(parts.last() == route.last());
        assert(normals(route) =~= normals(init).push(ComponentView::Normal(route.last())));
    }
}

/// The names of a route make up a relative path: its absolute form without the
/// leading separator.
proof fn lemma_collected_normals(route: Route)
    requires
        route_valid(route),
        route.len() > 0,
    ensures
        slashed(route) == seq![SEPARATOR] + collected(normals(route)),
        collected(normals(route)).len() > 0,
        collected(normals(route))[0] != SEPARATOR,
        collected(normals(route)).last() != SEPARATOR,
    decreases route.len(),
{
    let init = route.drop_last();
    let name = route.last();
    assert(is_name(route[route.len() - 1]));
    assert(name.contains(name[0]) && name.contains(name[name.len() - 1]));
    assert(normals(route).drop_last() =~= normals(init));
    assert(normals(route).last() == ComponentView::Normal(name));
    let text = collected(normals(route));
    if init.len() == 0 {
        assert(normals(init) =~= Seq::empty());
        assert(collected(normals(init)) =~= Seq::empty());
        assert(!is_absolute(name));
        assert(text =~= name);
        assert(slashed(init) =~= Seq::empty());
        assert(slashed(route) =~= seq![SEPARATOR] + text);
    } else {
        assert forall|i: int| 0 <= i < init.len() implies is_name(#[trigger] init[i]) by {
            assert(is_name(route[i]));
        }
        lemma_collected_normals(init);
        assert(!is_absolute(name));
        assert(text == collected(normals(init)).push(SEPARATOR) + name);
        assert(slashed(route) =~= seq![SEPARATOR] + text);
        assert(text.last() == name.last());
    }
}

proof fn lemma_slashed_end(route: Route)
    requires
        route_valid(route),
        route.len() > 0,
    ensures
        slashed(route).len() > 0,
        slashed(route).last() != SEPARATOR,
{
    let name = route.last();
    assert(is_name(route[route.len() - 1]));
    assert(name.contains(name[name.len() - 1]));
    assert(slashed(route).last() == name.last());
}

/// The components of an absolute path are the root and the names of its route.
proof fn lemma_components_of_absolute(route: Route)
    requires
        route_valid(route),
    ensures
        components_of(absolute(route)) == seq![ComponentView::RootDir] + normals(route),
{
    let path = absolute(route);
    let empty = Seq::<u8>::empty();
    let none = Seq::<Seq<u8>>::empty();
    if route.len() > 0 {
        lemma_route_of_slashed(route);
        lemma_components_of_slashed(route);
        lemma_collected_normals(route);
        assert(path[0] == SEPARATOR);
    } else {
        assert(path =~= spliced(empty, empty));
        law_segments_spliced(empty, empty);
        assert(segments(empty) =~= seq![empty]);
        assert(segments(path) =~= seq![empty, empty]);
        assert(seq![empty, empty].drop_last() =~= seq![empty]);
        assert(seq![empty].drop_last() =~= none);
        assert(segment_components(none) =~= Seq::empty());
        assert(segment_components(seq![empty]) =~= Seq::empty());
        assert(segment_components(segments(path)) =~= Seq::empty());
        assert(normals(route) =~= Seq::empty());
    }
}

/// The file name of an absolute path is the last name of its route.
pub proof fn law_file_name_of_absolute(route: Route)
    requires
        route_valid(route),
    ensures
        file_name_of(absolute(route)) == (if route.len() > 0 {
            Some(route.last())
        } else {
            None
        }),
{
    lemma_components_of_absolute(route);
    let parts = components_of(absolute(route));
    if route.len() > 0 {
        assert(parts.last() == normals(route).last());
    } else {
        assert(parts.last() == ComponentView::RootDir);
    }
}

/// An entry of a mounted filesystem appears below the mount point: what leads to
/// it there follows what leads to the mount point.
pub proof fn law_rebased_entry(route: Route, rest: Route)
    requires
        route_valid(route),
        route_valid(rest),
        rest.len() > 0,
    ensures
        rebased_path(absolute(rest), absolute(route)) == absolute(route + rest),
{
    lemma_components_of_absolute(rest);
    lemma_collected_normals(rest);
    lemma_slashed_append(route, rest);
    let text = collected(normals(rest));
    assert(after_first(components_of(absolute(rest))) =~= normals(rest));
    assert(!is_absolute(text));
    if route.len() == 0 {
        assert(route + rest =~= rest);
        assert(joined(absolute(route), text) =~= seq![SEPARATOR] + text);
    } else {
        lemma_slashed_end(route);
        assert(joined(absolute(route), text) =~= slashed(route) + (seq![SEPARATOR] + text));
    }
}

/// What the segments `parts` stand for where others come before them.
spec fn later_components(parts: Seq<Seq<u8>>) -> Seq<ComponentView>
    decreases parts.len(),
{
    if parts.len() == 0 {
        Seq::empty()
    } else {
        let before = later_components(parts.drop_last());
        match segment_component(parts.last(), false) {
            Some(component) => before.push(component),
            None => before,
        }
    }
}

/// The components of segments and then of others.
proof fn lemma_components_append(head: Seq<Seq<u8>>, tail: Seq<Seq<u8>>)
    requires
        head.len() > 0,
    ensures
        segment_components(head + tail) == segment_components(head) + later_components(tail),
    decreases tail.len(),
{
    let whole = head + tail;
    if tail.len() == 0 {
        assert(whole =~= head);
        assert(segment_components(whole) =~= segment_components(head) + later_components(tail));
    } else {
        let shorter = tail.drop_last();
        lemma_components_append(head, shorter);
        assert(whole.drop_last() =~= head + shorter);
        assert(whole.last() == tail.last());
        assert(segment_components(whole) =~= segment_components(head) + later_components(tail));
    }
}

/// A component that a segment other than the first can stand for.
spec fn is_later(part: ComponentView) -> bool {
    match part {
        ComponentView::ParentDir => true,
        ComponentView::Normal(name) => is_name(name),
        _ => false,
    }
}

/// What segments without separators stand for where others come before them.
proof fn lemma_later_components(parts: Seq<Seq<u8>>)
    requires
        forall|i: int| 0 <= i < parts.len() ==> !(#[trigger] parts[i]).contains(SEPARATOR),
    ensures
        forall|i: int|
            0 <= i < later_components(parts).len() ==> is_later(
                #[trigger] later_components(parts)[i],
            ),
    decreases parts.len(),
{
    if parts.len() > 0 {
        let shorter = parts.drop_last();
        assert forall|i: int| 0 <= i < shorter.len() implies !(#[trigger] shorter[i]).contains(
            SEPARATOR,
        ) by {
            assert(shorter[i] == parts[i]);
        }
        lemma_later_components(shorter);
        assert(!parts[parts.len() - 1].contains(SEPARATOR));
        let before = later_components(shorter);
        assert forall|i: int| 0 <= i < later_components(parts).len() implies is_later(
            #[trigger] later_components(parts)[i],
        ) by {
            if i < before.len() {
                assert(is_later(before[i]));
            }
        }
    }
}

/// How a component is written is one segment, which stands for it.
proof fn lemma_component_text(part: ComponentView)
    requires
        is_later(part),
    ensures
        !component_text(part).contains(SEPARATOR),
        component_text(part).len() > 0,
        segment_component(component_text(part), false) == Some(part),
{
}

/// What components make up is a relative path that stands for them again, where
/// other segments come before it.
proof fn lemma_collected_components(parts: Seq<ComponentView>)
    requires
        forall|i: int| 0 <= i < parts.len() ==> is_later(#[trigger] parts[i]),
    ensures
        !is_absolute(collected(parts)),
        parts.len() > 0 ==> collected(parts).len() > 0 && collected(parts).last() != SEPARATOR,
        later_components(segments(collected(parts))) == parts,
    decreases parts.len(),
{
    let text = collected(parts);
    let none = Seq::<Seq<u8>>::empty();
    assert(later_components(none) =~= Seq::empty());
    if parts.len() == 0 {
        let empty = Seq::<u8>::empty();
        assert(text =~= empty);
        assert(segments(empty) =~= seq![empty]);
        assert(seq![empty].drop_last() =~= none);
        assert(later_components(seq![empty]) =~= Seq::empty());
        assert(later_components(segments(text)) =~= parts);
    } else {
        let init = parts.drop_last();
        let last = parts.last();
        let tail = component_text(last);
        let before = collected(init);
        assert(is_later(parts[parts.len() - 1]));
        assert forall|i: int| 0 <= i < init.len() implies is_later(#[trigger] init[i]) by {
            assert(init[i] == parts[i]);
        }
        lemma_collected_components(init);
        lemma_component_text(last);
        lemma_segments_of_one(tail);
        assert(tail.contains(tail[0]) && tail.contains(tail[tail.len() - 1]));
        assert(!is_absolute(tail));
        assert(seq![tail].drop_last() =~= none);
        assert(seq![tail].last() == tail);
        if init.len() == 0 {
            assert(before =~= Seq::empty());
            assert(text =~= tail);
            assert(later_components(seq![tail]) =~= parts);
        } else {
            assert(text == spliced(before, tail));
            law_segments_spliced(before, tail);
            let whole = segments(before) + seq![tail];
            assert(whole.drop_last() =~= segments(before));
            assert(whole.last() == tail);
            assert(text.last() == tail.last());
            assert(text[0] == before[0]);
            assert(later_components(whole) =~= init.push(last));
            assert(init.push(last) =~= parts);
        }
    }
}

/// By its components, an absolute path that is put below another consists of that
/// other one and of its own components without the root.
pub proof fn law_rebased_components(entry: Seq<u8>, prefix: Seq<u8>)
    requires
        is_absolute(entry),
        is_absolute(prefix),
    ensures
        is_absolute(rebased_path(entry, prefix)),
        components_of(rebased_path(entry, prefix)) == components_of(prefix) + after_first(
            components_of(entry),
        ),
{
    let empty = Seq::<u8>::empty();
    let rest = after_first(components_of(entry));
    let text = collected(rest);
    let path = rebased_path(entry, prefix);

    // An absolute path starts with an empty segment, so none of its segments but
    // that one is the first.
    let inside = entry.skip(1);
    assert(entry =~= spliced(empty, inside));
    law_segments_spliced(empty, inside);
    assert(segments(empty) =~= seq![empty]);
    lemma_components_append(seq![empty], segments(inside));
    assert(seq![empty].drop_last() =~= Seq::empty());
    assert(segment_components(Seq::<Seq<u8>>::empty()) =~= Seq::empty());
    assert(segment_components(seq![empty]) =~= Seq::empty());
    assert(rest =~= later_components(segments(inside)));
    lemma_segments_hold_no_separator(inside);
    lemma_later_components(segments(inside));
    lemma_collected_components(rest);

    // A separator at the end of the prefix is the one that joins the two.
    let head = if prefix.last() == SEPARATOR {
        prefix.drop_last()
    } else {
        prefix
    };
    assert(path =~= spliced(head, text));
    law_segments_spliced(head, text);
    lemma_segments_nonempty(head);
    lemma_components_append(segments(head), segments(text));
    if prefix.last() == SEPARATOR {
        assert(prefix =~= spliced(head, empty));
        law_segments_spliced(head, empty);
        lemma_components_append(segments(head), seq![empty]);
        assert(later_components(Seq::<Seq<u8>>::empty()) =~= Seq::empty());
        assert(later_components(seq![empty]) =~= Seq::empty());
        assert(segment_components(segments(prefix)) =~= segment_components(segments(head)));
    }
    assert(path[0] == prefix[0]);
    assert(components_of(path) =~= components_of(prefix) + rest);
}

/// By its components, a path that is put below the root stays what it is, and
/// putting it below one path and then below another is putting it below the one
/// that was put below the other.
pub proof fn law_rebased_twice(entry: Seq<u8>, inner: Seq<u8>, outer: Seq<u8>)
    requires
        is_absolute(entry),
        is_absolute(inner),
        is_absolute(outer),
    ensures
        components_of(rebased_path(entry, absolute(Seq::empty()))) == components_of(entry),
        components_of(rebased_path(rebased_path(entry, inner), outer)) == components_of(
            rebased_path(entry, rebased_path(inner, outer)),
        ),
{
    let root = absolute(Seq::<Name>::empty());
    law_rebased_components(entry, root);
    lemma_components_of_absolute(Seq::empty());
    assert(components_of(root) =~= seq![ComponentView::RootDir]);
    assert(components_of(rebased_path(entry, root)) =~= components_of(entry));
    law_rebased_components(entry, inner);
    law_rebased_components(inner, outer);
    law_rebased_components(rebased_path(entry, inner), outer);
    law_rebased_components(entry, rebased_path(inner, outer));
    assert(components_of(rebased_path(rebased_path(entry, inner), outer)) =~= components_of(
        rebased_path(entry, rebased_path(inner, outer)),
    ));
}

/// With paths that consist of names this holds of the very bytes: putting an entry
/// below the root changes nothing, and putting it below one place and then below
/// another is putting it below the two, one behind the other.
pub proof fn law_rebased_names_twice(outer: Route, inner: Route, rest: Route)
    requires
        route_valid(outer),
        route_valid(inner),
        route_valid(rest),
        rest.len() > 0,
    ensures
        rebased_path(absolute(rest), absolute(Seq::empty())) == absolute(rest),
        rebased_path(rebased_path(absolute(rest), absolute(inner)), absolute(outer))
            == rebased_path(absolute(rest), absolute(outer + inner)),
{
    law_rebased_entry(Seq::empty(), rest);
    assert(Seq::<Name>::empty() + rest =~= rest);
    law_rebased_entry(inner, rest);
    assert forall|i: int| 0 <= i < (inner + rest).len() implies is_name(
        #[trigger] (inner + rest)[i],
    ) by {
        if i < inner.len() {
            assert(is_name(inner[i]));
        } else {
            assert(is_name(rest[i - inner.len()]));
        }
    }
    law_rebased_entry(outer, inner + rest);
    assert forall|i: int| 0 <= i < (outer + inner).len() implies is_name(
        #[trigger] (outer + inner)[i],
    ) by {
        if i < outer.len() {
            assert(is_name(outer[i]));
        } else {
            assert(is_name(inner[i - outer.len()]));
        }
    }
    law_rebased_entry(outer + inner, rest);
    assert(outer + (inner + rest) =~= outer + inner + rest);
}

/// The entry of a child mount has the child's path, and so the child's name.
pub proof fn law_child_entry(route: Route, name: Name)
    requires
        route_valid(route),
        is_name(name),
    ensures
        child_entry(absolute(route), name).path == absolute(route.push(name)),
        file_name_of(child_entry(absolute(route), name).path) == Some(name),
{
    let path = joined(absolute(route), name);
    let longer = route.push(name);
    assert(name.contains(name[0]));
    assert(!is_absolute(name));
    assert(longer.drop_last() =~= route);
    if route.len() == 0 {
        assert(slashed(route) =~= Seq::empty());
        assert(path =~= slashed(longer));
    } else {
        lemma_slashed_end(route);
        assert(path =~= slashed(longer));
    }
    assert forall|i: int| 0 <= i < longer.len() implies is_name(#[trigger] longer[i]) by {
        if i < route.len() {
            assert(is_name(route[i]));
        }
    }
    law_file_name_of_absolute(longer);
}

/// A segment of a path is kept as it stands, with three exceptions: the empty one,
/// `.` and `..` are passed over.
pub proof fn law_route_of_segment(segment: Seq<u8>)
    requires
        forall|i: int| 0 <= i < segment.len() ==> segment[i] != 0x2f,
    ensures
        segment == Seq::<u8>::empty() || segment == seq![0x2eu8] || segment == seq![0x2eu8, 0x2eu8]
            ==> route_of(segment) == Seq::<Name>::empty(),
        segment != Seq::<u8>::empty() && segment != seq![0x2eu8] && segment != seq![0x2eu8, 0x2eu8]
            ==> route_of(segment) == seq![segment],
{
    reveal(Seq::filter);
    let none = Seq::<Name>::empty();
    lemma_segments_of_one(segment);
    assert(seq![segment].drop_last() =~= none);
    assert(seq![segment].last() == segment);
    assert(entry_names(none) =~= none);
    if segment.len() == 0 {
        assert(segment =~= Seq::empty());
    } else if segment.len() == 1 && segment[0] == 0x2e {
        assert(segment =~= seq![0x2eu8]);
    } else if segment.len() == 2 && segment[0] == 0x2e && segment[1] == 0x2e {
        assert(segment =~= seq![0x2eu8, 0x2eu8]);
    }
    if names_entry(segment) {
        assert(entry_names(seq![segment]) =~= seq![segment]);
    } else {
        assert(entry_names(seq![segment]) =~= none);
    }
}

/// A `/` ends what is before it: the route of a path with one is the route of
/// what is before it and then the route of what is behind it. Together with the
/// route of a segment this says what the route of every path is.
pub proof fn law_route_of_path(head: Seq<u8>, tail: Seq<u8>)
    ensures
        route_of(head + seq![0x2fu8] + tail) == route_of(head) + route_of(tail),
{
    assert(head + seq![0x2fu8] + tail =~= spliced(head, tail));
    law_route_spliced(head, tail);
}

/// How a route is written: `/` alone, or each name behind a `/`.
pub proof fn law_absolute_written(route: Route, name: Name)
    ensures
        absolute(Seq::<Name>::empty()) == seq![0x2fu8],
        absolute(seq![name]) == seq![0x2fu8] + name,
        route.len() > 0 ==> absolute(route.push(name)) == absolute(route) + seq![0x2fu8] + name,
{
    let none = Seq::<Name>::empty();
    assert(slashed(none) =~= Seq::empty());
    assert(seq![name].drop_last() =~= none);
    assert(absolute(seq![name]) =~= seq![0x2fu8] + name);
    assert(route.push(name).drop_last() =~= route);
    assert(slashed(route.push(name)) =~= slashed(route) + seq![0x2fu8] + name);
}

/// The component that a path without a `/` is.
pub proof fn law_components_of_segment(segment: Seq<u8>)
    requires
        forall|i: int| 0 <= i < segment.len() ==> segment[i] != 0x2f,
    ensures
        components_of(segment) == (if segment == Seq::<u8>::empty() {
            Seq::<ComponentView>::empty()
        } else if segment == seq![0x2eu8] {
            seq![ComponentView::CurDir]
        } else if segment == seq![0x2eu8, 0x2eu8] {
            seq![ComponentView::ParentDir]
        } else {
            seq![ComponentView::Normal(segment)]
        }),
{
    let none = Seq::<Seq<u8>>::empty();
    lemma_segments_of_one(segment);
    assert(seq![segment].drop_last() =~= none);
    assert(seq![segment].last() == segment);
    assert(segment_components(none) =~= Seq::empty());
    assert(!is_absolute(segment));
    if segment.len() == 0 {
        assert(segment =~= Seq::empty());
    } else if segment.len() == 1 && segment[0] == 0x2e {
        assert(segment =~= seq![0x2eu8]);
    } else if segment.len() == 2 && segment[0] == 0x2e && segment[1] == 0x2e {
        assert(segment =~= seq![0x2eu8, 0x2eu8]);
    }
    assert(components_of(segment) =~= segment_components(seq![segment]));
}

/// The components of a path with a `/`: those of what is before the last one,
/// which is the root if there is nothing, and then what the last segment is. There
/// the empty segment and `.` are passed over, and `..` is not. Together with the
/// component of a path without a `/` this says what the components of every path
/// are.
pub proof fn law_components_of_path(head: Seq<u8>, segment: Seq<u8>)
    requires
        forall|i: int| 0 <= i < segment.len() ==> segment[i] != 0x2f,
    ensures
        components_of(head + seq![0x2fu8] + segment) == (if head.len() == 0 {
            seq![ComponentView::RootDir]
        } else {
            components_of(head)
        }) + (if segment == Seq::<u8>::empty() || segment == seq![0x2eu8] {
            Seq::<ComponentView>::empty()
        } else if segment == seq![0x2eu8, 0x2eu8] {
            seq![ComponentView::ParentDir]
        } else {
            seq![ComponentView::Normal(segment)]
        }),
{
    let path = head + seq![0x2fu8] + segment;
    let none = Seq::<Seq<u8>>::empty();
    assert(path =~= spliced(head, segment));
    law_segments_spliced(head, segment);
    lemma_segments_of_one(segment);
    lemma_segments_nonempty(head);
    lemma_components_append(segments(head), seq![segment]);
    assert(seq![segment].drop_last() =~= none);
    assert(seq![segment].last() == segment);
    assert(later_components(none) =~= Seq::empty());
    if segment.len() == 0 {
        assert(segment =~= Seq::empty());
    } else if segment.len() == 1 && segment[0] == 0x2e {
        assert(segment =~= seq![0x2eu8]);
    } else if segment.len() == 2 && segment[0] == 0x2e && segment[1] == 0x2e {
        assert(segment =~= seq![0x2eu8, 0x2eu8]);
    }
    if head.len() == 0 {
        let empty = Seq::<u8>::empty();
        assert(head =~= empty);
        assert(segments(empty) =~= seq![empty]);
        assert(seq![empty].drop_last() =~= none);
        assert(segment_components(none) =~= Seq::empty());
        assert(segment_components(seq![empty]) =~= Seq::empty());
        assert(path[0] == 0x2f);
    } else {
        assert(path[0] == head[0]);
    }
    assert(components_of(path) =~= (if head.len() == 0 {
        seq![ComponentView::RootDir]
    } else {
        components_of(head)
    }) + later_components(seq![segment]));
}

/// The file name of a path is its last segment, where a `/` or a `/.` at the end
/// does not count. There is none where that is missing or `..`.
pub proof fn law_file_name_of_path(head: Seq<u8>, segment: Seq<u8>)
    requires
        forall|i: int| 0 <= i < segment.len() ==> segment[i] != 0x2f,
    ensures
        file_name_of(segment) == (if segment == Seq::<u8>::empty() || segment == seq![0x2eu8]
            || segment == seq![0x2eu8, 0x2eu8] {
            None
        } else {
            Some(segment)
        }),
        file_name_of(head + seq![0x2fu8] + segment) == (if segment == Seq::<u8>::empty() || segment
            == seq![0x2eu8] {
            file_name_of(head)
        } else if segment == seq![0x2eu8, 0x2eu8] {
            None
        } else {
            Some(segment)
        }),
{
    law_components_of_segment(segment);
    law_components_of_path(head, segment);
    let before = if head.len() == 0 {
        seq![ComponentView::RootDir]
    } else {
        components_of(head)
    };
    assert(before + Seq::<ComponentView>::empty() =~= before);
    if head.len() == 0 {
        assert(head =~= Seq::empty());
        law_components_of_segment(head);
    }
}

/// How two paths are joined: an absolute second one stands alone, and between the
/// two there is a `/` unless the first one is empty or ends in one.
pub proof fn law_joined(base: Seq<u8>, tail: Seq<u8>)
    ensures
        tail.len() > 0 && tail[0] == 0x2f ==> joined(base, tail) == tail,
        !(tail.len() > 0 && tail[0] == 0x2f) && (base.len() == 0 || base.last() == 0x2f)
            ==> joined(base, tail) == base + tail,
        !(tail.len() > 0 && tail[0] == 0x2f) && base.len() > 0 && base.last() != 0x2f ==> joined(
            base,
            tail,
        ) == base + seq![0x2fu8] + tail,
{
    assert(base.push(SEPARATOR) + tail =~= base + seq![0x2fu8] + tail);
}

/// The path that components make up: nothing for none, and each more is joined to
/// those before it.
pub proof fn law_collected(parts: Seq<ComponentView>, part: ComponentView)
    ensures
        collected(Seq::empty()) == Seq::<u8>::empty(),
        collected(parts.push(part)) == joined(
            collected(parts),
            match part {
                ComponentView::RootDir => seq![0x2fu8],
                ComponentView::CurDir => seq![0x2eu8],
                ComponentView::ParentDir => seq![0x2eu8, 0x2eu8],
                ComponentView::Normal(name) => name,
            },
        ),
{
    assert(parts.push(part).drop_last() =~= parts);
}

/// Where a path is put below another, that other one takes the place of its first
/// component.
pub proof fn law_rebased_path(entry: Seq<u8>, prefix: Seq<u8>)
    ensures
        components_of(entry).len() == 0 ==> rebased_path(entry, prefix) == joined(
            prefix,
            Seq::empty(),
        ),
        components_of(entry).len() > 0 ==> rebased_path(entry, prefix) == joined(
            prefix,
            collected(components_of(entry).skip(1)),
        ),
{
    if components_of(entry).len() == 0 {
        assert(components_of(entry) =~= Seq::empty());
    }
}

/// A path that is put below another keeps its file name.
pub proof fn law_rebased_keeps_name(entry: Seq<u8>, prefix: Seq<u8>)
    requires
        entry.len() > 0,
        entry[0] == 0x2f,
        prefix.len() > 0,
        prefix[0] == 0x2f,
        components_of(entry).len() > 1,
    ensures
        file_name_of(rebased_path(entry, prefix)) == file_name_of(entry),
{
    law_rebased_components(entry, prefix);
    assert(components_of(rebased_path(entry, prefix)).last() == components_of(entry).last());
}

} // verus!
