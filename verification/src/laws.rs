//! What holds of every well-formed tree and of every walk in it.

use vstd::prelude::*;
use crate::acli::{cursor_wf, entered, is_listing, parent_segment, Cursor};
use crate::commands::cd::{cd_outcome, walked};
use crate::model::{
    attach, attached, child_named, child_names, children_wf, first_named, fits_under, insert_at,
    inserted, is_root, lemma_attach_wf, lemma_first_named, lemma_first_named_concat,
    lemma_first_named_single, lemma_with_root_wf, tree_wf, with_root,
};
use crate::model::InsertError;
use crate::node::{root_view, NodeView};
use crate::parser::{parsed, segments_of};
use crate::text::{
    join, lemma_split_join, lemma_split_pieces, lemma_split_push,
    lemma_split_without_sep, split,
};

verus! {

/// Whether the entry at `i` is reached from the entry at `top` by going from a
/// directory to one of the entries that it lists, any number of times.
pub open spec fn descends(t: Seq<NodeView>, top: usize, i: usize) -> bool
    decreases i,
{
    i == top || (i < t.len() && match t[i as int].parent {
        Some(above) => above < i && t[above as int].children.contains(i) && descends(t, top, above),
        None => false,
    })
}

/// After an insertion the tree has a root: a directory at depth 0 without a
/// parent. It is the only such entry: every other lies in a directory, at a
/// depth above 0.
pub proof fn law_one_root(t: Seq<NodeView>, n: NodeView)
    requires
        tree_wf(t),
        t.len() < usize::MAX,
    ensures
        tree_wf(inserted(t, n)),
        inserted(t, n).len() > 0,
        is_root(inserted(t, n)[0]),
        inserted(t, n)[0].node_type is Directory && inserted(t, n)[0].depth == 0,
        forall|i: int|
            0 < i < inserted(t, n).len() ==> (#[trigger] inserted(t, n)[i]).parent is Some && inserted(
                t,
                n,
            )[i].depth > 0,
        t.len() == 0 ==> inserted(t, n)[0] == (NodeView {
            children: inserted(t, n)[0].children,
            ..root_view()
        }),
{
    lemma_with_root_wf(t);
    let r = with_root(t);
    lemma_insert_at_target(r, 0, n);
    if insert_at(r, 0, n) is Ok {
        lemma_attach_wf(r, insert_at(r, 0, n)->Ok_0, n);
    }
    let after = inserted(t, n);
    assert forall|i: int| 0 < i < after.len() implies (#[trigger] after[i]).parent is Some
        && after[i].depth > 0 by {
        assert(attached(after, i));
    }
}

/// A walk that succeeds ends at a directory of the tree under which the entry
/// fits and which holds nothing of the entry's name.
pub proof fn lemma_insert_at_target(t: Seq<NodeView>, cur: usize, n: NodeView)
    requires
        tree_wf(t),
    ensures
        insert_at(t, cur, n) matches Ok(parent) ==> {
            &&& cur <= parent < t.len()
            &&& t[parent as int].node_type is Directory
            &&& fits_under(t, parent, n)
            &&& child_named(t, parent, n.name) is None
        },
    decreases t.len() - cur,
{
    if cur < t.len() && t[cur as int].node_type is Directory && n.depth != t[cur as int].depth + 1
        && n.depth > t[cur as int].depth && t[cur as int].depth < split(n.path, '/').len() {
        match child_named(t, cur, split(n.path, '/')[t[cur as int].depth as int]) {
            Some(below) => {
                if cur < below < t.len() {
                    lemma_insert_at_target(t, below, n);
                }
            },
            None => {},
        }
    }
}

/// In a well-formed tree every entry below the root is one level deeper than
/// its parent, and its depth is the number of segments of its path.
pub proof fn law_depth(t: Seq<NodeView>, i: usize)
    requires
        tree_wf(t),
        0 < i < t.len(),
    ensures
        t[i as int].parent is Some,
        t[i as int].depth == t[t[i as int].parent->0 as int].depth + 1,
        t[i as int].depth == split(t[i as int].path, '/').len(),
        split(t[i as int].path, '/').last() == t[i as int].name,
    decreases i,
{
    assert(attached(t, i as int));
    let above = t[i as int].parent->0;
    let name = t[i as int].name;
    if t[above as int].depth == 0 {
        lemma_split_without_sep(name, '/');
    } else {
        assert(above != 0);
        law_depth(t, above);
        lemma_split_push(t[above as int].path, name, '/');
    }
}

/// In a well-formed tree every entry is reached from the root.
pub proof fn law_reachable(t: Seq<NodeView>, i: usize)
    requires
        tree_wf(t),
        i < t.len(),
    ensures
        descends(t, 0, i),
    decreases i,
{
    if i > 0 {
        assert(attached(t, i as int));
        law_reachable(t, t[i as int].parent->0);
    }
}

/// A listing of a directory holds each name of its children once, and no
/// other name; and there is one listing only.
pub proof fn law_listing(t: Seq<NodeView>, dir: usize, names: Seq<Seq<char>>, other: Seq<Seq<char>>)
    requires
        tree_wf(t),
        dir < t.len(),
        is_listing(t, dir, names),
        is_listing(t, dir, other),
    ensures
        names.len() == t[dir as int].children.len(),
        forall|name: Seq<char>| names.contains(name) <==> child_names(t, dir).contains(name),
        forall|i: int, j: int| 0 <= i < j < names.len() ==> names[i] != names[j],
        other == names,
{
    let held = child_names(t, dir);
    names.to_multiset_ensures();
    held.to_multiset_ensures();
    assert forall|name: Seq<char>| names.contains(name) <==> held.contains(name) by {
        assert(names.to_multiset().count(name) == held.to_multiset().count(name));
    }
    crate::order::law_ascending_is_unique(names, other);
}

/// A move into a directory followed by a move to the parent leads back: the
/// position is what it was before.
pub proof fn law_enter_then_back(t: Seq<NodeView>, c: Cursor, segment: Seq<char>)
    requires
        tree_wf(t),
        cursor_wf(t, c),
        segment != parent_segment(),
        entered(t, c, segment).1 is Ok,
    ensures
        entered(t, entered(t, c, segment).0, parent_segment()) == (c, Ok::<(), crate::acli::NavError>(())),
{
    let cur = c.node->0;
    assert(children_wf(t, cur as int));
    lemma_first_named(t, t[cur as int].children, segment);
}

/// `cd` into a directory by its name followed by `cd ..` leads back: the
/// position is what it was before.
pub proof fn law_cd_then_back(t: Seq<NodeView>, c: Cursor, dir: Seq<char>)
    requires
        tree_wf(t),
        cursor_wf(t, c),
        dir != parent_segment(),
        !dir.contains('/'),
        cd_outcome(t, c, seq![dir]).1 is Ok,
    ensures
        cd_outcome(t, cd_outcome(t, c, seq![dir]).0, seq![parent_segment()]) == (
            c,
            Ok::<(), Seq<char>>(()),
        ),
{
    lemma_split_without_sep(dir, '/');
    assert(!parent_segment().contains('/'));
    lemma_split_without_sep(parent_segment(), '/');
    lemma_walked_one(t, c, dir);
    assert(seq![dir][0] == dir);
    assert(cd_outcome(t, c, seq![dir]) == walked(t, c, seq![dir]));
    law_enter_then_back(t, c, dir);
    let there = entered(t, c, dir).0;
    lemma_walked_one(t, there, parent_segment());
    assert(seq![parent_segment()][0] == parent_segment());
    let back = cd_outcome(t, there, seq![parent_segment()]);
    assert(back == walked(t, there, seq![parent_segment()]));
    assert(back.0 == c);
    assert(back.1 == Ok::<(), Seq<char>>(()));
}

/// A walk of one segment is one move.
proof fn lemma_walked_one(t: Seq<NodeView>, c: Cursor, segment: Seq<char>)
    ensures
        walked(t, c, seq![segment]).0 == entered(t, c, segment).0,
        walked(t, c, seq![segment]).1 == (match entered(t, c, segment).1 {
            Ok(()) => Ok::<(), Seq<char>>(()),
            Err(error) => Err(crate::commands::nav_message(error, segment)),
        }),
{
    reveal_with_fuel(walked, 2);
    assert(seq![segment].drop_first().len() == 0);
    assert(seq![segment][0] == segment);
}

/// The first entry of a name among `ids` is the same in two arenas that give
/// those entries the same names.
proof fn lemma_first_named_agree(t: Seq<NodeView>, u: Seq<NodeView>, ids: Seq<usize>, name: Seq<char>)
    requires
        forall|k: int|
            0 <= k < ids.len() ==> #[trigger] ids[k] < t.len() && ids[k] < u.len() && t[ids[k] as int].name
                == u[ids[k] as int].name,
    ensures
        first_named(t, ids, name) == first_named(u, ids, name),
    decreases ids.len(),
{
    if ids.len() > 0 {
        assert(ids[0] < t.len());
        let rest = ids.drop_first();
        assert forall|k: int| 0 <= k < rest.len() implies #[trigger] rest[k] < t.len() && rest[k] < u.len()
            && t[rest[k] as int].name == u[rest[k] as int].name by {
            assert(rest[k] == ids[k + 1]);
        }
        lemma_first_named_agree(t, u, rest, name);
    }
}

/// What an entry of the old tree holds under a name after `a` was attached
/// under `parent`: what it held before, and `a` where the name is `a`'s and
/// the entry is `parent`.
proof fn lemma_child_named_after_attach(
    t: Seq<NodeView>,
    parent: usize,
    a: NodeView,
    dir: usize,
    name: Seq<char>,
)
    requires
        tree_wf(t),
        parent < t.len() < usize::MAX,
        dir < t.len(),
    ensures
        child_named(attach(t, parent, a), dir, name) == (if child_named(t, dir, name) is Some {
            child_named(t, dir, name)
        } else if dir == parent && a.name == name {
            Some(t.len() as usize)
        } else {
            None
        }),
{
    let u = attach(t, parent, a);
    let kids = t[dir as int].children;
    let id = t.len() as usize;
    assert(children_wf(t, dir as int));
    assert forall|k: int| 0 <= k < kids.len() implies #[trigger] kids[k] < t.len() && kids[k] < u.len()
        && t[kids[k] as int].name == u[kids[k] as int].name by {}
    lemma_first_named_agree(t, u, kids, name);
    if dir == parent {
        assert(u[dir as int].children == kids + seq![id]);
        lemma_first_named_concat(u, kids, seq![id], name);
        lemma_first_named_single(u, id, name);
    } else {
        assert(u[dir as int].children == kids);
    }
}

/// The names of what an entry holds after `a` was attached under `parent`.
proof fn lemma_child_names_after_attach(t: Seq<NodeView>, parent: usize, a: NodeView, dir: usize)
    requires
        tree_wf(t),
        parent < t.len() < usize::MAX,
        a.children.len() == 0,
        dir <= t.len(),
    ensures
        child_names(attach(t, parent, a), dir) == (if dir == parent {
            child_names(t, dir).push(a.name)
        } else if dir < t.len() {
            child_names(t, dir)
        } else {
            Seq::<Seq<char>>::empty()
        }),
{
    let u = attach(t, parent, a);
    if dir < t.len() {
        assert(children_wf(t, dir as int));
        let kids = t[dir as int].children;
        if dir == parent {
            assert(u[dir as int].children == kids.push(t.len() as usize));
            assert(child_names(u, dir) =~= child_names(t, dir).push(a.name));
        } else {
            assert(u[dir as int].children == kids);
            assert(child_names(u, dir) =~= child_names(t, dir));
        }
    } else {
        assert(child_names(u, dir) =~= Seq::<Seq<char>>::empty());
    }
}

/// A walk that succeeds in a tree succeeds alike after another entry was
/// attached, unless that entry took the walk's place: the same directory and
/// the same name.
pub proof fn lemma_insert_at_frame(t: Seq<NodeView>, parent: usize, a: NodeView, cur: usize, n: NodeView)
    requires
        tree_wf(t),
        parent < t.len() < usize::MAX,
        insert_at(t, cur, n) is Ok,
        !(insert_at(t, cur, n)->Ok_0 == parent && n.name == a.name),
    ensures
        insert_at(attach(t, parent, a), cur, n) == insert_at(t, cur, n),
    decreases t.len() - cur,
{
    let u = attach(t, parent, a);
    assert(u[cur as int].depth == t[cur as int].depth);
    assert(u[cur as int].path == t[cur as int].path);
    assert(u[cur as int].node_type == t[cur as int].node_type);
    if n.depth == t[cur as int].depth + 1 {
        lemma_child_named_after_attach(t, parent, a, cur, n.name);
    } else {
        let segment = split(n.path, '/')[t[cur as int].depth as int];
        lemma_child_named_after_attach(t, parent, a, cur, segment);
        let below = child_named(t, cur, segment)->0;
        lemma_insert_at_frame(t, parent, a, below, n);
    }
}

/// Two entries that can each be inserted into a tree, and that do not claim
/// one name in one directory, can be inserted in either order: both orders
/// succeed, attach each entry under the directory that it had alone, and
/// leave every directory with the same names among its children. The entries
/// of the old tree keep their places; the two new ones stand in the order of
/// their insertion.
pub proof fn law_insert_order(t: Seq<NodeView>, a: NodeView, b: NodeView)
    requires
        tree_wf(t),
        t.len() + 2 < usize::MAX,
        insert_at(with_root(t), 0, a) is Ok,
        insert_at(with_root(t), 0, b) is Ok,
        !(insert_at(with_root(t), 0, a) == insert_at(with_root(t), 0, b) && a.name == b.name),
    ensures
        insert_at(inserted(t, a), 0, b) == insert_at(with_root(t), 0, b),
        insert_at(inserted(t, b), 0, a) == insert_at(with_root(t), 0, a),
        tree_wf(inserted(inserted(t, a), b)),
        tree_wf(inserted(inserted(t, b), a)),
        inserted(inserted(t, a), b).len() == with_root(t).len() + 2,
        inserted(inserted(t, b), a).len() == with_root(t).len() + 2,
        forall|dir: usize, name: Seq<char>|
            dir < with_root(t).len() + 2 ==> (#[trigger] child_names(
                inserted(inserted(t, a), b),
                dir,
            ).contains(name) <==> child_names(inserted(inserted(t, b), a), dir).contains(name)),
{
    lemma_with_root_wf(t);
    let r = with_root(t);
    let pa = insert_at(r, 0, a)->Ok_0;
    let pb = insert_at(r, 0, b)->Ok_0;
    lemma_insert_at_target(r, 0, a);
    lemma_insert_at_target(r, 0, b);
    let ra = attach(r, pa, a);
    let rb = attach(r, pb, b);
    assert(inserted(t, a) == ra);
    assert(inserted(t, b) == rb);
    lemma_attach_wf(r, pa, a);
    lemma_attach_wf(r, pb, b);
    lemma_insert_at_frame(r, pa, a, 0, b);
    lemma_insert_at_frame(r, pb, b, 0, a);
    assert(with_root(ra) == ra);
    assert(with_root(rb) == rb);
    let ab = attach(ra, pb, b);
    let ba = attach(rb, pa, a);
    assert(inserted(ra, b) == ab);
    assert(inserted(rb, a) == ba);
    lemma_insert_at_target(ra, 0, b);
    lemma_insert_at_target(rb, 0, a);
    lemma_attach_wf(ra, pb, b);
    lemma_attach_wf(rb, pa, a);
    assert forall|dir: usize, name: Seq<char>| dir < r.len() + 2 implies (#[trigger] child_names(
        ab,
        dir,
    ).contains(name) <==> child_names(ba, dir).contains(name)) by {
        lemma_child_names_after_attach(ra, pb, b, dir);
        lemma_child_names_after_attach(rb, pa, a, dir);
        if dir <= r.len() {
            lemma_child_names_after_attach(r, pa, a, dir);
            lemma_child_names_after_attach(r, pb, b, dir);
        }
        let old_names = child_names(r, dir);
        lemma_push_contains(old_names, a.name, name);
        lemma_push_contains(old_names, b.name, name);
        lemma_push_contains(old_names.push(a.name), b.name, name);
        lemma_push_contains(old_names.push(b.name), a.name, name);
    }
}

/// A sequence with one more element holds what it held and that element.
proof fn lemma_push_contains(s: Seq<Seq<char>>, x: Seq<char>, y: Seq<char>)
    ensures
        s.push(x).contains(y) <==> s.contains(y) || x == y,
{
    if s.contains(y) {
        let k = choose|k: int| 0 <= k < s.len() && s[k] == y;
        assert(s.push(x)[k] == y);
    }
    if x == y {
        assert(s.push(x)[s.len() as int] == y);
    }
    if s.push(x).contains(y) {
        let k = choose|k: int| 0 <= k < s.push(x).len() && s.push(x)[k] == y;
        if k < s.len() {
            assert(s[k] == y);
        }
    }
}

/// The segments that a line names hold no `/`.
proof fn lemma_segments_hold_no_slash(line: Seq<char>)
    ensures
        forall|i: int| 0 <= i < segments_of(line).len() ==> !(#[trigger] segments_of(line)[i]).contains('/'),
{
    lemma_split_pieces(line, '/');
    let pieces = split(line, '/');
    let rest = if pieces[0] == seq!['.'] {
        pieces.drop_first()
    } else {
        pieces
    };
    assert forall|i: int| 0 <= i < rest.len() implies !(#[trigger] rest[i]).contains('/') by {
        if pieces[0] == seq!['.'] {
            assert(rest[i] == pieces[i + 1]);
        }
    }
    assert forall|i: int| 0 <= i < segments_of(line).len() implies !(#[trigger] segments_of(line)[i]).contains(
        '/',
    ) by {
        assert(segments_of(line)[i] == rest[i]);
    }
}

/// A walk for an entry whose path is the join of its segments, begun at an
/// entry that lies on that path, never finds the entry malformed.
proof fn lemma_walk_on_path(t: Seq<NodeView>, cur: usize, n: NodeView, segments: Seq<Seq<char>>)
    requires
        tree_wf(t),
        cur < t.len(),
        segments.len() >= 1,
        forall|i: int| 0 <= i < segments.len() ==> !(#[trigger] segments[i]).contains('/'),
        n.path == join(segments, seq!['/']),
        n.depth == segments.len(),
        n.name == segments.last(),
        n.name.len() > 0,
        n.parent is None,
        n.children.len() == 0,
        t[cur as int].depth < n.depth,
        t[cur as int].depth > 0 ==> t[cur as int].path == join(
            segments.take(t[cur as int].depth as int),
            seq!['/'],
        ),
    ensures
        insert_at(t, cur, n) != Err::<usize, InsertError>(InsertError::Malformed),
    decreases t.len() - cur,
{
    let k = t[cur as int].depth as int;
    lemma_split_join(segments, '/');
    if t[cur as int].node_type is Directory {
        if n.depth == k + 1 {
            assert(segments.drop_last() == segments.take(k));
            assert(fits_under(t, cur, n));
        } else {
            match child_named(t, cur, segments[k]) {
                None => {},
                Some(below) => {
                    assert(children_wf(t, cur as int));
                    lemma_first_named(t, t[cur as int].children, segments[k]);
                    assert(attached(t, below as int));
                    assert(segments.take(k + 1).drop_last() == segments.take(k));
                    assert(segments.take(k + 1).last() == segments[k]);
                    lemma_walk_on_path(t, below, n, segments);
                },
            }
        }
    }
}

/// An entry that a line names is never refused as malformed: where it cannot
/// be inserted, a directory on its path is missing or is a file, or its name
/// is taken.
pub proof fn law_parsed_entry_is_not_malformed(t: Seq<NodeView>, line: Seq<char>)
    requires
        tree_wf(t),
        parsed(line) is Ok,
    ensures
        insert_at(with_root(t), 0, parsed(line)->Ok_0) != Err::<usize, InsertError>(
            InsertError::Malformed,
        ),
{
    lemma_with_root_wf(t);
    lemma_segments_hold_no_slash(line);
    lemma_walk_on_path(with_root(t), 0, parsed(line)->Ok_0, segments_of(line));
}

} // verus!
