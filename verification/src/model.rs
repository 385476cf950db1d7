//! The mathematical model of a tree: a sequence of entries, each naming its
//! parent and its children by position, with the root at position 0.

use vstd::prelude::*;
use crate::node::{root_view, shown, NodeView};
use crate::text::split;

verus! {

/// Why an entry could not be placed in a tree.
#[derive(Clone, Copy, Debug, PartialEq, Eq, Structural)]
pub enum InsertError {
    /// The entry's depth, path and name do not fit each other or the place
    /// that the depth leads to, or the entry is already attached somewhere.
    Malformed,
    /// A directory on the entry's path is not in the tree.
    MissingAncestor,
    /// An entry on the path that would have to hold this one is a file.
    NotADirectory,
    /// The directory already holds an entry of that name.
    AlreadyExists,
}

/// The path of an entry called `name` that lies directly in `parent`. The root
/// adds no segment of its own.
pub open spec fn child_path(parent: NodeView, name: Seq<char>) -> Seq<char> {
    if parent.depth == 0 {
        name
    } else {
        parent.path + seq!['/'] + name
    }
}

/// Whether `n` is the root directory, whatever it holds.
pub open spec fn is_root(n: NodeView) -> bool {
    n == (NodeView { children: n.children, ..root_view() })
}

/// What holds of an entry below the root: it lies in a directory that comes
/// before it in the arena and lists it, one level deeper than that directory,
/// under a path that extends the directory's by the entry's name.
pub open spec fn attached(t: Seq<NodeView>, i: int) -> bool {
    &&& t[i].parent matches Some(p)
    &&& p < i
    &&& t[p as int].node_type is Directory
    &&& t[i].depth == t[p as int].depth + 1
    &&& t[i].name.len() > 0
    &&& !t[i].name.contains('/')
    &&& t[i].path == child_path(t[p as int], t[i].name)
    &&& t[p as int].children.contains(i as usize)
}

/// What holds of the children of an entry: a file has none; each child comes
/// after the entry in the arena and names it as parent; no two bear one name.
pub open spec fn children_wf(t: Seq<NodeView>, i: int) -> bool {
    let kids = t[i].children;
    &&& t[i].node_type is File ==> kids.len() == 0
    &&& forall|k: int|
        0 <= k < kids.len() ==> i < #[trigger] kids[k] < t.len() && t[kids[k] as int].parent == Some(
            i as usize,
        )
    &&& forall|k: int, l: int|
        0 <= k < l < kids.len() ==> t[#[trigger] kids[k] as int].name != t[#[trigger] kids[l] as int].name
}

/// A well-formed tree is empty, or has the root at position 0 and below it
/// only entries that are attached to a directory.
pub open spec fn tree_wf(t: Seq<NodeView>) -> bool {
    t.len() > 0 ==> {
        &&& is_root(t[0])
        &&& forall|i: int| 0 < i < t.len() ==> #[trigger] attached(t, i)
        &&& forall|i: int| 0 <= i < t.len() ==> #[trigger] children_wf(t, i)
    }
}

/// The first of `ids` whose entry is called `name`.
pub open spec fn first_named(t: Seq<NodeView>, ids: Seq<usize>, name: Seq<char>) -> Option<usize>
    decreases ids.len(),
{
    if ids.len() == 0 {
        None
    } else if ids[0] < t.len() && t[ids[0] as int].name == name {
        Some(ids[0])
    } else {
        first_named(t, ids.drop_first(), name)
    }
}

/// The child of `dir` that is called `name`.
pub open spec fn child_named(t: Seq<NodeView>, dir: usize, name: Seq<char>) -> Option<usize> {
    first_named(t, t[dir as int].children, name)
}

/// The tree with a root: an empty tree gets one, any other stays as it is.
pub open spec fn with_root(t: Seq<NodeView>) -> Seq<NodeView> {
    if t.len() == 0 {
        seq![root_view()]
    } else {
        t
    }
}

/// Whether `n` can be attached directly under the entry at `dir`: it is one
/// level deeper, has a name without `/`, a path that extends the directory's
/// by that name, and is not attached anywhere yet.
pub open spec fn fits_under(t: Seq<NodeView>, dir: usize, n: NodeView) -> bool {
    &&& n.depth == t[dir as int].depth + 1
    &&& n.name.len() > 0
    &&& !n.name.contains('/')
    &&& n.path == child_path(t[dir as int], n.name)
    &&& n.parent is None
    &&& n.children.len() == 0
}

/// Where the walk that starts at `cur` attaches `n`: at `cur` if `n` is one
/// level deeper than it, else below the child of `cur` that bears the segment
/// of `n`'s path at `cur`'s depth.
pub open spec fn insert_at(t: Seq<NodeView>, cur: usize, n: NodeView) -> Result<usize, InsertError>
    decreases t.len() - cur,
{
    if cur >= t.len() {
        Err(InsertError::MissingAncestor)
    } else if !(t[cur as int].node_type is Directory) {
        Err(InsertError::NotADirectory)
    } else if n.depth == t[cur as int].depth + 1 {
        if !fits_under(t, cur, n) {
            Err(InsertError::Malformed)
        } else if child_named(t, cur, n.name) is Some {
            Err(InsertError::AlreadyExists)
        } else {
            Ok(cur)
        }
    } else if n.depth <= t[cur as int].depth || t[cur as int].depth >= split(n.path, '/').len() {
        Err(InsertError::Malformed)
    } else {
        match child_named(t, cur, split(n.path, '/')[t[cur as int].depth as int]) {
            None => Err(InsertError::MissingAncestor),
            Some(c) => if cur < c < t.len() {
                insert_at(t, c, n)
            } else {
                Err(InsertError::MissingAncestor)
            },
        }
    }
}

/// The tree after `n` was attached under the directory at `parent`: `n` stands
/// at the end of the arena and the directory lists it last.
pub open spec fn attach(t: Seq<NodeView>, parent: usize, n: NodeView) -> Seq<NodeView> {
    t.update(
        parent as int,
        NodeView { children: t[parent as int].children.push(t.len() as usize), ..t[parent as int] },
    ).push(NodeView { parent: Some(parent), ..n })
}

/// The tree after an attempt to insert `n`: the root exists in any case, and
/// `n` is attached where the walk from the root succeeded.
pub open spec fn inserted(t: Seq<NodeView>, n: NodeView) -> Seq<NodeView> {
    match insert_at(with_root(t), 0, n) {
        Ok(p) => attach(with_root(t), p, n),
        Err(_) => with_root(t),
    }
}

/// The tree that the entries build when they are inserted one after another
/// into an empty tree.
pub open spec fn built(entries: Seq<NodeView>) -> Seq<NodeView>
    decreases entries.len(),
{
    if entries.len() == 0 {
        Seq::empty()
    } else {
        inserted(built(entries.drop_last()), entries.last())
    }
}

/// What the insertion of the `i`-th entry reports, after those before it have
/// been inserted.
pub open spec fn build_step(entries: Seq<NodeView>, i: int) -> Result<(), InsertError> {
    insert_outcome(with_root(built(entries.take(i))), 0, entries[i])
}

/// The names of what the entry at `dir` holds, in the order of attachment.
pub open spec fn child_names(t: Seq<NodeView>, dir: usize) -> Seq<Seq<char>> {
    t[dir as int].children.map_values(|c: usize| t[c as int].name)
}

/// What an insertion reports: success, or why `n` was left out.
pub open spec fn insert_outcome(t: Seq<NodeView>, cur: usize, n: NodeView) -> Result<(), InsertError> {
    match insert_at(t, cur, n) {
        Ok(_) => Ok(()),
        Err(e) => Err(e),
    }
}

/// The entries at and below `cur`, each directory before what it holds, and
/// what it holds in the order of attachment.
pub open spec fn subtree_order(t: Seq<NodeView>, cur: usize) -> Seq<usize>
    decreases t.len() - cur, t[cur as int].children.len() + 1,
{
    seq![cur] + children_order(t, cur, 0)
}

/// The entries at and below the children of `cur` from the `k`-th on.
pub open spec fn children_order(t: Seq<NodeView>, cur: usize, k: int) -> Seq<usize>
    decreases t.len() - cur, t[cur as int].children.len() - k,
{
    let kids = t[cur as int].children;
    if cur >= t.len() || k < 0 || k >= kids.len() {
        Seq::empty()
    } else if cur < kids[k] < t.len() {
        subtree_order(t, kids[k]) + children_order(t, cur, k + 1)
    } else {
        children_order(t, cur, k + 1)
    }
}

/// All entries of the tree, each directory before what it holds.
pub open spec fn preorder(t: Seq<NodeView>) -> Seq<usize> {
    if t.len() == 0 {
        Seq::empty()
    } else {
        subtree_order(t, 0)
    }
}

/// The lines that show the entries at `ids`, one entry after the other.
pub open spec fn shown_all(t: Seq<NodeView>, ids: Seq<usize>) -> Seq<Seq<char>>
    decreases ids.len(),
{
    if ids.len() == 0 {
        Seq::empty()
    } else {
        shown_all(t, ids.drop_last()) + shown(t[ids.last() as int])
    }
}

/// The lines that show a tree: every entry, each directory before what it
/// holds; for an empty tree one line that says so.
pub open spec fn shown_tree(t: Seq<NodeView>) -> Seq<Seq<char>> {
    if t.len() == 0 {
        seq!["No root node."@]
    } else {
        shown_all(t, preorder(t))
    }
}

/// The lines that show `a` followed by `b` are those of `a` followed by those
/// of `b`.
pub proof fn lemma_shown_all_concat(t: Seq<NodeView>, a: Seq<usize>, b: Seq<usize>)
    ensures
        shown_all(t, a + b) == shown_all(t, a) + shown_all(t, b),
    decreases b.len(),
{
    if b.len() == 0 {
        assert(a + b == a);
        assert(shown_all(t, a) + shown_all(t, b) == shown_all(t, a));
    } else {
        assert((a + b).drop_last() == a + b.drop_last());
        assert((a + b).last() == b.last());
        lemma_shown_all_concat(t, a, b.drop_last());
        assert(shown_all(t, a) + shown_all(t, b.drop_last()) + shown(t[b.last() as int]) == shown_all(t, a)
            + (shown_all(t, b.drop_last()) + shown(t[b.last() as int])));
    }
}

/// The first entry called `name` on a walk that visits each directory before
/// what it holds.
pub open spec fn found_by_name(t: Seq<NodeView>, name: Seq<char>) -> Option<usize> {
    first_named(t, preorder(t), name)
}

/// Among one entry alone, the first of a name is that entry or nothing.
pub proof fn lemma_first_named_single(t: Seq<NodeView>, id: usize, name: Seq<char>)
    ensures
        first_named(t, seq![id], name) == (if id < t.len() && t[id as int].name == name {
            Some(id)
        } else {
            None
        }),
{
    assert(seq![id].drop_first().len() == 0);
    assert(first_named(t, seq![id].drop_first(), name) is None);
}

/// The first entry of a name among `a` followed by `b` is the first among `a`,
/// or else the first among `b`.
pub proof fn lemma_first_named_concat(t: Seq<NodeView>, a: Seq<usize>, b: Seq<usize>, name: Seq<char>)
    ensures
        first_named(t, a + b, name) == (if first_named(t, a, name) is Some {
            first_named(t, a, name)
        } else {
            first_named(t, b, name)
        }),
    decreases a.len(),
{
    if a.len() == 0 {
        assert(a + b == b);
    } else {
        assert((a + b)[0] == a[0]);
        assert((a + b).drop_first() == a.drop_first() + b);
        lemma_first_named_concat(t, a.drop_first(), b, name);
    }
}

/// `first_named` gives the first entry of that name among `ids`, and nothing
/// only where none of them bears it.
pub proof fn lemma_first_named(t: Seq<NodeView>, ids: Seq<usize>, name: Seq<char>)
    requires
        forall|k: int| 0 <= k < ids.len() ==> #[trigger] ids[k] < t.len(),
    ensures
        first_named(t, ids, name) matches Some(c) ==> exists|k: int|
            0 <= k < ids.len() && #[trigger] ids[k] == c && t[c as int].name == name && forall|j: int|
                0 <= j < k ==> t[#[trigger] ids[j] as int].name != name,
        first_named(t, ids, name) is None ==> forall|k: int|
            0 <= k < ids.len() ==> t[#[trigger] ids[k] as int].name != name,
    decreases ids.len(),
{
    if ids.len() > 0 {
        if t[ids[0] as int].name == name {
            assert(ids[0] == ids[0]);
        } else {
            let rest = ids.drop_first();
            lemma_first_named(t, rest, name);
            assert forall|k: int| 0 <= k < rest.len() implies rest[k] == ids[k + 1] by {}
            match first_named(t, rest, name) {
                Some(c) => {
                    let k = choose|k: int|
                        0 <= k < rest.len() && #[trigger] rest[k] == c && t[c as int].name == name
                            && forall|j: int| 0 <= j < k ==> t[#[trigger] rest[j] as int].name != name;
                    assert(ids[k + 1] == c);
                    assert forall|j: int| 0 <= j < k + 1 implies t[#[trigger] ids[j] as int].name
                        != name by {
                        if j > 0 {
                            assert(rest[j - 1] == ids[j]);
                        }
                    }
                },
                None => {
                    assert forall|k: int| 0 <= k < ids.len() implies t[#[trigger] ids[k] as int].name
                        != name by {
                        if k > 0 {
                            assert(rest[k - 1] == ids[k]);
                        }
                    }
                },
            }
        }
    }
}

/// Attaching an entry that fits under a directory, under a name that the
/// directory does not hold yet, keeps the tree well-formed.
pub proof fn lemma_attach_wf(t: Seq<NodeView>, parent: usize, n: NodeView)
    requires
        tree_wf(t),
        parent < t.len() <= usize::MAX,
        t[parent as int].node_type is Directory,
        fits_under(t, parent, n),
        child_named(t, parent, n.name) is None,
    ensures
        tree_wf(attach(t, parent, n)),
{
    let after = attach(t, parent, n);
    let id = t.len() as usize;
    let kids = t[parent as int].children;
    assert(children_wf(t, parent as int));
    lemma_first_named(t, kids, n.name);
    assert(after.len() == t.len() + 1);
    assert(after[id as int] == NodeView { parent: Some(parent), ..n });
    assert(after[parent as int].children == kids.push(id));
    assert forall|i: int| 0 <= i < t.len() && i != parent implies after[i] == t[i] by {}
    assert forall|i: int| 0 <= i < t.len() implies (#[trigger] after[i]).name == t[i].name
        && after[i].parent == t[i].parent && after[i].depth == t[i].depth && after[i].path
        == t[i].path && after[i].node_type == t[i].node_type by {}
    assert forall|i: int| 0 < i < after.len() implies #[trigger] attached(after, i) by {
        if i < t.len() {
            assert(attached(t, i));
            let q = t[i].parent->0;
            let k = choose|k: int| 0 <= k < t[q as int].children.len() && t[q as int].children[k] == i as usize;
            if q == parent {
                assert(kids.push(id)[k] == i as usize);
            } else {
                assert(after[q as int].children[k] == i as usize);
            }
        } else {
            assert(kids.push(id)[kids.len() as int] == id);
        }
    }
    assert forall|i: int| 0 <= i < after.len() implies #[trigger] children_wf(after, i) by {
        if i < t.len() {
            assert(children_wf(t, i));
            if i == parent {
                let now = kids.push(id);
                assert forall|k: int| 0 <= k < now.len() implies i < #[trigger] now[k] < after.len()
                    && after[now[k] as int].parent == Some(i as usize) by {
                    if k < kids.len() {
                        assert(now[k] == kids[k]);
                    }
                }
                assert forall|k: int, l: int| 0 <= k < l < now.len() implies after[#[trigger] now[k] as int].name
                    != after[#[trigger] now[l] as int].name by {
                    assert(now[k] == kids[k]);
                    if l < kids.len() {
                        assert(now[l] == kids[l]);
                    }
                }
            } else {
                let same = t[i].children;
                assert(after[i].children == same);
                assert forall|k: int| 0 <= k < same.len() implies i < #[trigger] same[k] < after.len()
                    && after[same[k] as int].parent == Some(i as usize) by {}
            }
        }
    }
}

/// A tree that holds the root alone is well-formed.
pub proof fn lemma_with_root_wf(t: Seq<NodeView>)
    requires
        tree_wf(t),
    ensures
        tree_wf(with_root(t)),
        with_root(t).len() > 0,
{
    if t.len() == 0 {
        let r = with_root(t);
        assert(children_wf(r, 0));
    }
}

} // verus!
