//! The tree: an arena of entries with the root at position 0.

use vstd::prelude::*;
use vstd::string::*;
use crate::model::{
    attach, child_named, children_order, children_wf, first_named, fits_under, found_by_name,
    insert_at, insert_outcome, inserted, is_root, lemma_attach_wf, lemma_first_named,
    lemma_first_named_concat, lemma_first_named_single, lemma_shown_all_concat,
    lemma_with_root_wf, shown_all, shown_tree, subtree_order, tree_wf, with_root, InsertError,
};
use crate::node::{shown, Node, NodeView};
use crate::text::{contains_char, same_text, split_str, views};

verus! {

/// A tree of files and directories. It is empty until the first insertion,
/// which creates the root.
#[derive(Debug)]
pub struct Tree {
    nodes: Vec<Node>,
}

impl View for Tree {
    type V = Seq<NodeView>;

    closed spec fn view(&self) -> Seq<NodeView> {
        self.nodes@.map_values(|n: Node| n@)
    }
}

impl Clone for Tree {
    fn clone(&self) -> (copy: Self)
        ensures
            copy@ == self@,
    {
        let nodes = self.nodes.clone();
        proof {
            assert(nodes@.len() == self.nodes@.len());
            assert forall|i: int| 0 <= i < nodes@.len() implies (#[trigger] nodes@[i])@ == self.nodes@[i]@ by {
                assert(cloned(self.nodes@[i], nodes@[i]));
            }
            assert(nodes@.map_values(|n: Node| n@) =~= self.nodes@.map_values(|n: Node| n@));
        }
        Tree { nodes }
    }
}

impl Tree {
    /// Whether the entries are linked as a tree should be.
    pub open spec fn wf(&self) -> bool {
        tree_wf(self@)
    }

    /// A tree without a root.
    pub fn new() -> (tree: Tree)
        ensures
            tree@.len() == 0,
            tree.wf(),
    {
        Tree { nodes: Vec::new() }
    }

    /// The number of entries, the root included.
    pub fn len(&self) -> (len: usize)
        ensures
            len == self@.len(),
    {
        self.nodes.len()
    }

    /// The entry at position `id`, if there is one.
    pub fn get(&self, id: usize) -> (node: Option<&Node>)
        ensures
            id < self@.len() ==> node is Some && node->0@ == self@[id as int],
            id >= self@.len() ==> node is None,
    {
        if id < self.nodes.len() {
            Some(&self.nodes[id])
        } else {
            None
        }
    }

    /// The entry at position `id`.
    pub fn node(&self, id: usize) -> (node: &Node)
        requires
            id < self@.len(),
        ensures
            node@ == self@[id as int],
    {
        &self.nodes[id]
    }

    /// The root, once there is one.
    pub fn root(&self) -> (root: Option<&Node>)
        ensures
            self@.len() > 0 ==> root is Some && root->0@ == self@[0],
            self@.len() == 0 ==> root is None,
    {
        self.get(0)
    }

    /// The lines that show the tree: every entry, each directory before what
    /// it holds; for an empty tree one line that says so.
    pub fn display(&self) -> (lines: Vec<String>)
        requires
            self.wf(),
        ensures
            views(lines@) == shown_tree(self@),
    {
        let mut lines: Vec<String> = Vec::new();
        if self.nodes.len() == 0 {
            lines.push(String::from_str("No root node."));
            proof {
                assert(views(lines@) =~= seq!["No root node."@]);
            }
        } else {
            proof {
                assert(views(lines@) =~= Seq::<Seq<char>>::empty());
            }
            self.display_from(0, &mut lines);
            proof {
                assert(Seq::<Seq<char>>::empty() + shown_all(self@, subtree_order(self@, 0)) =~= shown_all(
                    self@,
                    subtree_order(self@, 0),
                ));
            }
        }
        lines
    }

    /// Adds to `lines` the lines that show the entry at `node` and everything
    /// below it.
    fn display_from(&self, node: usize, lines: &mut Vec<String>)
        requires
            self.wf(),
            node < self@.len(),
        ensures
            views(final(lines)@) == views(old(lines)@) + shown_all(self@, subtree_order(self@, node)),
        decreases self@.len() - node,
    {
        let ghost before = views(lines@);
        let ghost rest = children_order(self@, node, 0);
        let mut own = self.nodes[node].display();
        proof {
            lemma_shown_all_concat(self@, seq![node], rest);
            assert(seq![node].drop_last().len() == 0);
            assert(seq![node].last() == node);
            assert(shown_all(self@, seq![node].drop_last()) =~= Seq::<Seq<char>>::empty());
            assert(shown_all(self@, seq![node]) =~= shown(self@[node as int]));
            assert(views(lines@ + own@) =~= views(lines@) + views(own@));
        }
        lines.append(&mut own);
        let kids = &self.nodes[node].children;
        let mut k: usize = 0;
        while k < kids.len()
            invariant
                self.wf(),
                node < self@.len(),
                kids@ == self@[node as int].children,
                k <= kids.len(),
                views(lines@) + shown_all(self@, children_order(self@, node, k as int)) == before
                    + shown_all(self@, subtree_order(self@, node)),
            decreases kids.len() - k,
        {
            let ghost so_far = views(lines@);
            proof {
                assert(children_wf(self@, node as int));
                lemma_shown_all_concat(
                    self@,
                    subtree_order(self@, kids[k as int]),
                    children_order(self@, node, k + 1),
                );
            }
            self.display_from(kids[k], lines);
            proof {
                let below = shown_all(self@, subtree_order(self@, kids[k as int]));
                let after = shown_all(self@, children_order(self@, node, k + 1));
                assert((so_far + below) + after =~= so_far + (below + after));
            }
            k = k + 1;
        }
        proof {
            assert(views(lines@) + Seq::<Seq<char>>::empty() =~= views(lines@));
        }
    }

    /// The first entry called `name` on a walk from the root that visits each
    /// directory before what it holds.
    pub fn find_by_name(&self, name: String) -> (found: Option<usize>)
        requires
            self.wf(),
        ensures
            found == found_by_name(self@, name@),
    {
        if self.nodes.len() == 0 {
            None
        } else {
            self.find_by_name_recursive(0, name)
        }
    }

    /// The first entry called `name` at or below the entry at `node`.
    pub fn find_by_name_recursive(&self, node: usize, name: String) -> (found: Option<usize>)
        requires
            self.wf(),
        ensures
            found == first_named(self@, subtree_order(self@, node), name@),
        decreases self@.len() - node,
    {
        proof {
            lemma_first_named_single(self@, node, name@);
            lemma_first_named_concat(self@, seq![node], children_order(self@, node, 0), name@);
        }
        if node >= self.nodes.len() {
            proof {
                assert(subtree_order(self@, node) == seq![node]);
            }
            return None;
        }
        if same_text(self.nodes[node].name.as_str(), name.as_str()) {
            return Some(node);
        }
        let kids = &self.nodes[node].children;
        let mut k: usize = 0;
        while k < kids.len()
            invariant
                self.wf(),
                node < self@.len(),
                kids@ == self@[node as int].children,
                k <= kids.len(),
                first_named(self@, subtree_order(self@, node), name@) == first_named(
                    self@,
                    children_order(self@, node, k as int),
                    name@,
                ),
            decreases kids.len() - k,
        {
            proof {
                assert(children_wf(self@, node as int));
                lemma_first_named_concat(
                    self@,
                    subtree_order(self@, kids[k as int]),
                    children_order(self@, node, k + 1),
                    name@,
                );
            }
            let found = self.find_by_name_recursive(kids[k], name.clone());
            if found.is_some() {
                return found;
            }
            k = k + 1;
        }
        None
    }

    /// The child of the entry at `dir` that is called `name`.
    pub fn child_named(&self, dir: usize, name: &str) -> (child: Option<usize>)
        requires
            self.wf(),
            dir < self@.len(),
        ensures
            child == child_named(self@, dir, name@),
    {
        let kids = &self.nodes[dir].children;
        let mut k: usize = 0;
        proof {
            assert(children_wf(self@, dir as int));
            assert(kids@.skip(0) == kids@);
        }
        while k < kids.len()
            invariant
                self.wf(),
                dir < self@.len(),
                kids@ == self@[dir as int].children,
                k <= kids.len(),
                child_named(self@, dir, name@) == first_named(self@, kids@.skip(k as int), name@),
            decreases kids.len() - k,
        {
            let c: usize = kids[k];
            proof {
                assert(children_wf(self@, dir as int));
                assert(kids@.skip(k as int)[0] == c);
                assert(kids@.skip(k as int).drop_first() == kids@.skip(k + 1));
            }
            if same_text(self.nodes[c].name.as_str(), name) {
                return Some(c);
            }
            k = k + 1;
        }
        None
    }

    /// Whether `child` can be attached directly under the entry at `dir`.
    fn fits(&self, dir: usize, child: &Node) -> (yes: bool)
        requires
            dir < self@.len(),
        ensures
            yes == fits_under(self@, dir, child@),
    {
        let parent = &self.nodes[dir];
        if child.depth == 0 || child.depth - 1 != parent.depth {
            return false;
        }
        if child.name.as_str().is_empty() || contains_char(child.name.as_str(), '/') {
            return false;
        }
        if child.parent.is_some() || child.children.len() != 0 {
            return false;
        }
        if parent.depth == 0 {
            same_text(child.path.as_str(), child.name.as_str())
        } else {
            proof {
                reveal_strlit("/");
                assert("/"@ == seq!['/']);
            }
            let mut expected = parent.path.clone();
            expected.append("/");
            expected.append(child.name.as_str());
            same_text(child.path.as_str(), expected.as_str())
        }
    }

    /// Places `child` by a walk that starts at the entry at `node`: directly
    /// under it if `child` is one level deeper, else further down through the
    /// child that bears the next segment of `child`'s path. A start that is no
    /// entry of the tree counts as a missing ancestor. The tree changes only
    /// when the walk succeeds.
    pub fn insert_recursive(&mut self, node: usize, child: Node) -> (outcome: Result<(), InsertError>)
        requires
            old(self).wf(),
        ensures
            final(self).wf(),
            outcome == insert_outcome(old(self)@, node, child@),
            final(self)@ == (match insert_at(old(self)@, node, child@) {
                Ok(parent) => attach(old(self)@, parent, child@),
                Err(_) => old(self)@,
            }),
        decreases old(self)@.len() - node,
    {
        if node >= self.nodes.len() {
            return Err(InsertError::MissingAncestor);
        }
        if !self.nodes[node].is_directory() {
            return Err(InsertError::NotADirectory);
        }
        let here: u64 = self.nodes[node].depth;
        if child.depth > 0 && child.depth - 1 == here {
            if !self.fits(node, &child) {
                return Err(InsertError::Malformed);
            }
            if self.child_named(node, child.name.as_str()).is_some() {
                return Err(InsertError::AlreadyExists);
            }
            proof {
                lemma_attach_wf(self@, node, child@);
            }
            self.attach_under(node, child);
            Ok(())
        } else if child.depth <= here {
            Err(InsertError::Malformed)
        } else {
            let segments = split_str(child.path.as_str(), '/');
            if here >= segments.len() as u64 {
                return Err(InsertError::Malformed);
            }
            let next = self.child_named(node, segments[here as usize].as_str());
            match next {
                None => Err(InsertError::MissingAncestor),
                Some(below) => {
                    proof {
                        assert(children_wf(self@, node as int));
                        lemma_first_named(self@, self@[node as int].children, segments[here as int]@);
                    }
                    self.insert_recursive(below, child)
                },
            }
        }
    }

    /// Inserts `node` where its path says. The first insertion creates the
    /// root, whether or not `node` can then be placed.
    pub fn insert(&mut self, node: Node) -> (outcome: Result<(), InsertError>)
        requires
            old(self).wf(),
        ensures
            final(self).wf(),
            final(self)@.len() > 0,
            is_root(final(self)@[0]),
            outcome == insert_outcome(with_root(old(self)@), 0, node@),
            final(self)@ == inserted(old(self)@, node@),
    {
        if self.nodes.len() == 0 {
            self.nodes.push(Node::new_root());
            proof {
                assert(self@ == with_root(old(self)@));
            }
        }
        proof {
            lemma_with_root_wf(old(self)@);
        }
        self.insert_recursive(0, node)
    }

    /// Puts `child` at the end of the arena, with the entry at `dir` as its
    /// parent, and lists it last among what that entry holds.
    fn attach_under(&mut self, dir: usize, child: Node)
        requires
            old(self).wf(),
            dir < old(self)@.len(),
        ensures
            final(self)@ == attach(old(self)@, dir, child@),
    {
        let id: usize = self.nodes.len();
        let mut child = child;
        child.set_parent(dir);
        self.nodes.push(child);
        self.nodes[dir].children.push(id);
    }
}

} // verus!
