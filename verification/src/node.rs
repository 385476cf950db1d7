//! A single entry of the tree: a file or a directory.

use vstd::prelude::*;
use vstd::string::*;
use crate::text::{decimal, decimal_str, repeat_str, repeated, views};

verus! {

/// What an entry is. Only a directory may have children.
#[derive(Clone, Copy, Debug, PartialEq, Eq, Structural)]
pub enum NodeType {
    File(),
    Directory(),
}

/// The text an entry was read from, kept for diagnostics.
#[derive(Debug)]
pub struct NodeData {
    /// The line as it was given.
    pub default_path: String,
    /// The number of characters of that line.
    pub length: u64,
}

/// An entry of the tree. Entries live in the tree's arena and refer to each
/// other by their position in it.
#[derive(Debug)]
pub struct Node {
    pub node_type: NodeType,
    pub data: NodeData,
    /// The number of segments from the root down to this entry.
    pub depth: u64,
    /// The segments from the root down to this entry, joined with `/`.
    pub path: String,
    /// The last segment of the path.
    pub name: String,
    /// The position of the directory that holds this entry.
    pub parent: Option<usize>,
    /// The positions of the entries that this directory holds, in the order
    /// in which they were attached.
    pub children: Vec<usize>,
}

/// The mathematical content of a [`Node`].
pub struct NodeView {
    pub node_type: NodeType,
    pub default_path: Seq<char>,
    pub length: nat,
    pub depth: nat,
    pub path: Seq<char>,
    pub name: Seq<char>,
    pub parent: Option<usize>,
    pub children: Seq<usize>,
}

impl View for Node {
    type V = NodeView;

    open spec fn view(&self) -> NodeView {
        NodeView {
            node_type: self.node_type,
            default_path: self.data.default_path@,
            length: self.data.length as nat,
            depth: self.depth as nat,
            path: self.path@,
            name: self.name@,
            parent: self.parent,
            children: self.children@,
        }
    }
}

/// The name that the root directory bears.
pub open spec fn root_name() -> Seq<char> {
    seq!['r', 'o', 'o', 't']
}

/// The root directory before anything is attached to it.
pub open spec fn root_view() -> NodeView {
    NodeView {
        node_type: NodeType::Directory(),
        default_path: seq!['/'],
        length: 1,
        depth: 0,
        path: Seq::empty(),
        name: root_name(),
        parent: None,
        children: Seq::empty(),
    }
}

/// The kind that a name stands for: a name with a dot in it is a file's.
pub open spec fn kind_of_name(name: Seq<char>) -> NodeType {
    if name.contains('.') {
        NodeType::File()
    } else {
        NodeType::Directory()
    }
}

/// The lines that show an entry: what it is and its name, then for a
/// directory the number of entries that it holds, then path and depth. Each
/// line is indented by two spaces for each level of depth.
pub open spec fn shown(n: NodeView) -> Seq<Seq<char>> {
    let indent = repeated(seq![' ', ' '], n.depth);
    match n.node_type {
        NodeType::File() => seq![
            indent + "File: "@ + n.name,
            indent + " Path: "@ + n.path,
            indent + " Depth: "@ + decimal(n.depth),
        ],
        NodeType::Directory() => seq![
            indent + "Directory: "@ + n.name,
            indent + " Children: "@ + decimal(n.children.len()),
            indent + " Path: "@ + n.path,
            indent + " Depth: "@ + decimal(n.depth),
        ],
    }
}

/// Tells a file's name from a directory's by the dot in it.
pub fn classify(name: &str) -> (kind: NodeType)
    ensures
        kind == kind_of_name(name@),
{
    if crate::text::contains_char(name, '.') {
        NodeType::File()
    } else {
        NodeType::Directory()
    }
}

impl Clone for NodeData {
    fn clone(&self) -> (copy: Self)
        ensures
            copy.default_path@ == self.default_path@,
            copy.length == self.length,
    {
        NodeData { default_path: self.default_path.clone(), length: self.length }
    }
}

impl Clone for Node {
    fn clone(&self) -> (copy: Self)
        ensures
            copy@ == self@,
    {
        Node {
            node_type: self.node_type,
            data: self.data.clone(),
            depth: self.depth,
            path: self.path.clone(),
            name: self.name.clone(),
            parent: self.parent,
            children: self.children.clone(),
        }
    }
}

impl Node {
    /// The root directory: named `root`, at depth 0, with an empty path.
    pub fn new_root() -> (root: Node)
        ensures
            root@ == root_view(),
    {
        proof {
            reveal_strlit("/");
            reveal_strlit("");
            reveal_strlit("root");
            assert("/"@ == seq!['/']);
            assert(""@ == Seq::<char>::empty());
            assert("root"@ == root_name());
        }
        Node {
            node_type: NodeType::Directory(),
            data: NodeData { default_path: String::from_str("/"), length: 1 },
            depth: 0,
            path: String::from_str(""),
            name: String::from_str("root"),
            parent: None,
            children: Vec::new(),
        }
    }

    /// A file that is not yet attached to a tree.
    pub fn new_file(data: NodeData, depth: u64, path: String, name: String) -> (node: Node)
        ensures
            node@ == (NodeView {
                node_type: NodeType::File(),
                default_path: data.default_path@,
                length: data.length as nat,
                depth: depth as nat,
                path: path@,
                name: name@,
                parent: None,
                children: Seq::empty(),
            }),
    {
        Node {
            node_type: NodeType::File(),
            data,
            depth,
            path,
            name,
            parent: None,
            children: Vec::new(),
        }
    }

    /// A directory that is not yet attached to a tree.
    pub fn new_directory(data: NodeData, depth: u64, path: String, name: String) -> (node: Node)
        ensures
            node@ == (NodeView {
                node_type: NodeType::Directory(),
                default_path: data.default_path@,
                length: data.length as nat,
                depth: depth as nat,
                path: path@,
                name: name@,
                parent: None,
                children: Seq::empty(),
            }),
    {
        Node {
            node_type: NodeType::Directory(),
            data,
            depth,
            path,
            name,
            parent: None,
            children: Vec::new(),
        }
    }

    /// The number of segments from the root down to this entry.
    pub fn depth(&self) -> (depth: u64)
        ensures
            depth == self@.depth,
    {
        self.depth
    }

    /// The last segment of the path.
    pub fn name(&self) -> (name: String)
        ensures
            name@ == self@.name,
    {
        self.name.clone()
    }

    /// The path from the root down to this entry.
    pub fn path(&self) -> (path: String)
        ensures
            path@ == self@.path,
    {
        self.path.clone()
    }

    /// Records the position of the directory that holds this entry.
    pub fn set_parent(&mut self, parent: usize)
        ensures
            final(self)@ == (NodeView { parent: Some(parent), ..old(self)@ }),
    {
        self.parent = Some(parent);
    }

    /// The lines that show this entry, without what it holds.
    pub fn display(&self) -> (lines: Vec<String>)
        ensures
            views(lines@) == shown(self@),
    {
        proof {
            reveal_strlit("  ");
            assert("  "@ == seq![' ', ' ']);
        }
        let indent = repeat_str("  ", self.depth);
        let mut lines: Vec<String> = Vec::new();
        match self.node_type {
            NodeType::File() => {
                lines.push(indent.clone().concat("File: ").concat(self.name.as_str()));
            },
            NodeType::Directory() => {
                lines.push(indent.clone().concat("Directory: ").concat(self.name.as_str()));
                let count = decimal_str(self.children.len() as u64);
                lines.push(indent.clone().concat(" Children: ").concat(count.as_str()));
            },
        }
        lines.push(indent.clone().concat(" Path: ").concat(self.path.as_str()));
        let depth = decimal_str(self.depth);
        lines.push(indent.concat(" Depth: ").concat(depth.as_str()));
        proof {
            assert(views(lines@) =~= shown(self@));
        }
        lines
    }

    /// Whether this entry is a directory.
    pub fn is_directory(&self) -> (yes: bool)
        ensures
            yes == (self@.node_type is Directory),
    {
        self.node_type == NodeType::Directory()
    }
}

} // verus!
