//! The session: a tree, a position in it, and the table of commands.

use vstd::prelude::*;
use vstd::string::*;
use crate::commands::cd::{cd, cd_outcome};
use crate::commands::ls::{is_ls_outcome, ls};
use crate::commands::{
    arg_views, is_report_of, registered, unknown_command, unknown_command_message, CommandFn,
    CommandManager, CommandWrapper,
};
use crate::model::{
    attached, build_step, built, child_named, child_names, children_wf, tree_wf, InsertError,
};
use crate::node::{Node, NodeView};
use crate::order::{ascending, sort_names};
use crate::parser::{parse_line, parsed, ParseError};
use crate::text::{lemma_split_pieces, same_text, split, split_str, views};
use crate::tree::Tree;

verus! {

/// Why the input list gave no tree.
#[allow(inconsistent_fields)]
#[derive(Clone, Copy, Debug, PartialEq, Eq, Structural)]
pub enum LoadError {
    /// The line at this position names no entry.
    Parse { line: usize, error: ParseError },
    /// The entry of the line at this position could not be placed.
    Insert { line: usize, error: InsertError },
}

/// Why a move or a listing failed.
#[derive(Clone, Copy, Debug, PartialEq, Eq, Structural)]
pub enum NavError {
    /// The tree is empty, so there is no position in it.
    NoCurrentNode,
    /// The current entry holds nothing of that name.
    DoesNotExist,
    /// The entry of that name is a file.
    NotADirectory,
}

/// A position in a tree, with the path and the depth that are shown for it.
pub struct Cursor {
    pub node: Option<usize>,
    pub path: Seq<char>,
    pub depth: nat,
}

/// The position at the entry `id`: its path is shown behind a `/`.
pub open spec fn cursor_at(t: Seq<NodeView>, id: usize) -> Cursor {
    Cursor { node: Some(id), path: seq!['/'] + t[id as int].path, depth: t[id as int].depth }
}

/// The position in an empty tree.
pub open spec fn no_cursor() -> Cursor {
    Cursor { node: None, path: seq!['/'], depth: 0 }
}

/// Whether `c` is a position in `t`: at one of its entries, or nowhere if `t`
/// is empty.
pub open spec fn cursor_wf(t: Seq<NodeView>, c: Cursor) -> bool {
    match c.node {
        Some(id) => id < t.len() && c == cursor_at(t, id),
        None => t.len() == 0 && c == no_cursor(),
    }
}

/// The position at the root, or nowhere if `t` is empty.
pub open spec fn root_cursor(t: Seq<NodeView>) -> Cursor {
    if t.len() == 0 {
        no_cursor()
    } else {
        cursor_at(t, 0)
    }
}

/// The segment that stands for the directory above.
pub open spec fn parent_segment() -> Seq<char> {
    seq!['.', '.']
}

/// The position after a move by one segment, and what the move reports.
/// `..` leads to the parent and stays at the root; any other segment leads to
/// the child of that name if it is a directory. A move that fails leaves the
/// position as it was.
pub open spec fn entered(t: Seq<NodeView>, c: Cursor, segment: Seq<char>) -> (Cursor, Result<(), NavError>) {
    match c.node {
        None => (c, Err(NavError::NoCurrentNode)),
        Some(cur) => if segment == parent_segment() {
            match t[cur as int].parent {
                Some(above) => (cursor_at(t, above), Ok(())),
                None => (c, Ok(())),
            }
        } else {
            match child_named(t, cur, segment) {
                None => (c, Err(NavError::DoesNotExist)),
                Some(below) => if t[below as int].node_type is Directory {
                    (cursor_at(t, below), Ok(()))
                } else {
                    (c, Err(NavError::NotADirectory))
                },
            }
        },
    }
}

/// Whether `names` lists what the entry at `dir` holds: every child's name
/// once, in ascending order.
pub open spec fn is_listing(t: Seq<NodeView>, dir: usize, names: Seq<Seq<char>>) -> bool {
    &&& ascending(names)
    &&& names.no_duplicates()
    &&& names.to_multiset() == child_names(t, dir).to_multiset()
}

/// In a well-formed tree no two children of an entry bear one name.
pub proof fn lemma_child_names_distinct(t: Seq<NodeView>, dir: usize)
    requires
        tree_wf(t),
        dir < t.len(),
    ensures
        child_names(t, dir).no_duplicates(),
{
    assert(children_wf(t, dir as int));
    let names = child_names(t, dir);
    let kids = t[dir as int].children;
    assert forall|i: int, j: int| 0 <= i < names.len() && 0 <= j < names.len() && i != j implies names[i]
        != names[j] by {
        if i < j {
            assert(t[kids[i] as int].name != t[kids[j] as int].name);
        } else {
            assert(t[kids[j] as int].name != t[kids[i] as int].name);
        }
    }
}

/// What the table holds under `name`.
pub open spec fn command_of(table: Map<Seq<char>, CommandWrapper>, name: Seq<char>) -> Option<CommandFn> {
    if table.contains_key(name) {
        Some(table[name].0)
    } else {
        None
    }
}

/// Whether a command run leads from the position `before` to `after` with
/// `outcome`. A name that the table does not hold is reported and nothing
/// moves. `cd` moves as its arguments say and prints nothing. `ls` moves
/// nothing and prints the listing.
pub open spec fn is_run_of(
    t: Seq<NodeView>,
    table: Map<Seq<char>, CommandWrapper>,
    before: Cursor,
    cmd_name: Seq<char>,
    args: Seq<Seq<char>>,
    after: Cursor,
    outcome: Result<Vec<String>, String>,
) -> bool {
    match command_of(table, cmd_name) {
        None => {
            &&& after == before
            &&& outcome is Err
            &&& outcome->Err_0@ == unknown_command(cmd_name)
        },
        Some(CommandFn::Cd) => {
            &&& after == cd_outcome(t, before, args).0
            &&& is_report_of(outcome, cd_outcome(t, before, args).1)
            &&& outcome is Ok ==> outcome->Ok_0@.len() == 0
        },
        Some(CommandFn::Ls) => {
            &&& after == before
            &&& is_ls_outcome(t, before.node, args, outcome)
        },
    }
}

/// The text without the white space at its ends, as `str::trim` gives it.
pub uninterp spec fn trimmed_text(text: Seq<char>) -> Seq<char>;

/// The text in lower case, as `str::to_lowercase` gives it.
pub uninterp spec fn lowercase_text(text: Seq<char>) -> Seq<char>;

/// The words of a line of the prompt: the line without the white space at its
/// ends, split at each space.
pub open spec fn words_of(line: Seq<char>) -> Seq<Seq<char>> {
    split(trimmed_text(line), ' ')
}

/// Takes the white space off both ends of `text`. This calls `str::trim`,
/// which goes by the Unicode property `White_Space`; Verus does not read it,
/// and the contract says only that equal texts are trimmed alike.
#[verifier::external_body]
fn trim(text: &str) -> (trimmed: &str)
    ensures
        trimmed@ == trimmed_text(text@),
{
    text.trim()
}

/// Puts `text` in lower case. This calls `str::to_lowercase`, which goes by
/// the Unicode property `Lowercase`; Verus does not read it, and the contract
/// says only that equal texts give equal results.
#[verifier::external_body]
fn to_lowercase(text: &str) -> (lower: String)
    ensures
        lower@ == lowercase_text(text@),
{
    text.to_lowercase()
}

/// The entries that the lines name, where each line names one.
pub open spec fn parsed_entries(lines: Seq<String>) -> Seq<NodeView> {
    lines.map_values(|line: String| parsed(line@)->Ok_0)
}

/// The contents of the entries.
pub open spec fn node_views(nodes: Seq<Node>) -> Seq<NodeView> {
    nodes.map_values(|n: Node| n@)
}

/// A session on a tree.
#[derive(Debug)]
pub struct ACli {
    pub tree: Tree,
    pub current_node: Option<usize>,
    pub current_path: String,
    pub current_depth: u64,
    pub command_manager: CommandManager,
}

impl Clone for ACli {
    fn clone(&self) -> (copy: Self)
        ensures
            copy.tree@ == self.tree@,
            copy.command_manager@ == self.command_manager@,
            copy.cursor() == self.cursor(),
            self.wf() ==> copy.wf(),
    {
        ACli {
            tree: self.tree.clone(),
            current_node: self.current_node,
            current_path: self.current_path.clone(),
            current_depth: self.current_depth,
            command_manager: self.command_manager.clone(),
        }
    }
}

impl ACli {
    /// The position of the session.
    pub open spec fn cursor(&self) -> Cursor {
        Cursor {
            node: self.current_node,
            path: self.current_path@,
            depth: self.current_depth as nat,
        }
    }

    /// Whether the session is in order: the tree is well-formed and the
    /// position lies in it.
    pub open spec fn wf(&self) -> bool {
        &&& self.tree.wf()
        &&& self.command_manager.wf()
        &&& cursor_wf(self.tree@, self.cursor())
    }

    /// Registers `command` under `name`, unless the name is taken. Tells
    /// whether the command was registered.
    pub fn register_command(&mut self, name: String, command: CommandFn) -> (added: bool)
        requires
            old(self).wf(),
        ensures
            final(self).wf(),
            final(self).tree == old(self).tree,
            final(self).cursor() == old(self).cursor(),
            added == !old(self).command_manager@.contains_key(name@),
            final(self).command_manager@ == registered(old(self).command_manager@, name@, command),
    {
        self.command_manager.add_command(name, command)
    }

    /// Registers the commands that every session has: `ls` and `cd`.
    fn init_commands(&mut self)
        requires
            old(self).wf(),
        ensures
            final(self).wf(),
            final(self).tree == old(self).tree,
            final(self).cursor() == old(self).cursor(),
            final(self).command_manager@ == registered(
                registered(old(self).command_manager@, "ls"@, CommandFn::Ls),
                "cd"@,
                CommandFn::Cd,
            ),
    {
        self.register_command(String::from_str("ls"), CommandFn::Ls);
        self.register_command(String::from_str("cd"), CommandFn::Cd);
    }

    /// Makes the session ready for commands: `ls` and `cd` are registered,
    /// each unless its name is taken.
    pub fn init(&mut self)
        requires
            old(self).wf(),
        ensures
            final(self).wf(),
            final(self).tree == old(self).tree,
            final(self).cursor() == old(self).cursor(),
            final(self).command_manager@ == registered(
                registered(old(self).command_manager@, "ls"@, CommandFn::Ls),
                "cd"@,
                CommandFn::Cd,
            ),
    {
        self.init_commands();
    }

    /// A session on the tree that the lines build, at its root, with no
    /// command registered. The first line that names no entry, or whose entry
    /// cannot be placed, is reported and no session is made.
    pub fn new_from_lines(lines: Vec<String>) -> (outcome: Result<ACli, LoadError>)
        ensures
            match outcome {
                Ok(cli) => {
                    &&& cli.wf()
                    &&& forall|i: int| 0 <= i < lines@.len() ==> parsed(#[trigger] lines@[i]@) is Ok
                    &&& forall|i: int|
                        0 <= i < lines@.len() ==> #[trigger] build_step(parsed_entries(lines@), i) is Ok
                    &&& cli.tree@ == built(parsed_entries(lines@))
                    &&& cli.cursor() == root_cursor(cli.tree@)
                    &&& cli.command_manager@ == Map::<Seq<char>, CommandWrapper>::empty()
                },
                Err(LoadError::Parse { line, error }) => {
                    &&& line < lines@.len()
                    &&& forall|i: int| 0 <= i < line ==> parsed(#[trigger] lines@[i]@) is Ok
                    &&& parsed(lines@[line as int]@) == Err::<NodeView, ParseError>(error)
                },
                Err(LoadError::Insert { line, error }) => {
                    &&& line < lines@.len()
                    &&& forall|i: int| 0 <= i < lines@.len() ==> parsed(#[trigger] lines@[i]@) is Ok
                    &&& forall|i: int| 0 <= i < line ==> #[trigger] build_step(parsed_entries(lines@), i) is Ok
                    &&& build_step(parsed_entries(lines@), line as int) == Err::<(), InsertError>(error)
                },
            },
    {
        let nodes = match ACli::parse_file(lines) {
            Ok(nodes) => nodes,
            Err(error) => {
                return Err(error);
            },
        };
        let tree = match ACli::create_tree(nodes) {
            Ok(tree) => tree,
            Err(error) => {
                return Err(error);
            },
        };
        proof {
            reveal_strlit("/");
            assert("/"@ == seq!['/']);
            assert(seq!['/'] + Seq::<char>::empty() == seq!['/']);
        }
        let current_node: Option<usize> = if tree.len() > 0 {
            Some(0)
        } else {
            None
        };
        Ok(
            ACli {
                current_node,
                current_depth: 0,
                current_path: String::from_str("/"),
                tree,
                command_manager: CommandManager::new(),
            },
        )
    }

    /// Runs the command registered under `cmd_name` with `args`, and gives
    /// the lines that it prints.
    pub fn run_command(&mut self, cmd_name: String, args: Vec<&str>) -> (outcome: Result<
        Vec<String>,
        String,
    >)
        requires
            old(self).wf(),
        ensures
            final(self).wf(),
            final(self).tree == old(self).tree,
            final(self).command_manager == old(self).command_manager,
            is_run_of(
                old(self).tree@,
                old(self).command_manager@,
                old(self).cursor(),
                cmd_name@,
                arg_views(args@),
                final(self).cursor(),
                outcome,
            ),
    {
        let found: Option<CommandFn> = match self.command_manager.get_command(cmd_name.clone()) {
            Some(wrapper) => Some(wrapper.0),
            None => None,
        };
        match found {
            None => Err(unknown_command_message(cmd_name.as_str())),
            Some(CommandFn::Ls) => ls(args, self),
            Some(CommandFn::Cd) => match cd(args, self) {
                Ok(()) => Ok(Vec::new()),
                Err(message) => Err(message),
            },
        }
    }

    /// Runs a line of the prompt: the line without the white space at its
    /// ends is split at each space; the first word, in lower case, names the
    /// command, and the other words are its arguments.
    pub fn run_line(&mut self, input: &str) -> (outcome: Result<Vec<String>, String>)
        requires
            old(self).wf(),
        ensures
            final(self).wf(),
            final(self).tree == old(self).tree,
            final(self).command_manager == old(self).command_manager,
            is_run_of(
                old(self).tree@,
                old(self).command_manager@,
                old(self).cursor(),
                lowercase_text(words_of(input@)[0]),
                words_of(input@).skip(1),
                final(self).cursor(),
                outcome,
            ),
    {
        let words = split_str(trim(input), ' ');
        proof {
            lemma_split_pieces(trimmed_text(input@), ' ');
        }
        let command = to_lowercase(words[0].as_str());
        let mut args: Vec<&str> = Vec::new();
        let mut i: usize = 1;
        while i < words.len()
            invariant
                1 <= i <= words.len(),
                arg_views(args@) == views(words@).subrange(1, i as int),
            decreases words.len() - i,
        {
            let word: &str = words[i].as_str();
            proof {
                assert(arg_views(args@.push(word)) == arg_views(args@).push(word@));
                assert(views(words@).subrange(1, i + 1) == views(words@).subrange(1, i as int).push(
                    word@,
                ));
            }
            args.push(word);
            i = i + 1;
        }
        proof {
            assert(views(words@).subrange(1, words@.len() as int) == views(words@).skip(1));
        }
        self.run_command(command, args)
    }

    /// Moves to the entry at `node`, if the tree has one there. Tells whether
    /// it moved.
    pub fn set_current_node(&mut self, node: usize) -> (moved: bool)
        requires
            old(self).wf(),
        ensures
            final(self).wf(),
            final(self).tree == old(self).tree,
            final(self).command_manager == old(self).command_manager,
            moved == (node < old(self).tree@.len()),
            final(self).cursor() == (if moved {
                cursor_at(old(self).tree@, node)
            } else {
                old(self).cursor()
            }),
    {
        if node >= self.tree.len() {
            return false;
        }
        proof {
            reveal_strlit("/");
            assert("/"@ == seq!['/']);
        }
        let entry = self.tree.node(node);
        let mut path = String::from_str("/");
        path.append(entry.path.as_str());
        self.current_depth = entry.depth;
        self.current_path = path;
        self.current_node = Some(node);
        true
    }

    /// The entry at which the session stands.
    pub fn get_current_node(&self) -> (node: Option<Node>)
        requires
            self.wf(),
        ensures
            match self.current_node {
                Some(id) => node is Some && node->0@ == self.tree@[id as int],
                None => node is None,
            },
    {
        match self.current_node {
            Some(id) => Some(self.tree.node(id).clone()),
            None => None,
        }
    }

    /// Moves by one segment: `..` leads to the parent and stays at the root,
    /// any other segment leads to the child directory of that name.
    pub fn enter(&mut self, segment: &str) -> (outcome: Result<(), NavError>)
        requires
            old(self).wf(),
        ensures
            final(self).wf(),
            final(self).tree == old(self).tree,
            final(self).command_manager == old(self).command_manager,
            (final(self).cursor(), outcome) == entered(old(self).tree@, old(self).cursor(), segment@),
    {
        let cur: usize = match self.current_node {
            Some(cur) => cur,
            None => {
                return Err(NavError::NoCurrentNode);
            },
        };
        proof {
            reveal_strlit("..");
            assert(".."@ == parent_segment());
            if cur > 0 {
                assert(attached(self.tree@, cur as int));
            }
        }
        if same_text(segment, "..") {
            match self.tree.node(cur).parent {
                Some(above) => {
                    self.set_current_node(above);
                },
                None => {},
            }
            return Ok(());
        }
        match self.tree.child_named(cur, segment) {
            None => Err(NavError::DoesNotExist),
            Some(below) => {
                proof {
                    assert(children_wf(self.tree@, cur as int));
                    crate::model::lemma_first_named(
                        self.tree@,
                        self.tree@[cur as int].children,
                        segment@,
                    );
                }
                if self.tree.node(below).is_directory() {
                    self.set_current_node(below);
                    Ok(())
                } else {
                    Err(NavError::NotADirectory)
                }
            },
        }
    }

    /// Moves to the root.
    pub fn enter_root(&mut self) -> (outcome: Result<(), NavError>)
        requires
            old(self).wf(),
        ensures
            final(self).wf(),
            final(self).tree == old(self).tree,
            final(self).command_manager == old(self).command_manager,
            final(self).cursor() == root_cursor(old(self).tree@),
            outcome == (if old(self).tree@.len() == 0 {
                Err::<(), NavError>(NavError::NoCurrentNode)
            } else {
                Ok(())
            }),
    {
        if self.set_current_node(0) {
            Ok(())
        } else {
            Err(NavError::NoCurrentNode)
        }
    }

    /// The names of what the current entry holds, in ascending order.
    pub fn list(&self) -> (outcome: Result<Vec<String>, NavError>)
        requires
            self.wf(),
        ensures
            match self.current_node {
                None => outcome == Err::<Vec<String>, NavError>(NavError::NoCurrentNode),
                Some(cur) => outcome is Ok && is_listing(self.tree@, cur, views(outcome->Ok_0@)),
            },
    {
        let cur: usize = match self.current_node {
            Some(cur) => cur,
            None => {
                return Err(NavError::NoCurrentNode);
            },
        };
        let kids = &self.tree.node(cur).children;
        let mut names: Vec<String> = Vec::new();
        let mut k: usize = 0;
        proof {
            assert(children_wf(self.tree@, cur as int));
        }
        while k < kids.len()
            invariant
                self.wf(),
                cur < self.tree@.len(),
                kids@ == self.tree@[cur as int].children,
                k <= kids.len(),
                children_wf(self.tree@, cur as int),
                views(names@) == child_names(self.tree@, cur).take(k as int),
            decreases kids.len() - k,
        {
            let name = self.tree.node(kids[k]).name.clone();
            proof {
                assert(views(names@.push(name)) == views(names@).push(name@));
                assert(child_names(self.tree@, cur).take(k + 1) == child_names(self.tree@, cur).take(
                    k as int,
                ).push(name@));
            }
            names.push(name);
            k = k + 1;
        }
        let sorted = sort_names(&names);
        proof {
            let all = child_names(self.tree@, cur);
            assert(all.take(kids@.len() as int) == all);
            lemma_child_names_distinct(self.tree@, cur);
            all.lemma_multiset_has_no_duplicates();
            views(sorted@).lemma_multiset_has_no_duplicates_conv();
        }
        Ok(sorted)
    }

    /// Reads each line into an entry. The first line that names no entry
    /// stops the reading and is reported.
    pub fn parse_file(lines: Vec<String>) -> (outcome: Result<Vec<Node>, LoadError>)
        ensures
            match outcome {
                Ok(nodes) => {
                    &&& forall|i: int| 0 <= i < lines@.len() ==> parsed(#[trigger] lines@[i]@) is Ok
                    &&& node_views(nodes@) == parsed_entries(lines@)
                },
                Err(LoadError::Parse { line, error }) => {
                    &&& line < lines@.len()
                    &&& forall|i: int| 0 <= i < line ==> parsed(#[trigger] lines@[i]@) is Ok
                    &&& parsed(lines@[line as int]@) == Err::<NodeView, ParseError>(error)
                },
                Err(LoadError::Insert { .. }) => false,
            },
    {
        let mut nodes: Vec<Node> = Vec::new();
        let mut i: usize = 0;
        while i < lines.len()
            invariant
                i <= lines.len(),
                forall|j: int| 0 <= j < i ==> parsed(#[trigger] lines@[j]@) is Ok,
                node_views(nodes@) == parsed_entries(lines@.take(i as int)),
            decreases lines.len() - i,
        {
            match parse_line(lines[i].as_str()) {
                Ok(node) => {
                    proof {
                        assert(node_views(nodes@.push(node)) == node_views(nodes@).push(node@));
                        assert(lines@.take(i + 1) == lines@.take(i as int).push(lines@[i as int]));
                        assert(parsed_entries(lines@.take(i + 1)) == parsed_entries(
                            lines@.take(i as int),
                        ).push(node@));
                    }
                    nodes.push(node);
                },
                Err(error) => {
                    return Err(LoadError::Parse { line: i, error });
                },
            }
            i = i + 1;
        }
        proof {
            assert(lines@.take(lines@.len() as int) == lines@);
        }
        Ok(nodes)
    }

    /// Builds a tree by inserting the entries in order. The first entry that
    /// cannot be placed stops the building and is reported.
    pub fn create_tree(nodes: Vec<Node>) -> (outcome: Result<Tree, LoadError>)
        ensures
            match outcome {
                Ok(tree) => {
                    &&& tree.wf()
                    &&& tree@ == built(node_views(nodes@))
                    &&& forall|i: int| 0 <= i < nodes@.len() ==> #[trigger] build_step(node_views(nodes@), i) is Ok
                },
                Err(LoadError::Insert { line, error }) => {
                    &&& line < nodes@.len()
                    &&& forall|i: int| 0 <= i < line ==> #[trigger] build_step(node_views(nodes@), i) is Ok
                    &&& build_step(node_views(nodes@), line as int) == Err::<(), InsertError>(error)
                },
                Err(LoadError::Parse { .. }) => false,
            },
    {
        broadcast use vstd::std_specs::vec::axiom_spec_into_iter;

        let mut tree = Tree::new();
        let mut line: usize = 0;
        let total: usize = nodes.len();
        let ghost all = node_views(nodes@);
        proof {
            assert(all.take(0) == Seq::<NodeView>::empty());
        }
        for node in it: nodes
            invariant
                it.seq() == nodes@,
                total == nodes@.len(),
                line == it.index(),
                all == node_views(nodes@),
                tree.wf(),
                tree@ == built(all.take(it.index())),
                forall|j: int| 0 <= j < it.index() ==> #[trigger] build_step(all, j) is Ok,
        {
            proof {
                let i = it.index();
                assert(all.take(i + 1).drop_last() == all.take(i));
                assert(all.take(i + 1).last() == node@);
            }
            match tree.insert(node) {
                Ok(()) => {},
                Err(error) => {
                    return Err(LoadError::Insert { line, error });
                },
            }
            line = line + 1;
        }
        proof {
            assert(all.take(nodes@.len() as int) == all);
        }
        Ok(tree)
    }
}

} // verus!
