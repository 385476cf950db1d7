//! Reading one line of the input list into an entry.

use vstd::prelude::*;
use vstd::string::*;
use crate::node::{classify, kind_of_name, Node, NodeData, NodeType, NodeView};
use crate::text::{join, join_str, lemma_split_pieces, same_text, split, split_str, views};

verus! {

/// Why a line names no entry.
#[derive(Clone, Copy, Debug, PartialEq, Eq, Structural)]
pub enum ParseError {
    /// Nothing is left of the line once a leading `.` segment and the empty
    /// segment behind a trailing `/` are dropped.
    NoSegments,
    /// The last segment that is left is empty.
    EmptyName,
}

/// The segments that a line names: its pieces between `/`, without a leading
/// `.` piece and without the empty piece that a trailing `/` leaves.
pub open spec fn segments_of(line: Seq<char>) -> Seq<Seq<char>> {
    let pieces = split(line, '/');
    let rest = if pieces[0] == seq!['.'] {
        pieces.drop_first()
    } else {
        pieces
    };
    if rest.len() > 0 && rest.last().len() == 0 {
        rest.drop_last()
    } else {
        rest
    }
}

/// The entry that a line names. Its depth is the number of its segments, its
/// name the last of them, its path their join; a dot in the name makes it a
/// file.
pub open spec fn parsed(line: Seq<char>) -> Result<NodeView, ParseError> {
    let segments = segments_of(line);
    if segments.len() == 0 {
        Err(ParseError::NoSegments)
    } else if segments.last().len() == 0 {
        Err(ParseError::EmptyName)
    } else {
        Ok(
            NodeView {
                node_type: kind_of_name(segments.last()),
                default_path: line,
                length: line.len(),
                depth: segments.len(),
                path: join(segments, seq!['/']),
                name: segments.last(),
                parent: None,
                children: Seq::empty(),
            },
        )
    }
}

/// Whether `outcome` is what `parsed` says of `line`.
pub open spec fn is_parse_of(outcome: Result<Node, ParseError>, line: Seq<char>) -> bool {
    match parsed(line) {
        Ok(view) => outcome is Ok && outcome->Ok_0@ == view,
        Err(error) => outcome is Err && outcome->Err_0 == error,
    }
}

/// The segments that `line` names.
pub fn segments(line: &str) -> (segments: Vec<String>)
    ensures
        views(segments@) == segments_of(line@),
{
    let mut pieces = split_str(line, '/');
    proof {
        lemma_split_pieces(line@, '/');
        reveal_strlit(".");
        assert("."@ == seq!['.']);
    }
    if same_text(pieces[0].as_str(), ".") {
        let ghost before = pieces@;
        pieces.remove(0);
        proof {
            assert(views(pieces@) == views(before).drop_first());
        }
    }
    if pieces.len() > 0 && pieces[pieces.len() - 1].as_str().is_empty() {
        let ghost before = pieces@;
        pieces.pop();
        proof {
            assert(views(pieces@) == views(before).drop_last());
        }
    }
    pieces
}

/// Reads one line into an entry that is not yet attached to a tree.
pub fn parse_line(line: &str) -> (outcome: Result<Node, ParseError>)
    ensures
        is_parse_of(outcome, line@),
{
    let segments = segments(line);
    let depth: usize = segments.len();
    if depth == 0 {
        return Err(ParseError::NoSegments);
    }
    let name = segments[depth - 1].clone();
    if name.as_str().is_empty() {
        return Err(ParseError::EmptyName);
    }
    proof {
        reveal_strlit("/");
        assert("/"@ == seq!['/']);
    }
    let path = join_str(&segments, "/");
    let data = NodeData { default_path: line.to_owned(), length: line.unicode_len() as u64 };
    match classify(name.as_str()) {
        NodeType::File() => Ok(Node::new_file(data, depth as u64, path, name)),
        NodeType::Directory() => Ok(Node::new_directory(data, depth as u64, path, name)),
    }
}

} // verus!
