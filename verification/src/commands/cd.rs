//! The command that moves the session to another directory.

use vstd::prelude::*;
use crate::acli::{entered, root_cursor, ACli, Cursor, NavError};
use crate::commands::{
    arg_views, debug_text, is_report_of, nav_error_message, nav_message, unknown_argument,
    unknown_argument_report,
};
use crate::node::NodeView;
use crate::text::{split, split_str, views};

verus! {

/// The position after moves by each of the segments in turn, and what they
/// report. The first move that fails ends the walk where it stands.
pub open spec fn walked(t: Seq<NodeView>, c: Cursor, segments: Seq<Seq<char>>) -> (
    Cursor,
    Result<(), Seq<char>>,
)
    decreases segments.len(),
{
    if segments.len() == 0 {
        (c, Ok(()))
    } else {
        match entered(t, c, segments[0]) {
            (next, Ok(())) => walked(t, next, segments.drop_first()),
            (stay, Err(error)) => (stay, Err(nav_message(error, segments[0]))),
        }
    }
}

/// What `cd` does with its arguments at the position `c`. More than one
/// argument is refused. Without an argument it leads to the root. One
/// argument is walked segment by segment, split at each `/`.
pub open spec fn cd_outcome(t: Seq<NodeView>, c: Cursor, args: Seq<Seq<char>>) -> (
    Cursor,
    Result<(), Seq<char>>,
) {
    if args.len() > 1 {
        (c, Err(unknown_argument(debug_text(args[1]))))
    } else if args.len() == 0 {
        if t.len() == 0 {
            (c, Err(nav_message(NavError::NoCurrentNode, Seq::empty())))
        } else {
            (root_cursor(t), Ok(()))
        }
    } else {
        walked(t, c, split(args[0], '/'))
    }
}

/// Changes the directory of the session.
pub fn cd(args: Vec<&str>, cli: &mut ACli) -> (outcome: Result<(), String>)
    requires
        old(cli).wf(),
    ensures
        final(cli).wf(),
        final(cli).tree == old(cli).tree,
        final(cli).command_manager == old(cli).command_manager,
        final(cli).cursor() == cd_outcome(old(cli).tree@, old(cli).cursor(), arg_views(args@)).0,
        is_report_of(outcome, cd_outcome(old(cli).tree@, old(cli).cursor(), arg_views(args@)).1),
{
    if args.len() > 1 {
        return Err(unknown_argument_report(args[1]));
    }
    if args.len() == 0 {
        return match cli.enter_root() {
            Ok(()) => Ok(()),
            Err(error) => Err(nav_error_message(error, "")),
        };
    }
    let pieces = split_str(args[0], '/');
    let ghost t = cli.tree@;
    let ghost start = cli.cursor();
    let ghost all = views(pieces@);
    let mut k: usize = 0;
    proof {
        assert(all.skip(0) == all);
    }
    while k < pieces.len()
        invariant
            cli.wf(),
            cli.tree == old(cli).tree,
            cli.command_manager == old(cli).command_manager,
            t == cli.tree@,
            start == old(cli).cursor(),
            args@.len() == 1,
            all == views(pieces@),
            all == split(arg_views(args@)[0], '/'),
            k <= pieces.len(),
            walked(t, start, all) == walked(t, cli.cursor(), all.skip(k as int)),
        decreases pieces.len() - k,
    {
        proof {
            assert(all.skip(k as int)[0] == pieces@[k as int]@);
            assert(all.skip(k as int).drop_first() == all.skip(k + 1));
        }
        match cli.enter(pieces[k].as_str()) {
            Ok(()) => {},
            Err(error) => {
                return Err(nav_error_message(error, pieces[k].as_str()));
            },
        }
        k = k + 1;
    }
    Ok(())
}

} // verus!
