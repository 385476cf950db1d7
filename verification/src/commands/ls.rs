//! The command that lists what the current directory holds.

use vstd::prelude::*;
use crate::acli::{is_listing, ACli, NavError};
use crate::commands::{
    arg_views, debug_text, nav_error_message, nav_message, unknown_argument,
    unknown_argument_report,
};
use crate::node::NodeView;
use crate::text::views;

verus! {

/// Whether `outcome` is what `ls` gives for `args` at the entry `current` of
/// `t`. More than one argument is refused, with the first of them named in
/// the report. Without a position there is nothing to list. Else the outcome
/// is the listing of the current entry.
pub open spec fn is_ls_outcome(
    t: Seq<NodeView>,
    current: Option<usize>,
    args: Seq<Seq<char>>,
    outcome: Result<Vec<String>, String>,
) -> bool {
    if args.len() > 1 {
        outcome is Err && outcome->Err_0@ == unknown_argument(debug_text(args[0]))
    } else {
        match current {
            None => outcome is Err && outcome->Err_0@ == nav_message(
                NavError::NoCurrentNode,
                Seq::empty(),
            ),
            Some(cur) => outcome is Ok && is_listing(t, cur, views(outcome->Ok_0@)),
        }
    }
}

/// Lists the names of what the current directory holds, in ascending order.
/// More than one argument is refused; a single one is not looked at.
pub fn ls(args: Vec<&str>, cli: &mut ACli) -> (outcome: Result<Vec<String>, String>)
    requires
        old(cli).wf(),
    ensures
        *final(cli) == *old(cli),
        is_ls_outcome(old(cli).tree@, old(cli).current_node, arg_views(args@), outcome),
{
    if args.len() > 1 {
        return Err(unknown_argument_report(args[0]));
    }
    match cli.list() {
        Ok(names) => Ok(names),
        Err(error) => Err(nav_error_message(error, "")),
    }
}

} // verus!
