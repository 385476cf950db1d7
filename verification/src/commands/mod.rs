//! The commands of the prompt and the table that finds them by name.

pub mod cd;
pub mod ls;

use vstd::prelude::*;
use vstd::string::*;
use crate::acli::NavError;
use crate::text::same_text;

verus! {

/// What a command does when it runs.
#[derive(Clone, Copy, Debug, PartialEq, Eq, Structural)]
pub enum CommandFn {
    /// Lists what the current directory holds.
    Ls,
    /// Moves to another directory.
    Cd,
}

/// A command as the table holds it.
#[derive(Clone, Copy, Debug, PartialEq, Eq, Structural)]
pub struct CommandWrapper(pub CommandFn);

/// The table after `command` was registered under `name`: a name that is
/// taken keeps its command.
pub open spec fn registered(
    table: Map<Seq<char>, CommandWrapper>,
    name: Seq<char>,
    command: CommandFn,
) -> Map<Seq<char>, CommandWrapper> {
    if table.contains_key(name) {
        table
    } else {
        table.insert(name, CommandWrapper(command))
    }
}

/// The texts of the arguments of a command.
pub open spec fn arg_views(args: Seq<&str>) -> Seq<Seq<char>> {
    args.map_values(|arg: &str| arg@)
}

/// The text in the form in which `{:?}` prints it: between double quotes, with
/// escapes where the text has characters that need them.
pub uninterp spec fn debug_text(text: Seq<char>) -> Seq<char>;

/// Prints `text` as `{:?}` does. This calls the `Debug` formatting of `str`,
/// which Verus does not read: that the result is `debug_text` of the argument
/// says only that equal texts print alike.
#[verifier::external_body]
fn debug_format(text: &str) -> (quoted: String)
    ensures
        quoted@ == debug_text(text@),
{
    format!("{:?}", text)
}

/// The report on an argument that a command does not take, already quoted.
pub open spec fn unknown_argument(quoted: Seq<char>) -> Seq<char> {
    "Unknown argument : "@ + quoted
}

/// The report on a command name that the table does not hold.
pub open spec fn unknown_command(name: Seq<char>) -> Seq<char> {
    "Unknown command : "@ + name
}

/// The report on a move by `segment` that failed with `error`.
pub open spec fn nav_message(error: NavError, segment: Seq<char>) -> Seq<char> {
    match error {
        NavError::NoCurrentNode => "Unable to find node"@,
        NavError::DoesNotExist => "The directory '"@ + segment + "' does not exist"@,
        NavError::NotADirectory => "'"@ + segment + "' is not a directory"@,
    }
}

/// Whether `outcome` carries the text that `expected` asks for.
pub open spec fn is_report_of<T>(outcome: Result<T, String>, expected: Result<(), Seq<char>>) -> bool {
    match expected {
        Ok(()) => outcome is Ok,
        Err(message) => outcome is Err && outcome->Err_0@ == message,
    }
}

/// The report on an argument that a command does not take. `quoted` is the
/// argument as it is to be shown.
pub fn unknown_argument_message(quoted: &str) -> (message: String)
    ensures
        message@ == unknown_argument(quoted@),
{
    String::from_str("Unknown argument : ").concat(quoted)
}

/// The report on the argument `arg`, shown as `{:?}` prints it.
pub fn unknown_argument_report(arg: &str) -> (message: String)
    ensures
        message@ == unknown_argument(debug_text(arg@)),
{
    let quoted = debug_format(arg);
    unknown_argument_message(quoted.as_str())
}

/// The report on a command name that the table does not hold.
pub fn unknown_command_message(name: &str) -> (message: String)
    ensures
        message@ == unknown_command(name@),
{
    String::from_str("Unknown command : ").concat(name)
}

/// The report on a move by `segment` that failed with `error`.
pub fn nav_error_message(error: NavError, segment: &str) -> (message: String)
    ensures
        message@ == nav_message(error, segment@),
{
    match error {
        NavError::NoCurrentNode => String::from_str("Unable to find node"),
        NavError::DoesNotExist => String::from_str("The directory '").concat(segment).concat(
            "' does not exist",
        ),
        NavError::NotADirectory => String::from_str("'").concat(segment).concat("' is not a directory"),
    }
}

/// The table of commands. A name stands for at most one command: the one
/// that was registered first under it.
#[derive(Debug)]
pub struct CommandManager {
    names: Vec<String>,
    commands: Vec<CommandWrapper>,
}

impl View for CommandManager {
    type V = Map<Seq<char>, CommandWrapper>;

    closed spec fn view(&self) -> Map<Seq<char>, CommandWrapper> {
        Map::new(
            |name: Seq<char>| self.position(name) is Some,
            |name: Seq<char>| self.commands@[self.position(name)->0],
        )
    }
}

/// Where among `names` the text `name` stands.
spec fn position_in(names: Seq<String>, name: Seq<char>) -> Option<int> {
    if exists|i: int| 0 <= i < names.len() && (#[trigger] names[i])@ == name {
        Some(choose|i: int| 0 <= i < names.len() && (#[trigger] names[i])@ == name)
    } else {
        None
    }
}

impl Clone for CommandManager {
    fn clone(&self) -> (copy: Self)
        ensures
            copy@ == self@,
            copy.wf() == self.wf(),
    {
        let names = self.names.clone();
        let commands = self.commands.clone();
        proof {
            assert forall|i: int| 0 <= i < names@.len() implies names@[i] == self.names@[i] by {
                assert(cloned(self.names@[i], names@[i]));
            }
            assert(names@ =~= self.names@);
            assert forall|i: int| 0 <= i < commands@.len() implies commands@[i] == self.commands@[i] by {
                assert(cloned(self.commands@[i], commands@[i]));
            }
            assert(commands@ =~= self.commands@);
        }
        let copy = CommandManager { names, commands };
        proof {
            assert(copy.names@ == self.names@);
            assert(copy.commands@ == self.commands@);
            assert forall|name: Seq<char>| copy.position(name) == self.position(name) by {
                assert(copy.position(name) == position_in(copy.names@, name));
            }
            assert(copy@ =~= self@);
        }
        copy
    }
}

impl CommandManager {
    /// Where in the table `name` stands.
    spec fn position(&self, name: Seq<char>) -> Option<int> {
        position_in(self.names@, name)
    }

    /// Whether the table is in order: one command for each name, and no name
    /// twice.
    pub closed spec fn wf(&self) -> bool {
        &&& self.names@.len() == self.commands@.len()
        &&& forall|i: int, j: int|
            0 <= i < j < self.names@.len() ==> (#[trigger] self.names@[i])@ != (#[trigger] self.names@[j])@
    }

    /// A table without commands.
    pub fn new() -> (manager: CommandManager)
        ensures
            manager.wf(),
            manager@ == Map::<Seq<char>, CommandWrapper>::empty(),
    {
        let manager = CommandManager { names: Vec::new(), commands: Vec::new() };
        proof {
            assert(manager@ =~= Map::<Seq<char>, CommandWrapper>::empty());
        }
        manager
    }

    /// The index of `name` in the table.
    fn find(&self, name: &str) -> (found: Option<usize>)
        requires
            self.wf(),
        ensures
            found matches Some(i) ==> i < self.names@.len() && self.position(name@) == Some(i as int)
                && self.names@[i as int]@ == name@,
            found is None ==> self.position(name@) is None,
    {
        let mut i: usize = 0;
        while i < self.names.len()
            invariant
                self.wf(),
                i <= self.names.len(),
                forall|j: int| 0 <= j < i ==> (#[trigger] self.names@[j])@ != name@,
            decreases self.names.len() - i,
        {
            if same_text(self.names[i].as_str(), name) {
                return Some(i);
            }
            i = i + 1;
        }
        None
    }

    /// Registers `command` under `name`, unless the name is taken: then the
    /// table stays as it is. Tells whether the command was registered.
    pub fn add_command(&mut self, name: String, command: CommandFn) -> (added: bool)
        requires
            old(self).wf(),
        ensures
            final(self).wf(),
            added == !old(self)@.contains_key(name@),
            final(self)@ == registered(old(self)@, name@, command),
    {
        if self.find(name.as_str()).is_some() {
            return false;
        }
        let ghost before = *self;
        self.names.push(name);
        self.commands.push(CommandWrapper(command));
        proof {
            let last = before.names@.len() as int;
            assert(self.names@[last]@ == name@);
            assert forall|other: Seq<char>| #[trigger] self.position(other) == (if other == name@ {
                Some(last)
            } else {
                before.position(other)
            }) by {
                if other == name@ {
                    assert(self.names@[last]@ == other);
                } else if before.position(other) is Some {
                    let i = before.position(other)->0;
                    assert(self.names@[i]@ == other);
                } else if self.position(other) is Some {
                    let i = self.position(other)->0;
                    assert(before.names@[i]@ == other);
                }
            }
            assert(self@ =~= before@.insert(name@, CommandWrapper(command)));
        }
        true
    }

    /// The command registered under `name`.
    pub fn get_command(&self, name: String) -> (command: Option<&CommandWrapper>)
        requires
            self.wf(),
        ensures
            command matches Some(wrapper) ==> self@.contains_key(name@) && *wrapper == self@[name@],
            command is None ==> !self@.contains_key(name@),
    {
        match self.find(name.as_str()) {
            Some(i) => Some(&self.commands[i]),
            None => None,
        }
    }
}

} // verus!
