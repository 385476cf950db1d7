use acli::acli::{ACli, LoadError, NavError};
use acli::commands::cd::cd;
use acli::commands::ls::ls;
use acli::commands::{
    nav_error_message, unknown_argument_message, unknown_argument_report, unknown_command_message,
    CommandFn, CommandManager, CommandWrapper,
};
use acli::model::InsertError;
use acli::parser::ParseError;

fn lines_of(items: &[&str]) -> Vec<String> {
    items.iter().map(|s| s.to_string()).collect()
}

fn session(lines: &[&str]) -> ACli {
    match ACli::new_from_lines(lines_of(lines)) {
        Ok(cli) => cli,
        Err(error) => panic!("the lines were refused: {:?}", error),
    }
}

fn load_error(lines: &[&str]) -> LoadError {
    match ACli::new_from_lines(lines_of(lines)) {
        Ok(_) => panic!("the lines were accepted"),
        Err(error) => error,
    }
}

fn sample() -> ACli {
    session(&["src/", "src/main.rs", "src/node.rs", "doc/", "doc/guide/", "doc/guide/a.md", "README.md"])
}

#[test]
fn new_session_stands_at_the_root() {
    let cli = sample();
    assert_eq!(cli.current_node, Some(0));
    assert_eq!(cli.current_path, "/");
    assert_eq!(cli.current_depth, 0);
    assert_eq!(cli.tree.len(), 8);
    assert_eq!(cli.get_current_node().unwrap().name, "root");
}

#[test]
fn session_on_no_lines_has_no_position() {
    let cli = session(&[]);
    assert_eq!(cli.current_node, None);
    assert_eq!(cli.current_path, "/");
    assert_eq!(cli.current_depth, 0);
    assert_eq!(cli.tree.len(), 0);
    assert!(cli.get_current_node().is_none());
}

#[test]
fn commands_fail_without_a_position() {
    let mut cli = session(&[]);
    assert_eq!(cd(vec![], &mut cli), Err("Unable to find node".to_string()));
    assert_eq!(cd(vec!["src"], &mut cli), Err("Unable to find node".to_string()));
    assert_eq!(cd(vec![".."], &mut cli), Err("Unable to find node".to_string()));
    assert_eq!(ls(vec![], &mut cli), Err("Unable to find node".to_string()));
    assert_eq!(cli.enter("src"), Err(NavError::NoCurrentNode));
    assert_eq!(cli.enter_root(), Err(NavError::NoCurrentNode));
    assert_eq!(cli.list(), Err(NavError::NoCurrentNode));
    assert_eq!(cli.current_node, None);
    assert_eq!(cli.current_path, "/");
}

#[test]
fn malformed_line_stops_the_load() {
    assert_eq!(
        load_error(&["src/", "", "src/main.rs"]),
        LoadError::Parse { line: 1, error: ParseError::NoSegments }
    );
    assert_eq!(load_error(&["/"]), LoadError::Parse { line: 0, error: ParseError::EmptyName });
    assert_eq!(
        load_error(&["a//b", "."]),
        LoadError::Parse { line: 1, error: ParseError::NoSegments }
    );
}

#[test]
fn missing_ancestor_stops_the_load() {
    assert_eq!(
        load_error(&["a/b/c.txt"]),
        LoadError::Insert { line: 0, error: InsertError::MissingAncestor }
    );
    assert_eq!(
        load_error(&["a/", "a/b.txt", "a/c/d.txt", "a/e.txt"]),
        LoadError::Insert { line: 2, error: InsertError::MissingAncestor }
    );
}

#[test]
fn repeated_line_stops_the_load() {
    assert_eq!(
        load_error(&["src/", "src/main.rs", "./src/"]),
        LoadError::Insert { line: 2, error: InsertError::AlreadyExists }
    );
}

#[test]
fn entry_below_a_file_stops_the_load() {
    assert_eq!(
        load_error(&["a.d/", "a.d/x"]),
        LoadError::Insert { line: 1, error: InsertError::NotADirectory }
    );
}

#[test]
fn parse_file_reads_every_line() {
    let nodes = ACli::parse_file(lines_of(&["src/", "./src/main.rs"])).unwrap();
    assert_eq!(nodes.len(), 2);
    assert_eq!(nodes[0].name, "src");
    assert_eq!(nodes[0].depth, 1);
    assert_eq!(nodes[1].name, "main.rs");
    assert_eq!(nodes[1].path, "src/main.rs");
    assert_eq!(nodes[1].depth, 2);
    assert!(ACli::parse_file(lines_of(&[])).unwrap().is_empty());
    assert_eq!(
        ACli::parse_file(lines_of(&["a", "./", "."])).err(),
        Some(LoadError::Parse { line: 1, error: ParseError::NoSegments })
    );
}

#[test]
fn create_tree_inserts_in_order() {
    let nodes = ACli::parse_file(lines_of(&["b/", "a/", "a/x"])).unwrap();
    let tree = ACli::create_tree(nodes).unwrap();
    assert_eq!(tree.len(), 4);
    assert_eq!(tree.node(1).name, "b");
    assert_eq!(tree.node(2).name, "a");
    assert_eq!(tree.node(3).parent, Some(2));
    let empty = ACli::create_tree(Vec::new()).unwrap();
    assert_eq!(empty.len(), 0);
    let nodes = ACli::parse_file(lines_of(&["a/", "c/x", "a/y"])).unwrap();
    assert_eq!(
        ACli::create_tree(nodes).err(),
        Some(LoadError::Insert { line: 1, error: InsertError::MissingAncestor })
    );
}

#[test]
fn cd_then_ls_lists_sorted() {
    let mut cli = session(&["src/", "src/node.rs", "src/main.rs"]);
    assert_eq!(cd(vec!["src"], &mut cli), Ok(()));
    assert_eq!(cli.current_path, "/src");
    assert_eq!(cli.current_depth, 1);
    assert_eq!(cli.current_node, Some(1));
    assert_eq!(ls(vec![], &mut cli), Ok(lines_of(&["main.rs", "node.rs"])));
}

#[test]
fn ls_at_the_root_lists_its_children() {
    let mut cli = sample();
    assert_eq!(ls(vec![], &mut cli), Ok(lines_of(&["README.md", "doc", "src"])));
    assert_eq!(cli.list(), Ok(lines_of(&["README.md", "doc", "src"])));
    assert_eq!(cli.current_node, Some(0));
}

#[test]
fn ls_of_an_empty_directory_lists_nothing() {
    let mut cli = session(&["empty/"]);
    assert_eq!(cd(vec!["empty"], &mut cli), Ok(()));
    assert_eq!(ls(vec![], &mut cli), Ok(lines_of(&[])));
}

#[test]
fn ls_sorts_by_character() {
    let mut cli = session(&["b", "a", "ab", "B", "a,b", "Z1"]);
    assert_eq!(ls(vec![], &mut cli), Ok(lines_of(&["B", "Z1", "a", "a,b", "ab", "b"])));
}

#[test]
fn ls_does_not_look_at_a_single_argument() {
    let mut cli = sample();
    assert_eq!(ls(vec!["src"], &mut cli), Ok(lines_of(&["README.md", "doc", "src"])));
}

#[test]
fn ls_refuses_more_than_one_argument() {
    let mut cli = sample();
    assert_eq!(ls(vec!["a", "b"], &mut cli), Err("Unknown argument : \"a\"".to_string()));
}

#[test]
fn cd_refuses_more_than_one_argument() {
    let mut cli = sample();
    assert_eq!(cd(vec!["src", "b"], &mut cli), Err("Unknown argument : \"b\"".to_string()));
    assert_eq!(cd(vec!["src", "b\"c", "d"], &mut cli), Err("Unknown argument : \"b\\\"c\"".to_string()));
    assert_eq!(cli.current_node, Some(0));
    assert_eq!(cli.current_path, "/");
}

#[test]
fn cd_to_unknown_name_fails() {
    let mut cli = sample();
    assert_eq!(
        cd(vec!["nonexistent"], &mut cli),
        Err("The directory 'nonexistent' does not exist".to_string())
    );
    assert_eq!(cli.current_node, Some(0));
    assert_eq!(cli.current_path, "/");
    assert_eq!(cli.current_depth, 0);
    assert_eq!(cli.enter("nonexistent"), Err(NavError::DoesNotExist));
}

#[test]
fn cd_to_a_file_fails() {
    let mut cli = sample();
    assert_eq!(cd(vec!["src"], &mut cli), Ok(()));
    assert_eq!(cd(vec!["main.rs"], &mut cli), Err("'main.rs' is not a directory".to_string()));
    assert_eq!(cli.current_node, Some(1));
    assert_eq!(cli.current_path, "/src");
    assert_eq!(cli.current_depth, 1);
    assert_eq!(cli.enter("main.rs"), Err(NavError::NotADirectory));
    assert_eq!(cli.current_path, "/src");
}

#[test]
fn cd_up_at_the_root_changes_nothing() {
    let mut cli = sample();
    assert_eq!(cd(vec![".."], &mut cli), Ok(()));
    assert_eq!(cli.current_node, Some(0));
    assert_eq!(cli.current_path, "/");
    assert_eq!(cli.current_depth, 0);
    assert_eq!(cli.enter(".."), Ok(()));
    assert_eq!(cli.current_node, Some(0));
}

#[test]
fn cd_into_a_directory_and_back_restores_the_position() {
    let mut cli = sample();
    assert_eq!(cd(vec!["doc"], &mut cli), Ok(()));
    let (node, path, depth) = (cli.current_node, cli.current_path.clone(), cli.current_depth);
    assert_eq!(path, "/doc");
    assert_eq!(cd(vec!["guide"], &mut cli), Ok(()));
    assert_eq!(cli.current_path, "/doc/guide");
    assert_eq!(cli.current_depth, 2);
    assert_eq!(cd(vec![".."], &mut cli), Ok(()));
    assert_eq!(cli.current_node, node);
    assert_eq!(cli.current_path, path);
    assert_eq!(cli.current_depth, depth);
    assert_eq!(ls(vec![], &mut cli), Ok(lines_of(&["guide"])));
    assert_eq!(cd(vec![".."], &mut cli), Ok(()));
    assert_eq!(cli.current_node, Some(0));
    assert_eq!(cli.current_path, "/");
    assert_eq!(ls(vec![], &mut cli), Ok(lines_of(&["README.md", "doc", "src"])));
}

#[test]
fn cd_without_argument_leads_to_the_root() {
    let mut cli = sample();
    assert_eq!(cd(vec!["doc/guide"], &mut cli), Ok(()));
    assert_eq!(cli.current_path, "/doc/guide");
    assert_eq!(cd(vec![], &mut cli), Ok(()));
    assert_eq!(cli.current_node, Some(0));
    assert_eq!(cli.current_path, "/");
    assert_eq!(cli.current_depth, 0);
}

#[test]
fn cd_walks_a_path_segment_by_segment() {
    let mut cli = sample();
    assert_eq!(cd(vec!["doc/guide"], &mut cli), Ok(()));
    assert_eq!(cli.current_path, "/doc/guide");
    assert_eq!(cli.current_depth, 2);
    assert_eq!(cd(vec!["../../src"], &mut cli), Ok(()));
    assert_eq!(cli.current_path, "/src");
    assert_eq!(cd(vec!["../doc/guide/.."], &mut cli), Ok(()));
    assert_eq!(cli.current_path, "/doc");
}

#[test]
fn cd_stops_at_the_first_segment_that_fails() {
    let mut cli = sample();
    assert_eq!(
        cd(vec!["doc/nothing/guide"], &mut cli),
        Err("The directory 'nothing' does not exist".to_string())
    );
    assert_eq!(cli.current_path, "/doc");
    assert_eq!(cd(vec!["guide/a.md"], &mut cli), Err("'a.md' is not a directory".to_string()));
    assert_eq!(cli.current_path, "/doc/guide");
    assert_eq!(cd(vec!["../"], &mut cli), Err("The directory '' does not exist".to_string()));
    assert_eq!(cli.current_path, "/doc");
    assert_eq!(cd(vec!["/src"], &mut cli), Err("The directory '' does not exist".to_string()));
    assert_eq!(cli.current_path, "/doc");
    assert_eq!(cd(vec![""], &mut cli), Err("The directory '' does not exist".to_string()));
}

#[test]
fn set_current_node_moves_to_an_entry_of_the_tree() {
    let mut cli = sample();
    assert!(cli.set_current_node(5));
    assert_eq!(cli.current_node, Some(5));
    assert_eq!(cli.current_path, "/doc/guide");
    assert_eq!(cli.current_depth, 2);
    assert_eq!(cli.get_current_node().unwrap().path, "doc/guide");
    assert!(!cli.set_current_node(8));
    assert_eq!(cli.current_node, Some(5));
    assert_eq!(cli.current_path, "/doc/guide");
    assert!(cli.set_current_node(2));
    assert_eq!(cli.current_path, "/src/main.rs");
    assert_eq!(cli.list(), Ok(lines_of(&[])));
    assert_eq!(cli.enter(".."), Ok(()));
    assert_eq!(cli.current_path, "/src");
}

#[test]
fn messages_read_as_the_prompt_shows_them() {
    assert_eq!(nav_error_message(NavError::NoCurrentNode, "x"), "Unable to find node");
    assert_eq!(nav_error_message(NavError::DoesNotExist, "x"), "The directory 'x' does not exist");
    assert_eq!(nav_error_message(NavError::NotADirectory, "x"), "'x' is not a directory");
    assert_eq!(unknown_command_message("mv"), "Unknown command : mv");
    assert_eq!(unknown_argument_message("\"x\""), "Unknown argument : \"x\"");
    assert_eq!(unknown_argument_report("x"), "Unknown argument : \"x\"");
    assert_eq!(unknown_argument_report("a\nb"), "Unknown argument : \"a\\nb\"");
}

#[test]
fn command_table_keeps_the_first_command_of_a_name() {
    let mut manager = CommandManager::new();
    assert!(manager.get_command("ls".to_string()).is_none());
    assert!(manager.add_command("ls".to_string(), CommandFn::Ls));
    assert!(manager.add_command("cd".to_string(), CommandFn::Cd));
    assert!(!manager.add_command("ls".to_string(), CommandFn::Cd));
    assert_eq!(manager.get_command("ls".to_string()), Some(&CommandWrapper(CommandFn::Ls)));
    assert_eq!(manager.get_command("cd".to_string()), Some(&CommandWrapper(CommandFn::Cd)));
    assert!(manager.get_command("LS".to_string()).is_none());
    assert!(manager.get_command("".to_string()).is_none());
}

#[test]
fn session_without_init_knows_no_command() {
    let mut cli = sample();
    assert_eq!(cli.run_command("ls".to_string(), vec![]), Err("Unknown command : ls".to_string()));
}

#[test]
fn init_registers_ls_and_cd() {
    let mut cli = sample();
    cli.init();
    assert_eq!(
        cli.command_manager.get_command("ls".to_string()),
        Some(&CommandWrapper(CommandFn::Ls))
    );
    assert_eq!(
        cli.command_manager.get_command("cd".to_string()),
        Some(&CommandWrapper(CommandFn::Cd))
    );
    assert!(!cli.register_command("cd".to_string(), CommandFn::Ls));
    assert!(cli.register_command("dir".to_string(), CommandFn::Ls));
    assert_eq!(
        cli.run_command("dir".to_string(), vec![]),
        Ok(lines_of(&["README.md", "doc", "src"]))
    );
}

#[test]
fn init_keeps_a_name_that_is_taken() {
    let mut cli = sample();
    assert!(cli.register_command("ls".to_string(), CommandFn::Cd));
    cli.init();
    assert_eq!(
        cli.command_manager.get_command("ls".to_string()),
        Some(&CommandWrapper(CommandFn::Cd))
    );
    assert_eq!(cli.run_command("ls".to_string(), vec!["src"]), Ok(lines_of(&[])));
    assert_eq!(cli.current_path, "/src");
}

#[test]
fn run_command_runs_what_the_name_stands_for() {
    let mut cli = sample();
    cli.init();
    assert_eq!(cli.run_command("cd".to_string(), vec!["src"]), Ok(lines_of(&[])));
    assert_eq!(cli.current_path, "/src");
    assert_eq!(cli.run_command("ls".to_string(), vec![]), Ok(lines_of(&["main.rs", "node.rs"])));
    assert_eq!(
        cli.run_command("cd".to_string(), vec!["main.rs"]),
        Err("'main.rs' is not a directory".to_string())
    );
    assert_eq!(cli.run_command("pwd".to_string(), vec![]), Err("Unknown command : pwd".to_string()));
    assert_eq!(cli.run_command("".to_string(), vec![]), Err("Unknown command : ".to_string()));
    assert_eq!(
        cli.run_command("cd".to_string(), vec!["a", "b"]),
        Err("Unknown argument : \"b\"".to_string())
    );
    assert_eq!(cli.current_path, "/src");
}

#[test]
fn run_line_takes_white_space_off_the_ends() {
    let mut cli = sample();
    cli.init();
    assert_eq!(cli.run_line("  ls \t\n"), Ok(lines_of(&["README.md", "doc", "src"])));
    assert_eq!(cli.run_line("\tcd src\r\n"), Ok(lines_of(&[])));
    assert_eq!(cli.current_path, "/src");
}

#[test]
fn run_line_reads_the_command_in_lower_case() {
    let mut cli = sample();
    cli.init();
    assert_eq!(cli.run_line("LS"), Ok(lines_of(&["README.md", "doc", "src"])));
    assert_eq!(cli.run_line("Cd doc"), Ok(lines_of(&[])));
    assert_eq!(cli.current_path, "/doc");
    assert_eq!(cli.run_line("cd GUIDE"), Err("The directory 'GUIDE' does not exist".to_string()));
    assert_eq!(cli.run_line("PWD"), Err("Unknown command : pwd".to_string()));
}

#[test]
fn run_line_splits_at_each_space() {
    let mut cli = sample();
    cli.init();
    assert_eq!(cli.run_line("cd src doc"), Err("Unknown argument : \"doc\"".to_string()));
    assert_eq!(cli.run_line("cd  src"), Err("Unknown argument : \"src\"".to_string()));
    assert_eq!(cli.run_line("ls a b"), Err("Unknown argument : \"a\"".to_string()));
    assert_eq!(cli.run_line("cd doc/guide"), Ok(lines_of(&[])));
    assert_eq!(cli.current_path, "/doc/guide");
    assert_eq!(cli.run_line("cd"), Ok(lines_of(&[])));
    assert_eq!(cli.current_path, "/");
}

#[test]
fn run_line_of_nothing_names_no_command() {
    let mut cli = sample();
    cli.init();
    assert_eq!(cli.run_line(""), Err("Unknown command : ".to_string()));
    assert_eq!(cli.run_line("   "), Err("Unknown command : ".to_string()));
}

#[test]
fn clone_of_a_session_moves_on_its_own() {
    let mut cli = sample();
    cli.init();
    assert_eq!(cd(vec!["src"], &mut cli), Ok(()));
    let mut copy = cli.clone();
    assert_eq!(copy.current_node, cli.current_node);
    assert_eq!(copy.current_path, "/src");
    assert_eq!(copy.current_depth, 1);
    assert_eq!(copy.tree.len(), cli.tree.len());
    assert_eq!(copy.run_line("ls"), Ok(lines_of(&["main.rs", "node.rs"])));
    assert_eq!(copy.run_line("cd .."), Ok(lines_of(&[])));
    assert_eq!(copy.current_path, "/");
    assert_eq!(cli.current_path, "/src");
}

#[test]
fn clone_of_a_command_table_holds_the_same_commands() {
    let mut manager = CommandManager::new();
    assert!(manager.add_command("ls".to_string(), CommandFn::Ls));
    let mut copy = manager.clone();
    assert_eq!(copy.get_command("ls".to_string()), Some(&CommandWrapper(CommandFn::Ls)));
    assert!(copy.add_command("cd".to_string(), CommandFn::Cd));
    assert!(manager.get_command("cd".to_string()).is_none());
}
