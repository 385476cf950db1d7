use acli::order::{sort_names, text_le};
use acli::text::{
    contains_char, decimal_str, join_str, repeat_str, same_text, split_str, to_chars,
};

fn strings(items: &[&str]) -> Vec<String> {
    items.iter().map(|s| s.to_string()).collect()
}

#[test]
fn split_of_text_without_separator_is_one_piece() {
    assert_eq!(split_str("abc", '/'), strings(&["abc"]));
}

#[test]
fn split_of_empty_text_is_one_empty_piece() {
    assert_eq!(split_str("", '/'), strings(&[""]));
}

#[test]
fn split_keeps_empty_pieces() {
    assert_eq!(split_str("/a/", '/'), strings(&["", "a", ""]));
    assert_eq!(split_str("a//b", '/'), strings(&["a", "", "b"]));
    assert_eq!(split_str("/", '/'), strings(&["", ""]));
}

#[test]
fn split_of_path_gives_its_segments() {
    assert_eq!(split_str("./src/main.rs", '/'), strings(&[".", "src", "main.rs"]));
}

#[test]
fn split_counts_characters_not_bytes() {
    assert_eq!(split_str("é/ü/日本", '/'), strings(&["é", "ü", "日本"]));
}

#[test]
fn split_agrees_with_std() {
    for text in ["", "a", "/", "a/b/c", "//", "a/", "/a", "x/é//y/"] {
        let expected: Vec<String> = text.split('/').map(|s| s.to_string()).collect();
        assert_eq!(split_str(text, '/'), expected);
    }
}

#[test]
fn join_puts_separator_between_pieces() {
    assert_eq!(join_str(&strings(&["a", "b", "c"]), "/"), "a/b/c");
    assert_eq!(join_str(&strings(&["a"]), "/"), "a");
    assert_eq!(join_str(&strings(&[]), "/"), "");
    assert_eq!(join_str(&strings(&["", ""]), "/"), "/");
    assert_eq!(join_str(&strings(&["a", "b"]), ", "), "a, b");
}

#[test]
fn join_restores_what_split_took_apart() {
    for text in ["", "a", "/", "a/b/c", "//", "a/", "/a", "x/é//y/"] {
        assert_eq!(join_str(&split_str(text, '/'), "/"), text);
    }
}

#[test]
fn split_restores_what_join_put_together() {
    let pieces = strings(&["src", "", "main.rs"]);
    assert_eq!(split_str(&join_str(&pieces, "/"), '/'), pieces);
}

#[test]
fn to_chars_gives_the_characters() {
    assert_eq!(to_chars("aé/"), vec!['a', 'é', '/']);
    assert_eq!(to_chars(""), Vec::<char>::new());
}

#[test]
fn contains_char_finds_a_character() {
    assert!(contains_char("main.rs", '.'));
    assert!(!contains_char("src", '.'));
    assert!(!contains_char("", '.'));
    assert!(contains_char(".", '.'));
}

#[test]
fn same_text_compares_contents() {
    assert!(same_text("abc", "abc"));
    assert!(same_text("", ""));
    assert!(!same_text("abc", "abd"));
    assert!(!same_text("abc", "ab"));
    assert!(!same_text("ab", "abc"));
}

#[test]
fn text_le_orders_by_first_difference() {
    assert!(text_le(&to_chars("a"), &to_chars("b")));
    assert!(!text_le(&to_chars("b"), &to_chars("a")));
    assert!(text_le(&to_chars("a"), &to_chars("a")));
    assert!(text_le(&to_chars(""), &to_chars("a")));
    assert!(!text_le(&to_chars("a"), &to_chars("")));
    assert!(text_le(&to_chars("ab"), &to_chars("abc")));
    assert!(!text_le(&to_chars("abc"), &to_chars("ab")));
    assert!(text_le(&to_chars("B"), &to_chars("a")));
    assert!(text_le(&to_chars("abz"), &to_chars("ac")));
}

#[test]
fn text_le_agrees_with_string_order() {
    let samples = ["", "a", "B", "ab", "abc", "b", "é", "z", "日本", "a.b", "a/b", "\u{10000}", "\u{ffff}"];
    for left in samples {
        for right in samples {
            assert_eq!(text_le(&to_chars(left), &to_chars(right)), left <= right);
        }
    }
}

#[test]
fn sort_names_sorts_ascending() {
    assert_eq!(
        sort_names(&strings(&["node.rs", "main.rs", "tree.rs", "acli.rs"])),
        strings(&["acli.rs", "main.rs", "node.rs", "tree.rs"])
    );
}

#[test]
fn sort_names_keeps_equal_names() {
    assert_eq!(sort_names(&strings(&["b", "a", "b", "a"])), strings(&["a", "a", "b", "b"]));
}

#[test]
fn sort_names_of_nothing_is_nothing() {
    assert_eq!(sort_names(&strings(&[])), strings(&[]));
}

#[test]
fn sort_names_agrees_with_std_sort() {
    let names = strings(&["b", "a", "ab", "B", "", "é", "abc", "Z", "a.b"]);
    let mut expected = names.clone();
    expected.sort();
    assert_eq!(sort_names(&names), expected);
}

#[test]
fn decimal_str_writes_the_numeral() {
    assert_eq!(decimal_str(0), "0");
    assert_eq!(decimal_str(7), "7");
    assert_eq!(decimal_str(9), "9");
    assert_eq!(decimal_str(10), "10");
    assert_eq!(decimal_str(101), "101");
    assert_eq!(decimal_str(1234567890), "1234567890");
    assert_eq!(decimal_str(u64::MAX), "18446744073709551615");
    for n in 0..1200u64 {
        assert_eq!(decimal_str(n), n.to_string());
    }
}

#[test]
fn repeat_str_repeats_the_text() {
    assert_eq!(repeat_str("  ", 0), "");
    assert_eq!(repeat_str("  ", 1), "  ");
    assert_eq!(repeat_str("  ", 3), "      ");
    assert_eq!(repeat_str("ab", 2), "abab");
    assert_eq!(repeat_str("", 5), "");
}
