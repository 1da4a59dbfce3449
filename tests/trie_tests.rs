use prefix_tree::text::joined;
use prefix_tree::{
    autocomplete, check, collect_autocompletion, dump_dot, find_prefix, insert_text, usage, Node,
    Trie,
};
use std::collections::BTreeSet;

fn build(words: &[&str]) -> Trie {
    let mut t = Trie::new();
    for w in words {
        insert_text(&mut t, w);
    }
    t
}

fn as_set(v: Vec<String>) -> BTreeSet<String> {
    let n = v.len();
    let s: BTreeSet<String> = v.into_iter().collect();
    assert_eq!(s.len(), n, "an entry was listed twice");
    s
}

fn set_of(words: &[&str]) -> BTreeSet<String> {
    words.iter().map(|w| w.to_string()).collect()
}

#[test]
fn new_node_is_empty() {
    let n = Node::new();
    assert!(!n.end);
    assert!(n.children.is_empty());
    assert_eq!(n.child('a'), None);
}

#[test]
fn new_trie_has_only_root() {
    let t = Trie::new();
    assert_eq!(t.node_count(), 1);
    assert!(!t.is_end(0));
    assert!(t.children(0).is_empty());
}

#[test]
fn inserted_words_reach_terminal_nodes() {
    let words = ["cat", "car", "dog", "do", ""];
    let t = build(&words);
    for w in words {
        let n = find_prefix(&t, w);
        assert!(t.is_end(n), "word {:?} not terminal", w);
        assert!(check(&t, w));
    }
}

#[test]
fn absent_words_are_not_found() {
    let t = build(&["cat", "car", "dog"]);
    // a proper prefix: the descent ends at a node that is not terminal
    let n = find_prefix(&t, "ca");
    assert!(!t.is_end(n));
    assert!(check(&t, "ca"));
    // a missing character: the descent stops early
    assert!(!check(&t, "cow"));
    let stop = find_prefix(&t, "cow");
    assert_eq!(stop, find_prefix(&t, "c"));
    assert!(!t.is_end(stop));
    // the empty word was never inserted
    assert!(!t.is_end(find_prefix(&t, "")));
}

#[test]
fn descent_stops_at_first_missing_character() {
    let t = build(&["cat"]);
    // 'x' is missing under "c": the 'a' and 't' after it are not followed
    assert_eq!(find_prefix(&t, "cxat"), find_prefix(&t, "c"));
    assert_eq!(find_prefix(&t, "zcat"), 0);
}

#[test]
fn inserting_twice_keeps_structure() {
    let mut once = build(&["tea", "ten"]);
    let mut twice = build(&["tea", "ten"]);
    insert_text(&mut once, "team");
    insert_text(&mut twice, "team");
    let count = twice.node_count();
    let text = dump_dot(&twice);
    insert_text(&mut twice, "team");
    assert_eq!(twice.node_count(), count);
    assert_eq!(dump_dot(&twice), text);
    assert_eq!(dump_dot(&once), text);
    assert!(twice.is_end(find_prefix(&twice, "team")));
}

#[test]
fn insertion_adds_one_node_per_missing_character() {
    let mut t = build(&["car"]);
    assert_eq!(t.node_count(), 4);
    insert_text(&mut t, "cart");
    assert_eq!(t.node_count(), 5);
    insert_text(&mut t, "cab");
    assert_eq!(t.node_count(), 6);
    insert_text(&mut t, "ca");
    assert_eq!(t.node_count(), 6);
}

#[test]
fn completions_are_exactly_the_matching_words() {
    let words = ["apple", "app", "apply", "ape", "banana", "band", "bandana", "b"];
    let t = build(&words);
    for prefix in ["", "a", "ap", "app", "appl", "b", "ban", "band", "bandana", "c", "apx"] {
        let got = as_set(autocomplete(&t, prefix));
        let want: BTreeSet<String> =
            words.iter().filter(|w| w.starts_with(prefix)).map(|w| w.to_string()).collect();
        assert_eq!(got, want, "prefix {:?}", prefix);
    }
}

#[test]
fn completions_from_descended_node() {
    let t = build(&["apple", "app", "apply", "ape"]);
    let n = find_prefix(&t, "app");
    let got = as_set(collect_autocompletion(&t, n, "app"));
    assert_eq!(got, set_of(&["app", "apple", "apply"]));
}

#[test]
fn completions_keep_requested_label_after_partial_descent() {
    let t = build(&["cat"]);
    let n = find_prefix(&t, "cx");
    let got = as_set(collect_autocompletion(&t, n, "cx"));
    assert_eq!(got, set_of(&["cxat"]));
    // the query form reports no completion for a prefix that is not present
    assert!(autocomplete(&t, "cx").is_empty());
}

#[test]
fn terminal_node_with_children_lists_both() {
    let t = build(&["cat", "catalog"]);
    let got = as_set(autocomplete(&t, "cat"));
    assert_eq!(got, set_of(&["cat", "catalog"]));
    let n = find_prefix(&t, "cat");
    let tails = as_set(collect_autocompletion(&t, n, ""));
    assert_eq!(tails, set_of(&["", "alog"]));
}

#[test]
fn missing_leading_character_gives_nothing() {
    let t = build(&["cat", "dog"]);
    assert_eq!(find_prefix(&t, "xyz"), 0);
    assert!(autocomplete(&t, "xyz").is_empty());
    assert!(autocomplete(&t, "x").is_empty());
}

#[test]
fn empty_word_is_a_completion_of_empty_prefix() {
    let t = build(&["", "a"]);
    assert!(t.is_end(0));
    assert_eq!(as_set(autocomplete(&t, "")), set_of(&["", "a"]));
}

#[test]
fn empty_trie_has_no_completions() {
    let t = Trie::new();
    assert!(autocomplete(&t, "").is_empty());
    assert!(check(&t, ""));
    assert!(!check(&t, "a"));
}

#[test]
fn graph_export_covers_nodes_and_edges() {
    let t = build(&["a", "ab", "ac"]);
    let text = dump_dot(&t);
    let lines: Vec<&str> = text.lines().collect();
    let nodes: Vec<&&str> = lines.iter().filter(|l| l.contains("[label=") && !l.contains("->")).collect();
    let edges: Vec<&&str> = lines.iter().filter(|l| l.contains("->")).collect();
    assert_eq!(nodes.len(), 4);
    assert_eq!(edges.len(), 3);
    let ids: BTreeSet<&str> = nodes.iter().map(|l| l.trim().split(' ').next().unwrap()).collect();
    assert_eq!(ids.len(), 4);
    let mut labels: Vec<&str> = nodes.iter().map(|l| l.split('"').nth(1).unwrap()).collect();
    labels.sort();
    assert_eq!(labels, vec!["a", "b", "c", "root"]);
    for e in &edges {
        let parts: Vec<&str> = e.trim().split(' ').collect();
        assert!(ids.contains(parts[0]));
        assert!(ids.contains(parts[2]));
    }
    assert!(text.starts_with("digraph Trie {\n"));
    assert!(text.ends_with("}\n"));
}

#[test]
fn graph_export_exact_text() {
    let t = build(&["ab"]);
    assert_eq!(
        dump_dot(&t),
        "digraph Trie {\n  Node_0 [label=\"root\"]\n  Node_1 [label=\"a\"]\n  Node_0 -> Node_1 [label=\"a\"]\n  Node_2 [label=\"b\"]\n  Node_1 -> Node_2 [label=\"b\"]\n}\n"
    );
}

#[test]
fn graph_export_of_empty_trie() {
    let t = Trie::new();
    assert_eq!(dump_dot(&t), "digraph Trie {\n  Node_0 [label=\"root\"]\n}\n");
}

#[test]
fn graph_export_numbers_past_nine() {
    let t = build(&["abcdefghijk"]);
    let text = dump_dot(&t);
    assert!(text.contains("  Node_10 [label=\"j\"]\n"));
    assert!(text.contains("  Node_10 -> Node_11 [label=\"k\"]\n"));
    assert!(text.contains("  Node_9 -> Node_10 [label=\"j\"]\n"));
}

#[test]
fn joined_appends_characters() {
    assert_eq!(joined("ab", &vec!['c', 'd']), "abcd");
    assert_eq!(joined("", &vec![]), "");
    assert_eq!(joined("x", &vec!['é']), "xé");
}

#[test]
fn usage_names_both_subcommands() {
    let u = usage();
    assert!(u.starts_with("Usage: ./prefix-tree <SUBCOMMAND>\n"));
    assert!(u.contains("    dot               Dump the Trie into a Graphviz dot file.\n"));
    assert!(u.contains("    complete <prefix> Suggest prefix autocompletion based on the Trie\n"));
    assert_eq!(u.lines().count(), 4);
}

#[test]
fn unicode_words_are_handled_by_character() {
    let t = build(&["été", "étage"]);
    assert_eq!(as_set(autocomplete(&t, "ét")), set_of(&["été", "étage"]));
    assert_eq!(t.node_count(), 7);
}
