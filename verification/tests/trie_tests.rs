use trie::autocomplete::AutoCompletable;
use trie::error_check::ErrorCheckable;
use trie::node::{Node, NodeRefOps};
use trie::tree::Trie;

fn build(words: &[&str]) -> Trie {
    let mut t = Trie::new();
    for w in words {
        t.insert(w);
    }
    t
}

#[test]
fn delete() {
    let mut t = build(&["and", "ant"]);
    assert_eq!(t.word_count(), 2);
    t.remove("ant");
    assert!(!t.contains("ant"));
    assert!(t.contains("and"));
    assert_eq!(t.word_count(), 1);
    t.remove("and");
    assert!(!t.contains("and"));
    assert_eq!(t.word_count(), 0);
}

#[test]
fn spelling_correction() {
    let t = build(&["house"]);
    let s = t.spelling_check("ohuse").expect("a transposition fix was expected");
    assert_eq!(s, vec!["house".to_string()]);
}

#[test]
fn insert_and_contains() {
    let t = build(&["and", "ant", "anymore"]);
    assert!(t.contains("and"));
    assert!(t.contains("ant"));
    assert!(t.contains("anymore"));
    assert!(!t.contains("an"));
    assert!(!t.contains("ants"));
    assert!(!t.contains("banana"));
    assert!(!t.contains(""));
}

#[test]
fn insert_idempotent() {
    let mut t = Trie::new();
    t.insert("word");
    assert_eq!(t.word_count(), 1);
    assert!(t.contains("word"));
    t.insert("word");
    assert_eq!(t.word_count(), 1);
    assert!(t.contains("word"));
    assert!(!t.contains("wor"));
}

#[test]
fn insert_empty_word_is_noop() {
    let mut t = Trie::new();
    t.insert("");
    assert_eq!(t.word_count(), 0);
    assert!(!t.contains(""));
}

#[test]
fn remove_keeps_words_passing_through() {
    let mut t = build(&["an", "and"]);
    t.remove("an");
    assert!(!t.contains("an"));
    assert!(t.contains("and"));
    assert_eq!(t.word_count(), 1);
}

#[test]
fn remove_prunes_dead_tail() {
    let mut t = build(&["abc"]);
    t.remove("abc");
    assert!(!t.contains("abc"));
    assert_eq!(t.word_count(), 0);
    assert!(t.complete("").is_empty());
    assert!(t.get_words().is_empty());
}

#[test]
fn autocomplete_an() {
    let t = build(&["and", "ant", "anymore"]);
    let mut sufs = t.complete("an");
    sufs.sort();
    assert_eq!(sufs, vec!["d".to_string(), "t".to_string(), "ymore".to_string()]);
    assert!(!t.contains("an"));
}

#[test]
fn autocomplete_missing_prefix_is_empty() {
    let t = build(&["and"]);
    assert!(t.complete("x").is_empty());
    assert!(t.complete("andy").is_empty());
}

#[test]
fn autocomplete_excludes_the_prefix_itself() {
    let t = build(&["an", "and"]);
    assert_eq!(t.complete("an"), vec!["d".to_string()]);
    assert!(t.contains("an"));
}

#[test]
fn autocomplete_empty_prefix_lists_whole_words() {
    let t = build(&["ab", "cd"]);
    let mut all = t.complete("");
    all.sort();
    assert_eq!(all, vec!["ab".to_string(), "cd".to_string()]);
}

#[test]
fn get_suffix_of_matches_complete() {
    let t = build(&["and", "ant"]);
    let mut a = t.get_suffix_of("an");
    let mut b = t.complete("an");
    a.sort();
    b.sort();
    assert_eq!(a, b);
}

#[test]
fn suggest_none_when_word_present() {
    let t = build(&["house"]);
    assert!(t.spelling_check("house").is_none());
}

#[test]
fn suggest_none_without_single_edit_match() {
    let t = build(&["zzz"]);
    assert!(t.spelling_check("q").is_none());
}

#[test]
fn suggest_insertion_category() {
    let t = build(&["bird"]);
    // One character short of "bird": inserting 'i' at position 1 restores it.
    let s = t.spelling_check("brd").expect("an insertion fix was expected");
    assert_eq!(s, vec!["bird".to_string()]);
    // "ird" is also one insertion away from "bird".
    let s2 = t.spelling_check("ird").expect("an insertion fix was expected");
    assert_eq!(s2, vec!["bird".to_string()]);
}

#[test]
fn suggest_deletion_category() {
    let t = build(&["bid"]);
    let s = t.spelling_check("bird").expect("a deletion fix was expected");
    assert_eq!(s, vec!["bid".to_string()]);
}

#[test]
fn suggest_alteration_category() {
    let t = build(&["top"]);
    let s = t.spelling_check("tap").expect("an alteration fix was expected");
    assert_eq!(s, vec!["top".to_string()]);
}

#[test]
fn suggest_may_repeat_a_word_found_twice() {
    let t = build(&["a"]);
    // Deleting either character of "aa" yields "a".
    let s = t.spelling_check("aa").expect("a deletion fix was expected");
    assert!(!s.is_empty());
    for w in &s {
        assert_eq!(w, "a");
    }
}

#[test]
fn get_words_groups_by_first_character() {
    let t = build(&["and", "ant", "bat"]);
    let mut groups = t.get_words();
    groups.sort_by(|x, y| x.0.cmp(&y.0));
    assert_eq!(groups.len(), 2);
    assert_eq!(groups[0].0, 'a');
    let mut a_words = groups[0].1.clone();
    a_words.sort();
    assert_eq!(a_words, vec!["and".to_string(), "ant".to_string()]);
    assert_eq!(groups[1].0, 'b');
    assert_eq!(groups[1].1, vec!["bat".to_string()]);
}

#[test]
fn go_to_reaches_interior_and_terminal_nodes() {
    let mut t = Trie::new();
    t.insert("and");
    let interior = t.go_to("an").expect("the path exists");
    assert!(!interior.is_end_of_word);
    let terminal = t.go_to("and").expect("the path exists");
    assert!(terminal.is_end_of_word);
    assert!(t.go_to("x").is_none());
}

#[test]
fn node_children_operations() {
    let mut n = Node::new('a', false);
    assert_eq!(n.children_size(), 0);
    n.new_child('b', true);
    n.new_child('c', true);
    assert_eq!(n.children_size(), 2);
    assert_eq!(n.get_children().len(), 2);
    let b = n.get_child('b').expect("the child exists");
    assert_eq!(b.val, 'b');
    assert!(b.is_end_of_word);
    assert!(n.get_child('z').is_none());
    n.remove_child('b');
    assert_eq!(n.children_size(), 1);
    assert!(n.get_child('b').is_none());
}

#[test]
fn preorder_lists_subtree_words_once() {
    let mut n = Node::new('a', true);
    n.new_child('b', true);
    n.new_child('c', true);
    let mut words = n.preorder();
    words.sort();
    assert_eq!(words, vec!["a".to_string(), "ab".to_string(), "ac".to_string()]);
}
