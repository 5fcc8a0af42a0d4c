use wordsearch::word_tree::elements::WordElement;
use wordsearch::word_tree::node::Node;
use wordsearch::word_tree::{build_tree_from_words, WordTree};

fn tree_of(words: &[&str]) -> WordTree {
    let mut tree = WordTree::new();
    for word in words {
        tree.insert(word);
    }
    tree
}

#[test]
fn insert_test() {
    let dictionary = [
        "r",
        "rust",
        "java",
        "javascript",
        "jquery",
        "typescript",
        "c",
        "c++",
        "go",
        "python",
        "perl",
    ];
    let adversaries = ["google", "pearl", "jav", "see"];

    let mut tree = WordTree::new();
    for word in dictionary {
        tree.insert(word);
    }

    for word in dictionary {
        assert!(
            tree.search(word),
            "The dictionary word \"{}\" was not matched by the search!",
            word
        );
    }

    for word in adversaries {
        assert!(
            !tree.search(word),
            "The adversarial word \"{}\" was incorrectly matched by the search!",
            word
        );
    }
}

#[test]
fn suggest_test() {
    let dictionary = vec!["but", "butt", "bun", "abs", "absolute"];

    let mut tree = WordTree::new();
    for word in dictionary {
        tree.insert(word);
    }

    let bu_expect = vec![WordElement::Letter('t'), WordElement::Letter('n')];
    let abs_expect = vec![WordElement::EndWord, WordElement::Letter('o')];

    let bu_suggestions = tree.suggest("bu");
    let abs_suggestions = tree.suggest("abs");
    let x_suggestions = tree.suggest("x");

    assert!(bu_suggestions == Some(bu_expect));
    assert!(abs_suggestions == Some(abs_expect));
    assert!(x_suggestions == None);
}

#[test]
fn prefix_of_stored_word_is_not_found() {
    let tree = tree_of(&["teatime"]);
    assert!(!tree.search("teati"));
    assert!(!tree.search("t"));
    assert!(!tree.search(""));
    assert!(tree.search("teatime"));
    assert!(!tree.search("teatimes"));
}

#[test]
fn words_stay_found_after_more_inserts() {
    let mut tree = WordTree::new();
    tree.insert("cat");
    assert!(tree.search("cat"));
    tree.insert("catalog");
    tree.insert("dog");
    tree.insert("ca");
    assert!(tree.search("cat"));
    assert!(tree.search("catalog"));
    assert!(tree.search("dog"));
    assert!(tree.search("ca"));
    assert!(!tree.search("c"));
    assert!(!tree.search("cata"));
}

#[test]
fn empty_tree_matches_nothing() {
    let tree = WordTree::new();
    assert!(!tree.search(""));
    assert!(!tree.search("a"));
    assert_eq!(tree.suggest(""), Some(vec![]));
    assert_eq!(tree.suggest("a"), None);
    assert!(tree.find_words_of_length(0).is_empty());
    assert!(tree.find_words_of_length(3).is_empty());
}

#[test]
fn empty_word_is_stored_by_end_under_root() {
    let tree = tree_of(&[""]);
    assert!(tree.search(""));
    assert!(!tree.search("a"));
    assert_eq!(tree.suggest(""), Some(vec![WordElement::EndWord]));
    assert_eq!(tree.find_words_of_length(0), vec![String::new()]);
    assert!(tree.find_words_of_length(1).is_empty());
}

#[test]
fn suggest_distinguishes_invalid_empty_and_continued() {
    let tree = tree_of(&["ab", "ac"]);
    assert_eq!(tree.suggest("abc"), None);
    assert_eq!(tree.suggest("ab"), Some(vec![WordElement::EndWord]));
    assert_eq!(
        tree.suggest("a"),
        Some(vec![WordElement::Letter('b'), WordElement::Letter('c')])
    );
    assert_eq!(tree.suggest(""), Some(vec![WordElement::Letter('a')]));
}

#[test]
fn suggest_holds_end_exactly_for_stored_words() {
    let tree = tree_of(&["go", "gopher"]);
    let at_go = tree.suggest("go").unwrap();
    assert!(at_go.contains(&WordElement::EndWord));
    let at_goph = tree.suggest("goph").unwrap();
    assert!(!at_goph.contains(&WordElement::EndWord));
    assert_eq!(at_goph, vec![WordElement::Letter('e')]);
}

#[test]
fn suggest_keeps_insertion_order() {
    let tree = tree_of(&["zeta", "alpha", "mu"]);
    assert_eq!(
        tree.suggest(""),
        Some(vec![
            WordElement::Letter('z'),
            WordElement::Letter('a'),
            WordElement::Letter('m'),
        ])
    );
}

#[test]
fn inserting_twice_changes_nothing() {
    let words = ["tea", "teatime", "ten"];
    let once = tree_of(&words);
    let mut twice = tree_of(&words);
    twice.insert("tea");
    twice.insert("teatime");
    for base in ["", "t", "te", "tea", "teat", "teatime", "ten", "x"] {
        assert_eq!(once.suggest(base), twice.suggest(base));
        assert_eq!(once.search(base), twice.search(base));
    }
    for n in 0..8 {
        assert_eq!(once.find_words_of_length(n), twice.find_words_of_length(n));
    }
}

#[test]
fn find_words_of_length_lists_each_word_once() {
    let tree = tree_of(&["but", "butt", "bun", "abs", "absolute", "bun", "a"]);
    assert_eq!(
        tree.find_words_of_length(3),
        vec!["but".to_string(), "bun".to_string(), "abs".to_string()]
    );
    assert_eq!(tree.find_words_of_length(4), vec!["butt".to_string()]);
    assert_eq!(tree.find_words_of_length(1), vec!["a".to_string()]);
    assert_eq!(tree.find_words_of_length(8), vec!["absolute".to_string()]);
    assert!(tree.find_words_of_length(2).is_empty());
    assert!(tree.find_words_of_length(0).is_empty());
    assert!(tree.find_words_of_length(u32::MAX).is_empty());
}

#[test]
fn find_words_of_length_follows_tree_order() {
    let tree = tree_of(&["cb", "ab", "ca", "aa"]);
    assert_eq!(
        tree.find_words_of_length(2),
        vec![
            "cb".to_string(),
            "ca".to_string(),
            "ab".to_string(),
            "aa".to_string(),
        ]
    );
}

#[test]
fn non_ascii_words_are_handled_by_character() {
    let tree = tree_of(&["héllo", "日本"]);
    assert!(tree.search("héllo"));
    assert!(!tree.search("hello"));
    assert!(tree.search("日本"));
    assert_eq!(tree.suggest("日"), Some(vec![WordElement::Letter('本')]));
    assert_eq!(tree.find_words_of_length(2), vec!["日本".to_string()]);
    assert_eq!(tree.find_words_of_length(5), vec!["héllo".to_string()]);
}

#[test]
fn build_tree_from_words_stores_each_line() {
    let words = vec!["one".to_string(), "two".to_string(), "three".to_string()];
    let tree = build_tree_from_words(&words);
    assert!(tree.search("one"));
    assert!(tree.search("two"));
    assert!(tree.search("three"));
    assert!(!tree.search("thre"));
    assert_eq!(
        tree.find_words_of_length(3),
        vec!["one".to_string(), "two".to_string()]
    );
}

#[test]
fn node_navigate_to_reuses_or_appends() {
    let mut node = Node::new(WordElement::BeginWord);
    assert_eq!(node.find_child_index(WordElement::Letter('a')), None);
    assert_eq!(node.navigate_to(WordElement::Letter('a')), 0);
    assert_eq!(node.navigate_to(WordElement::EndWord), 1);
    assert_eq!(node.navigate_to(WordElement::Letter('a')), 0);
    assert_eq!(node.children.len(), 2);
    assert_eq!(node.find_child_index(WordElement::EndWord), Some(1));
    assert_eq!(node.find_child_index(WordElement::Letter('b')), None);
    assert_eq!(node.data, WordElement::BeginWord);
    assert!(node.children[0].children.is_empty());
}

#[test]
fn build_tree_from_words_keeps_input_order() {
    let words = vec!["zoo".to_string(), "zap".to_string(), "ant".to_string()];
    let tree = build_tree_from_words(&words);
    assert_eq!(
        tree.suggest(""),
        Some(vec![WordElement::Letter('z'), WordElement::Letter('a')])
    );
    assert_eq!(
        tree.suggest("z"),
        Some(vec![WordElement::Letter('o'), WordElement::Letter('a')])
    );
    assert_eq!(
        tree.find_words_of_length(3),
        vec!["zoo".to_string(), "zap".to_string(), "ant".to_string()]
    );
}
