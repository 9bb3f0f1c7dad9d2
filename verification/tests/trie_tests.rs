use t9_words::trie::Trie;

#[test]
fn trie_basics() {
    let mut trie = Trie::new();
    trie.insert("cat");
    trie.insert("cap");
    trie.insert("cape");
    trie.insert("caper");

    assert!(trie.contains("cat"));
    assert!(trie.contains("cap"));
    assert!(trie.contains("cape"));
    assert!(trie.contains("caper"));
    assert!(!trie.contains("car"));
    assert!(!trie.contains("catch"));
    assert!(!trie.contains("calm"));
    assert!(!trie.contains("dog"));
}

#[test]
fn insert_is_visible_at_once_and_survives_later_inserts() {
    let mut trie = Trie::new();
    trie.insert("go");
    assert!(trie.contains("go"));
    trie.insert("an");
    trie.insert("gone");
    assert!(trie.contains("go"));
    assert!(trie.contains("an"));
    assert!(trie.contains("gone"));
}

#[test]
fn never_inserted_words_are_absent() {
    let mut trie = Trie::new();
    assert!(!trie.contains("cat"));
    assert!(!trie.contains(""));
    trie.insert("cat");
    assert!(!trie.contains("dog"));
    assert!(!trie.contains("cats"));
    assert!(!trie.contains(""));
}

#[test]
fn insert_twice_is_insert_once() {
    let mut trie = Trie::new();
    trie.insert("cat");
    trie.insert("cat");
    assert!(trie.contains("cat"));
    assert!(!trie.contains("ca"));
    assert!(!trie.contains("catt"));

    let mut once = Trie::new();
    once.insert("cat");
    for probe in ["c", "ca", "cat", "catt", "", "dog"] {
        assert_eq!(trie.contains(probe), once.contains(probe));
    }
}

#[test]
fn proper_prefixes_are_not_members() {
    let mut trie = Trie::new();
    trie.insert("caper");
    assert!(!trie.contains("c"));
    assert!(!trie.contains("ca"));
    assert!(!trie.contains("cap"));
    assert!(!trie.contains("cape"));
    assert!(trie.contains("caper"));
    trie.insert("cap");
    assert!(trie.contains("cap"));
    assert!(!trie.contains("cape"));
}

#[test]
fn empty_word_is_a_word_like_any_other() {
    let mut trie = Trie::new();
    assert!(!trie.contains(""));
    trie.insert("");
    assert!(trie.contains(""));
    assert!(!trie.contains("a"));
}
