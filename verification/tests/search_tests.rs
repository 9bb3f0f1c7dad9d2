use t9_words::keypad::t9_letters;
use t9_words::trie::Trie;

/// Maps one result string back to digits: spaces dropped, each letter
/// replaced by its keypad digit.
fn map_back(s: &str) -> String {
    let mut digits = String::new();
    for c in s.chars() {
        if c == ' ' {
            continue;
        }
        let d = match c {
            'a' | 'b' | 'c' => '2',
            'd' | 'e' | 'f' => '3',
            'g' | 'h' | 'i' => '4',
            'j' | 'k' | 'l' => '5',
            'm' | 'n' | 'o' => '6',
            'p' | 'q' | 'r' | 's' => '7',
            't' | 'u' | 'v' => '8',
            'w' | 'x' | 'y' | 'z' => '9',
            _ => panic!("unexpected character in result: {:?}", c),
        };
        digits.push(d);
    }
    digits
}

#[test]
fn keypad_table_is_the_fixed_t9_layout() {
    assert_eq!(t9_letters('2'), vec!['a', 'b', 'c']);
    assert_eq!(t9_letters('3'), vec!['d', 'e', 'f']);
    assert_eq!(t9_letters('4'), vec!['g', 'h', 'i']);
    assert_eq!(t9_letters('5'), vec!['j', 'k', 'l']);
    assert_eq!(t9_letters('6'), vec!['m', 'n', 'o']);
    assert_eq!(t9_letters('7'), vec!['p', 'q', 'r', 's']);
    assert_eq!(t9_letters('8'), vec!['t', 'u', 'v']);
    assert_eq!(t9_letters('9'), vec!['w', 'x', 'y', 'z']);
    assert_eq!(t9_letters('0'), Vec::<char>::new());
    assert_eq!(t9_letters('1'), Vec::<char>::new());
}

#[test]
fn single_word_decomposition() {
    let mut trie = Trie::new();
    trie.insert("cab");
    let results = trie.phone_words("222");
    assert_eq!(results.len(), 1);
    assert!(results.contains(&"cab".to_string()));
}

#[test]
fn digit_consistent_word_is_found() {
    let mut trie = Trie::new();
    trie.insert("go");
    let results = trie.phone_words("46");
    assert_eq!(results.len(), 1);
    assert!(results.contains(&"go".to_string()));
}

#[test]
fn word_pair_appears_only_when_digits_match() {
    let mut trie = Trie::new();
    trie.insert("an");
    trie.insert("go");
    let matching = trie.phone_words("2646");
    assert!(matching.contains(&"an go".to_string()));
    assert_eq!(matching.len(), 1);
    let longer = trie.phone_words("26466");
    assert!(!longer.contains(&"an go".to_string()));
}

#[test]
fn empty_digit_string_yields_empty_word_only_if_root_terminal() {
    let mut trie = Trie::new();
    trie.insert("go");
    assert_eq!(trie.phone_words("").len(), 0);
    trie.insert("");
    let results = trie.phone_words("");
    assert_eq!(results.len(), 1);
    assert!(results.contains(&"".to_string()));
}

#[test]
fn zero_and_one_dead_end_silently() {
    let mut trie = Trie::new();
    trie.insert("go");
    assert_eq!(trie.phone_words("406").len(), 0);
    assert_eq!(trie.phone_words("1").len(), 0);
    assert_eq!(trie.phone_words("460").len(), 0);
}

#[test]
fn multi_word_decompositions_map_back_to_the_digits() {
    let mut trie = Trie::new();
    trie.insert("use");
    trie.insert("rust");
    trie.insert("us");
    trie.insert("erupt");
    let results = trie.phone_words("8737878");
    assert!(results.contains(&"use rust".to_string()));
    assert!(results.contains(&"us erupt".to_string()));
    for r in &results {
        assert_eq!(map_back(r), "8737878");
    }
}

#[test]
fn no_decomposition_is_a_silent_empty_result() {
    let mut trie = Trie::new();
    trie.insert("cat");
    assert_eq!(trie.phone_words("99").len(), 0);
}
