use turning_grille::words_trie::TrieNode;
use turning_grille::words_trie::WordsTrie;

fn lines(words: &[&str]) -> Vec<Vec<u8>> {
    words.iter().map(|w| w.as_bytes().to_vec()).collect()
}

#[test]
fn short_words_are_dropped_and_lines_are_normalized() {
    let trie = WordsTrie::new(&lines(&["cat", "at", "a", "h-a-t!", "DOG"]));
    // "at" and "a" fall under the three-letter floor; "h-a-t!" becomes HAT
    assert_eq!(trie.countWords(&b"CAT".to_vec()), 1);
    assert_eq!(trie.countWords(&b"AT".to_vec()), 0);
    assert_eq!(trie.countWords(&b"HAT".to_vec()), 1);
    assert_eq!(trie.countWords(&b"DOG".to_vec()), 1);
}

#[test]
fn count_words_counts_position_word_pairs() {
    let trie = WordsTrie::new(&lines(&["abc", "abcd", "bcd"]));
    // ABC at 0, ABCD at 0, BCD at 1
    assert_eq!(trie.countWords(&b"ABCD".to_vec()), 3);
}

#[test]
fn count_words_counts_overlaps() {
    let trie = WordsTrie::new(&lines(&["aaa"]));
    assert_eq!(trie.countWords(&b"AAAA".to_vec()), 2);
    assert_eq!(trie.countWords(&b"AAAAA".to_vec()), 3);
}

#[test]
fn count_words_of_empty_text_is_zero() {
    let trie = WordsTrie::new(&lines(&["abc"]));
    assert_eq!(trie.countWords(&b"".to_vec()), 0);
    assert_eq!(trie.countWords(&b"XYZ".to_vec()), 0);
}

#[test]
fn count_words_ignores_bytes_outside_the_alphabet() {
    let trie = WordsTrie::new(&lines(&["abc"]));
    // a walker dies on a byte that is no capital letter
    assert_eq!(trie.countWords(&b"AB-CABC".to_vec()), 1);
}

#[test]
fn count_words_is_monotone_under_concatenation() {
    let trie = WordsTrie::new(&lines(&["abc", "cba", "bca"]));
    let a = b"ABC".to_vec();
    let b = b"CBA".to_vec();
    let mut ab = a.clone();
    ab.extend_from_slice(&b);
    assert!(trie.countWords(&ab) >= trie.countWords(&a) + trie.countWords(&b));
    assert_eq!(trie.countWords(&a), 1);
    assert_eq!(trie.countWords(&b), 1);
    assert_eq!(trie.countWords(&ab), 2);

    // a seam can add words: CCB appears only across the boundary
    let seam_trie = WordsTrie::new(&lines(&["ccb"]));
    assert_eq!(seam_trie.countWords(&a), 0);
    assert_eq!(seam_trie.countWords(&b), 0);
    assert_eq!(seam_trie.countWords(&ab), 1);
}

#[test]
fn prefix_words_are_both_counted() {
    let trie = WordsTrie::new(&lines(&["run", "runner"]));
    assert_eq!(trie.countWords(&b"RUNNER".to_vec()), 2);
}

#[test]
fn get_or_create_child_leaves_the_dictionary_alone() {
    let mut node = TrieNode::new();
    assert!(node.getChild(b'A').is_none());
    node.getOrCreateChild(b'A');
    let child = node.getChild(b'A').expect("the child was just created");
    assert!(!child.isWordEnd());
    assert!(!node.isWordEnd());
    node.getOrCreateChild(b'A');
    assert!(node.getChild(b'A').is_some());
}

#[test]
fn set_word_end_marks_the_empty_word_here() {
    let mut node = TrieNode::new();
    assert!(!node.isWordEnd());
    node.setWordEnd();
    assert!(node.isWordEnd());
}
