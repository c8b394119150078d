use syllabs::ResourceRef;
use syllabs::Trie;

fn r(id: u64) -> ResourceRef {
    ResourceRef { id }
}

#[test]
fn empty_trie_misses() {
    let t = Trie::new();
    assert_eq!(t.lookup("a"), None);
    assert_eq!(t.lookup(""), None);
}

#[test]
fn empty_insert_is_noop() {
    let mut t = Trie::new();
    t.insert("", r(1));
    assert_eq!(t.lookup(""), None);
    assert_eq!(t.lookup("a"), None);
}

#[test]
fn leaf_completeness() {
    // Inserting only "a": lookup lands on a node with no children.
    let mut t = Trie::new();
    t.insert("a", r(10));
    assert_eq!(t.lookup("a"), Some((r(10), true)));
}

#[test]
fn non_leaf_completeness() {
    // "a" has its own resource but also a child, so it is not complete.
    let mut t = Trie::new();
    t.insert("a", r(10));
    t.insert("ab", r(11));
    assert_eq!(t.lookup("a"), Some((r(10), false)));
    assert_eq!(t.lookup("ab"), Some((r(11), true)));
}

#[test]
fn prefix_fallback_single() {
    // Inserting only "ka": "k" alone resolves to ka's resource, not yet
    // complete, never None.
    let mut t = Trie::new();
    t.insert("ka", r(20));
    assert_eq!(t.lookup("k"), Some((r(20), false)));
}

#[test]
fn prefix_fallback_two_children() {
    // "ka" and "ko" but no "k": "k" resolves to the first child in sibling
    // order ('a' < 'o'), flagged not complete.
    let mut t = Trie::new();
    t.insert("ko", r(21));
    t.insert("ka", r(20));
    assert_eq!(t.lookup("k"), Some((r(20), false)));
}

#[test]
fn fallback_prefers_one_letter_syllable() {
    // With "r" itself inserted, the fallback for "kr" plays the one-letter
    // "r" sound rather than descending below "kr".
    let mut t = Trie::new();
    t.insert("kra", r(30));
    t.insert("r", r(31));
    assert_eq!(t.lookup("kr"), Some((r(31), false)));
}

#[test]
fn fallback_misses_without_one_letter_start() {
    // "kra" only: "kr" lands in the tree but no syllable starts with "r".
    let mut t = Trie::new();
    t.insert("kra", r(30));
    assert_eq!(t.lookup("kr"), None);
}

#[test]
fn round_trip_many() {
    let mut t = Trie::new();
    let syllables = ["ba", "be", "bi", "bo", "bu", "ma", "mi", "mu", "zo"];
    for (i, s) in syllables.iter().enumerate() {
        t.insert(s, r(100 + i as u64));
    }
    for (i, s) in syllables.iter().enumerate() {
        assert_eq!(t.lookup(s), Some((r(100 + i as u64), true)));
    }
}

#[test]
fn insertion_order_does_not_matter() {
    let mut t1 = Trie::new();
    t1.insert("ka", r(1));
    t1.insert("ko", r(2));
    t1.insert("ki", r(3));
    let mut t2 = Trie::new();
    t2.insert("ki", r(3));
    t2.insert("ka", r(1));
    t2.insert("ko", r(2));
    for s in ["k", "ka", "ko", "ki", "kz", ""] {
        assert_eq!(t1.lookup(s), t2.lookup(s));
    }
}

#[test]
fn last_writer_wins() {
    let mut t = Trie::new();
    t.insert("ka", r(1));
    t.insert("ka", r(2));
    assert_eq!(t.lookup("ka"), Some((r(2), true)));
}

#[test]
fn miss_on_unrelated_candidate() {
    let mut t = Trie::new();
    t.insert("ka", r(1));
    assert_eq!(t.lookup("z"), None);
    assert_eq!(t.lookup("kab"), None);
    assert_eq!(t.lookup("za"), None);
}

#[test]
fn accented_characters_are_distinct() {
    let mut t = Trie::new();
    t.insert("é", r(1));
    t.insert("e", r(2));
    assert_eq!(t.lookup("é"), Some((r(1), true)));
    assert_eq!(t.lookup("e"), Some((r(2), true)));
}

#[test]
fn fallback_takes_least_syllable() {
    // No "k" inserted: "k" resolves to the lexicographically least syllable
    // starting with 'k'.
    let mut t = Trie::new();
    t.insert("ku", r(40));
    t.insert("ko", r(41));
    t.insert("ka", r(42));
    assert_eq!(t.lookup("k"), Some((r(42), false)));
}

#[test]
fn fallback_descends_to_least_syllable() {
    // "kbc" sorts before "kz", so the fallback for "k" descends below the
    // resourceless 'b' node rather than stopping at 'z'.
    let mut t = Trie::new();
    t.insert("kz", r(50));
    t.insert("kbc", r(51));
    assert_eq!(t.lookup("k"), Some((r(51), false)));
}
