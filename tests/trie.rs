use cryptogram::trie::{trie_insert, InsertError, Trie};

fn walk<'a>(t: &'a Trie, word: &str) -> Option<&'a Trie> {
    let mut cur = t;
    for c in word.chars() {
        cur = cur.child((c as usize) - ('A' as usize))?;
    }
    Some(cur)
}

#[test]
fn inserted_words_end_on_terminal_nodes() {
    let mut t = Trie::new();
    assert_eq!(trie_insert(&mut t, "CAT"), Ok(()));
    assert_eq!(trie_insert(&mut t, "CATS"), Ok(()));
    assert_eq!(trie_insert(&mut t, "DOG"), Ok(()));
    for w in ["CAT", "CATS", "DOG"] {
        let node = walk(&t, w).expect("path exists");
        assert!(node.is_terminal());
        assert!(t.contains(w));
    }
}

#[test]
fn other_words_are_not_found() {
    let mut t = Trie::new();
    trie_insert(&mut t, "CATS").unwrap();
    // a proper prefix: the path exists but does not end a word
    let node = walk(&t, "CA").expect("prefix path exists");
    assert!(!node.is_terminal());
    assert!(!t.contains("CA"));
    // a missing path
    assert!(walk(&t, "DOG").is_none());
    assert!(!t.contains("DOG"));
    assert!(!t.contains("CATSS"));
    assert!(!t.contains(""));
}

#[test]
fn insert_is_idempotent() {
    let mut t = Trie::new();
    trie_insert(&mut t, "AB").unwrap();
    trie_insert(&mut t, "AB").unwrap();
    assert!(t.contains("AB"));
    assert!(!t.contains("A"));
    assert!(!t.contains("B"));
}

#[test]
fn empty_word_marks_the_root() {
    let mut t = Trie::default();
    assert!(!t.is_terminal());
    trie_insert(&mut t, "").unwrap();
    assert!(t.is_terminal());
    assert!(t.contains(""));
}

#[test]
fn non_uppercase_input_is_refused() {
    let mut t = Trie::new();
    assert_eq!(trie_insert(&mut t, "CaT"), Err(InsertError::NotUppercase(1)));
    assert_eq!(trie_insert(&mut t, "DOG!"), Err(InsertError::NotUppercase(3)));
    assert!(!t.contains("C"));
    assert!(walk(&t, "C").is_none());
    assert!(walk(&t, "D").is_none());
}

#[test]
fn child_lookup_by_letter_index() {
    let mut t = Trie::new();
    trie_insert(&mut t, "Z").unwrap();
    assert!(t.child(0).is_none());
    let z = t.child(25).expect("child Z");
    assert!(z.is_terminal());
    assert!(t.child(26).is_none());
}
