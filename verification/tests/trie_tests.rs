use soyjot::hash_trie::HashTrie;
use soyjot::trie::SearchMode;
use soyjot::trie::Trie;

#[test]
fn test_trie() {
    let mut trie: Trie<&str> = Trie::new();

    trie.insert(b"a", "a");
    trie.insert(b"ab", "ab");
    trie.insert(b"abc", "abc");
    trie.insert(b"foo", "foo");
    trie.insert(b"foobar", "foobar");
    trie.insert(b"foobar2000", "foobar2000");

    assert!(trie.search(SearchMode::Prefix, b"f"));
    assert!(trie.search(SearchMode::Prefix, b"fo"));
    assert!(trie.search(SearchMode::Prefix, b"foo"));
    assert!(trie.search(SearchMode::Prefix, b"foob"));
    assert!(trie.search(SearchMode::Prefix, b"fooba"));
    assert!(trie.search(SearchMode::Prefix, b"foobar"));

    assert_eq!(trie.search(SearchMode::Prefix, b"a"), true);
    assert_eq!(trie.search(SearchMode::Prefix, b"f"), true);
    assert_eq!(trie.search(SearchMode::Prefix, b"fo"), true);
    assert_eq!(trie.search(SearchMode::Prefix, b"fa"), false);
    assert_eq!(trie.search(SearchMode::Prefix, b"bar"), false);
    assert_eq!(trie.search(SearchMode::Prefix, b"ob"), false);
    assert_eq!(trie.search(SearchMode::Prefix, b"foooba"), false);

    assert_eq!(trie.search(SearchMode::Exact, b"f"), false);
    assert_eq!(trie.search(SearchMode::Exact, b"fo"), false);
    assert_eq!(trie.search(SearchMode::Exact, b"foo"), true);
    assert_eq!(trie.search(SearchMode::Exact, b"foob"), false);
    assert_eq!(trie.search(SearchMode::Exact, b"fooba"), false);
    assert_eq!(trie.search(SearchMode::Exact, b"foobar"), true);

    assert_eq!(trie.all().len(), 6);
    assert_eq!(trie.predict(b"a").expect("a node is None").len(), 3);
    assert_eq!(trie.predict(b"f").expect("f node is None").len(), 3);

    let foob_node = trie.root.search_child(b"foob");
    assert_eq!(
        foob_node.expect("foob node is None").all_children().len(),
        2
    );
}

#[test]
fn trie_test_trie() {
    let mut trie: Trie<&str> = Trie::new();

    trie.insert(b"a", "a");
    trie.insert(b"ab", "ab");
    trie.insert(b"abc", "abc");
    trie.insert(b"foo", "foo");
    trie.insert(b"foobar", "foobar");
    trie.insert(b"foobar2000", "foobar2000");

    assert!(trie.search(SearchMode::Prefix, b"f"));
    assert!(trie.search(SearchMode::Prefix, b"fo"));
    assert!(trie.search(SearchMode::Prefix, b"foo"));
    assert!(trie.search(SearchMode::Prefix, b"foob"));
    assert!(trie.search(SearchMode::Prefix, b"fooba"));
    assert!(trie.search(SearchMode::Prefix, b"foobar"));

    assert_eq!(trie.search(SearchMode::Prefix, b"a"), true);
    assert_eq!(trie.search(SearchMode::Prefix, b"f"), true);
    assert_eq!(trie.search(SearchMode::Prefix, b"fo"), true);
    assert_eq!(trie.search(SearchMode::Prefix, b"fa"), false);
    assert_eq!(trie.search(SearchMode::Prefix, b"bar"), false);
    assert_eq!(trie.search(SearchMode::Prefix, b"ob"), false);
    assert_eq!(trie.search(SearchMode::Prefix, b"foooba"), false);

    assert_eq!(trie.search(SearchMode::Exact, b"f"), false);
    assert_eq!(trie.search(SearchMode::Exact, b"fo"), false);
    assert_eq!(trie.search(SearchMode::Exact, b"foo"), true);
    assert_eq!(trie.search(SearchMode::Exact, b"foob"), false);
    assert_eq!(trie.search(SearchMode::Exact, b"fooba"), false);
    assert_eq!(trie.search(SearchMode::Exact, b"foobar"), true);

    assert_eq!(trie.all_children().len(), 6);
    assert_eq!(trie.predict(b"a").expect("a node is None").len(), 3);
    assert_eq!(trie.predict(b"f").expect("f node is None").len(), 3);

    let foob_node = trie.root.search_child(b"foob");
    assert_eq!(
        foob_node.expect("foob node is None").all_children().len(),
        2
    );

    let foobar2000_node = trie.search_child(b"foobar2000");
    assert_eq!(
        foobar2000_node
            .expect("foobar2000 node is None")
            .all_children()
            .len(),
        1,
    );

    let foobar2000_node = trie.remove(b"foobar2000").expect("foobar2000 node is None");
    assert_eq!(foobar2000_node.all_children().len(), 1);
    assert_eq!(foobar2000_node.value, Some("foobar2000"));
    assert_eq!(trie.all_children().len(), 5);
    trie.remove(b"abc"); // deletes abc
    assert_eq!(trie.all_children().len(), 4);
    trie.remove(b"ab"); // deletes ab
    assert_eq!(trie.all_children().len(), 3);
    trie.remove(b"ab"); // deletes ab
    assert_eq!(trie.all_children().len(), 3);
    trie.remove(b"f"); // deletes f, fo, foo
    assert_eq!(trie.all_children().len(), 1);
    trie.remove(b"a"); // deletes a
    assert_eq!(trie.all_children().len(), 0);
}

#[test]
fn test_wrapper() {
    let mut w = HashTrie::new();

    assert_eq!(w.insert("1234".as_bytes()), 4);
    assert_eq!(w.insert("2345".as_bytes()), 4);
    assert_eq!(w.insert("0000".as_bytes()), 4);
    assert_eq!(w.insert("12345".as_bytes()), 5);
    assert_eq!(w.insert("123456".as_bytes()), 6);
}

#[test]
fn registry_reports_minimum_not_full_length() {
    // a long hash in a fresh registry needs only the minimum prefix
    let mut w = HashTrie::new();
    assert_eq!(w.insert("abcd1234".as_bytes()), 4);
    // a second hash sharing six characters diverges at the seventh
    assert_eq!(w.insert("abcd1299".as_bytes()), 7);
    // an unrelated hash is back to the minimum
    assert_eq!(w.insert("zzzz0000".as_bytes()), 4);
}
