use soyjot::clipboard::Clipboard;
use soyjot::clipboard::Data;
use soyjot::digest::clipboard_hash;
use soyjot::tracker::Found;
use soyjot::tracker::TrieTracker;
use tokio::sync::oneshot;

fn mem(bytes: &[u8]) -> Clipboard {
    Clipboard::Mem(Data(bytes.to_vec()))
}

fn store(t: &mut TrieTracker, hash: &str, clip: Clipboard) -> usize {
    let (tx, _rx) = oneshot::channel();
    t.insert_clipboard(hash, clip, tx)
}

fn expect_mem_bytes(found: Option<Found>) -> Vec<u8> {
    match found {
        Some(Found::Mem(c)) => c.bytes().to_vec(),
        other => panic!("expected an in-memory hit, got {}", kind_of(&other)),
    }
}

fn kind_of(found: &Option<Found>) -> &'static str {
    match found {
        None => "absent",
        Some(Found::Mem(_)) => "mem",
        Some(Found::Persist(_)) => "persist",
    }
}

#[test]
fn test_store_get() {
    // We should be able to get multiple times. The entry is placed into the
    // trie directly, as the original placed it into its table directly.
    let foo = "foo";
    let clip = mem(b"eiei");
    let (tx, _) = oneshot::channel();

    let mut tracker = TrieTracker::new();
    tracker.trie.insert(
        foo.as_bytes(),
        soyjot::tracker::TrieValue {
            hash: foo.to_owned(),
            clipboard: Some(clip),
            abort_tx: tx,
        },
    );

    assert!(tracker.get_clipboard(foo).is_some());
    assert!(tracker.get_clipboard(foo).is_some());
    assert!(tracker.get_clipboard(foo).is_some());
}

#[test]
fn tracker_test_store_get() {
    let foo = "foo";
    let clip = mem(b"eiei");
    let (tx, _) = oneshot::channel();

    let mut tracker = TrieTracker::new();
    tracker.trie.insert(
        foo.as_bytes(),
        soyjot::tracker::TrieValue {
            hash: foo.to_owned(),
            clipboard: Some(clip),
            abort_tx: tx,
        },
    );

    assert!(tracker.get_clipboard(foo).is_some());
    assert!(tracker.get_clipboard(foo).is_some());
    assert!(tracker.get_clipboard(foo).is_some());
}

#[test]
fn trie_tracker_insert() {
    let vals = [
        ("123400000", 4), // Accessing this node requires designed minimum length 4
        ("123450000", 5), // Accessing this now requires 5 characters
        ("123456780", 6), // and so on..
        ("abcd1234x", 4),
        ("abcd12345", 9), // We need to go all the way "down" to character '5' to get unique value
        ("abcd00000", 5), // Here we only need 5 characters ("abcd0") to distinguish it from other nodes with "abcd"*
        ("abcdx0000", 5), // And this entry would need 5 ("abcdx")
    ];

    let mut htrie = TrieTracker::new();
    for (idx, val) in vals.into_iter().enumerate() {
        println!("{} {}", idx + 1, val.0);
        assert_eq!(
            store(&mut htrie, val.0, mem(val.0.as_bytes())),
            // Expected return value (min hash len)
            val.1,
        );
    }
}

#[test]
fn min_prefix_of_diverging_hashes() {
    // the two hashes share the 8-character prefix "abcd1234"; the second
    // needs one character past the first difference
    let mut t = TrieTracker::new();
    assert_eq!(store(&mut t, "abcd1234500", mem(b"one")), 4);
    assert_eq!(store(&mut t, "abcd1234x00", mem(b"two")), 9);
}

#[test]
fn stored_hashes_resolve_in_full() {
    let mut t = TrieTracker::new();
    store(&mut t, "123400000", mem(b"first"));
    store(&mut t, "123450000", mem(b"second"));
    store(&mut t, "abcd00000", mem(b"third"));

    assert_eq!(expect_mem_bytes(t.get_clipboard_frag("123400000")), b"first");
    assert_eq!(expect_mem_bytes(t.get_clipboard_frag("123450000")), b"second");
    assert_eq!(expect_mem_bytes(t.get_clipboard_frag("abcd00000")), b"third");
}

#[test]
fn ambiguous_prefix_is_absent_unique_prefix_resolves() {
    let mut t = TrieTracker::new();
    assert_eq!(store(&mut t, "123400000", mem(b"first")), 4);
    assert_eq!(store(&mut t, "123450000", mem(b"second")), 5);

    // "1234" is now shared by both entries
    assert!(t.get_clipboard_frag("1234").is_none());
    assert!(!t.is_shortest_ref("1234"));
    assert_eq!(expect_mem_bytes(t.get_clipboard_frag("12340")), b"first");
    assert_eq!(expect_mem_bytes(t.get_clipboard_frag("12345")), b"second");
    assert!(t.is_shortest_ref("12340"));

    // a prefix nothing was stored under
    assert!(t.get_clipboard_frag("9999").is_none());
}

#[test]
fn min_prefix_resolves_right_after_store() {
    let hashes = ["123400000", "123450000", "123456780", "abcd1234x", "abcd12345"];
    let mut t = TrieTracker::new();
    for h in hashes {
        let min_len = store(&mut t, h, mem(h.as_bytes()));
        let found = t.get_clipboard_frag(&h[..min_len]);
        assert_eq!(expect_mem_bytes(found), h.as_bytes());
    }
}

#[test]
fn second_store_replaces_first() {
    let mut t = TrieTracker::new();
    store(&mut t, "feed00000", mem(b"old bytes"));

    // the caller removes the previous entry before re-inserting, learning
    // its abort sender (and, were it persisted, that its file must go)
    let removed = t.remove("feed00000").expect("entry should be live");
    assert!(removed.clipboard.is_some());
    store(&mut t, "feed00000", mem(b"new bytes"));

    assert_eq!(expect_mem_bytes(t.get_clipboard_frag("feed00000")), b"new bytes");
    assert_eq!(expect_mem_bytes(t.get_clipboard_frag("feed")), b"new bytes");
}

#[test]
fn persisted_entries_return_their_file_name() {
    let mut t = TrieTracker::new();
    store(&mut t, "cafe00000", Clipboard::Persist(Data(b"eiei".to_vec())));

    match t.get_clipboard_frag("cafe") {
        Some(Found::Persist(h)) => assert_eq!(h, "cafe00000"),
        other => panic!("expected a persist marker, got {}", kind_of(&other)),
    }
    match t.get_clipboard("cafe00000") {
        Some(Found::Persist(h)) => assert_eq!(h, "cafe00000"),
        other => panic!("expected a persist marker, got {}", kind_of(&other)),
    }

    // the removed entry names no in-memory blob: its bytes live on disk
    let removed = t.remove("cafe00000").expect("entry should be live");
    assert!(removed.clipboard.is_none());
    assert_eq!(removed.hash, "cafe00000");
}

#[test]
fn removal_makes_lookups_absent() {
    let mut t = TrieTracker::new();
    store(&mut t, "dead00000", mem(b"soon gone"));
    assert!(t.get_clipboard_frag("dead00000").is_some());
    assert!(!t.is_empty());

    // what the expiry task does when its timer fires
    let removed = t.remove("dead00000");
    assert!(removed.is_some());

    assert!(t.get_clipboard_frag("dead00000").is_none());
    assert!(t.get_clipboard("dead00000").is_none());
    assert!(t.is_empty());
    assert!(t.remove("dead00000").is_none());
}

#[test]
fn get_clipboard_ignores_descendants() {
    let mut t = TrieTracker::new();
    store(&mut t, "aaaa00000", mem(b"blob"));

    // the exact-match lookup wants the full hash, not a prefix
    assert!(t.get_clipboard("aaaa").is_none());
    assert_eq!(expect_mem_bytes(t.get_clipboard("aaaa00000")), b"blob");
}

#[test]
fn full_hash_round_trip() {
    // store a blob under the hex digest of its own contents, as the HTTP
    // adapter does, and read it back by that digest
    let blob = mem(b"foo");
    let hash = clipboard_hash(&blob);
    assert_eq!(
        hash,
        "2c26b46b68ffc68ff99b453c1d30413413422d706483bfa0f98a5e886266e7ae"
    );

    let mut t = TrieTracker::new();
    store(&mut t, &hash, blob);
    assert_eq!(expect_mem_bytes(t.get_clipboard_frag(&hash)), b"foo");
}

#[test]
fn digest_handle_is_hash_prefix() {
    let blob = mem(b"foo");
    let handle = soyjot::digest::clipboard_handle(&blob);
    assert_eq!(handle, "2c26");

    let empty = mem(b"");
    assert_eq!(
        clipboard_hash(&empty),
        "e3b0c44298fc1c149afbf4c8996fb92427ae41e4649b934ca495991b7852b855"
    );
}
