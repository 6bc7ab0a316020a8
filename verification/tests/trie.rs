use powerfile_templating::trie::Trie;
use powerfile_templating::trie::TrieResult;
use powerfile_templating::util::unicode_reverse;

#[test]
fn insert_tracks_depth() {
    // `len` counts the stored entries: one per distinct key inserted
    let mut trie = Trie::new();

    trie.insert("test", 0);
    assert_eq!(trie.len, 1);

    trie.insert("test2", 0);
    assert_eq!(trie.len, 2);

    trie.insert("12345", 0);
    assert_eq!(trie.len, 3)
}

#[test]
fn get_longest_match_wins() {
    let mut prefixes = Trie::new();
    prefixes.insert("I", 0);
    prefixes.insert("IRequest", 1);

    if let Some(result) = prefixes.get("IRequestHandler") {
        assert_eq!(result.depth, 8);
    }
}

#[test]
fn get_single_match_wins() {
    let mut prefixes = Trie::new();
    prefixes.insert("I", 0);
    prefixes.insert("IRequestHandler", 1);

    if let Some(result) = prefixes.get("IRequest") {
        assert_eq!(result.depth, 1);
        assert_eq!(*result.value, 0);
    }
}

#[test]
fn insert_and_get_unicode() {
    let mut trie = Trie::new();
    trie.insert("こんにちは", 1);
    trie.insert("こん", 2);

    if let Some(result) = trie.get("こんにちは") {
        assert_eq!(result.depth, 5);
        assert_eq!(*result.value, 1);
    }

    if let Some(result) = trie.get("こんに") {
        assert_eq!(result.depth, 2);
        assert_eq!(*result.value, 2);
    }
}

#[test]
fn get_missing_key_returns_none() {
    let mut trie = Trie::new();
    trie.insert("apple", 1);
    assert!(trie.get("banana").is_none());
}

#[test]
fn get_returns_some_on_all_unicode_lookups() {
    // the matches of insert_and_get_unicode must actually exist
    let mut trie = Trie::new();
    trie.insert("こんにちは", 1);
    trie.insert("こん", 2);
    assert!(trie.get("こんにちは").is_some());
    assert!(trie.get("こんに").is_some());
    assert!(trie.get("こ").is_none());
}

#[test]
fn insert_overwrites_payload() {
    let mut trie = Trie::new();
    trie.insert("key", 1);
    trie.insert("key", 2);
    // a re-inserted key is not a new entry
    assert_eq!(trie.len, 1);
    let result = trie.get("key").expect("key should be found");
    assert_eq!(*result.value, 2);
    assert_eq!(result.depth, 3);
}

#[test]
fn empty_key_is_never_reported() {
    let mut trie = Trie::new();
    trie.insert("", 7);
    // the empty key is stored as an entry, but no lookup ever reports it
    assert_eq!(trie.len, 1);
    assert!(trie.get("").is_none());
    assert!(trie.get("x").is_none());
}

#[test]
fn from_vec_builds_the_same_trie() {
    let trie = Trie::from_vec(vec![("ab".to_string(), 1), ("abc".to_string(), 2)]);
    assert_eq!(trie.len, 2);
    let r = trie.get("abcd").expect("abc should match");
    assert_eq!(*r.value, 2);
    assert_eq!(r.depth, 3);
    let r = trie.get("abx").expect("ab should match");
    assert_eq!(*r.value, 1);
    assert_eq!(r.depth, 2);
}

#[test]
fn get_is_idempotent() {
    let mut trie = Trie::new();
    trie.insert("stable", 5);
    let a = trie.get("stable-query").map(|r| (*r.value, r.depth));
    let b = trie.get("stable-query").map(|r| (*r.value, r.depth));
    assert_eq!(a, b);
    assert_eq!(a, Some((5, 6)));
}

#[test]
fn trie_result_new_keeps_fields() {
    let r = TrieResult::new(4, "payload");
    assert_eq!(r.depth, 4);
    assert_eq!(r.value, "payload");
}

#[test]
fn unicode_reverse_reverses_graphemes() {
    assert_eq!(unicode_reverse("abc"), "cba");
    assert_eq!(unicode_reverse(""), "");
    assert_eq!(unicode_reverse("こんに"), "にんこ");
    // a combining accent stays attached to its base character
    assert_eq!(unicode_reverse("e\u{301}x"), "xe\u{301}");
}
