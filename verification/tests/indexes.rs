use text_index::trie::Trie;
use text_index::suffix::{SuffixTree, SearchScopeSuffix, decode_suffix, encode_suffix};
use text_index::ngram::{NGramIndex, SearchScope};
use text_index::codec::{encode_trie, decode_trie, decode_ngram, encode_ngram};
use text_index::distance::edit_distance;

#[test]
fn trie_prefix_completeness() {
    let mut t = Trie::new();
    t.store("hello".to_string());
    t.store("help".to_string());
    t.store("jelly".to_string());
    let r = t.search("hel".to_string()).unwrap();
    assert_eq!(r.len(), 2);
    assert!(r.contains(&"hello".to_string()));
    assert!(r.contains(&"help".to_string()));
    let r2 = t.search("hello".to_string()).unwrap();
    assert_eq!(r2, vec!["hello".to_string()]);
}

#[test]
fn trie_no_match_is_an_error() {
    let mut t = Trie::new();
    t.store("hello".to_string());
    assert!(t.search("yo".to_string()).is_err());
}

#[test]
fn trie_store_twice_is_idempotent() {
    let mut once = Trie::new();
    once.store("cat".to_string());
    let mut twice = Trie::new();
    twice.store("cat".to_string());
    twice.store("cat".to_string());
    let a = once.search("c".to_string()).unwrap();
    let b = twice.search("c".to_string()).unwrap();
    assert_eq!(a, b);
    assert_eq!(b, vec!["cat".to_string()]);
}

#[test]
fn trie_round_trip() {
    let mut t = Trie::new();
    t.store("car".to_string());
    t.store("cat".to_string());
    t.store("dog".to_string());
    let bytes = encode_trie(&t);
    let back = decode_trie(&bytes).unwrap();
    let mut a = t.search("ca".to_string()).unwrap();
    let mut b = back.search("ca".to_string()).unwrap();
    a.sort();
    b.sort();
    assert_eq!(a, b);
    let mut all_a = t.search(String::new()).unwrap();
    let mut all_b = back.search(String::new()).unwrap();
    all_a.sort();
    all_b.sort();
    assert_eq!(all_a, all_b);
}

#[test]
fn trie_decode_rejects_garbage() {
    assert!(decode_trie(&vec![1u8, 2, 3]).is_err());
    assert!(decode_trie(&Vec::new()).is_err());
}

#[test]
fn suffix_word_regime_search() {
    let mut t = SuffixTree::new();
    t.store(vec!["hello"]);
    t.store(vec!["jello"]);
    let r = t.search("llo").unwrap();
    // three character suffixes of each token end with the term
    assert_eq!(
        r,
        vec!["hello", "hello", "hello", "jello", "jello", "jello"]
    );
    let r2 = t.search("ello").unwrap();
    assert_eq!(r2, vec!["hello", "hello", "jello", "jello"]);
}

#[test]
fn suffix_excludes_exact_term() {
    let mut t = SuffixTree::new();
    t.store(vec!["fox"]);
    // every matching child resolves to the token "fox", equal to the term
    assert!(t.search("fox").is_err());
}

#[test]
fn suffix_line_regime_search() {
    let mut t = SuffixTree::new();
    t.set_regime(SearchScopeSuffix::Lines);
    t.store(vec!["the quick fox"]);
    let r = t.search("fox").unwrap();
    assert_eq!(
        r,
        vec!["the quick fox", "the quick fox", "the quick fox"]
    );
}

#[test]
fn suffix_line_regime_splits_shared_prefixes() {
    let mut t = SuffixTree::new();
    t.set_regime(SearchScopeSuffix::Lines);
    t.store(vec!["a b c"]);
    t.store(vec!["a b d"]);
    // the shared word prefixes were cut, so only the undisturbed leaf
    // still ends with the term
    let r = t.search("c").unwrap();
    assert_eq!(r, vec!["a b c"]);
    // the two demoted children now carry the common prefixes
    let r2 = t.search("b").unwrap();
    assert_eq!(r2, vec!["a b c", "a b c"]);
}

#[test]
fn suffix_no_results_is_an_error() {
    let mut t = SuffixTree::new();
    t.store(vec!["hello"]);
    assert!(t.search("zzz").is_err());
}

#[test]
fn suffix_round_trip() {
    let mut t = SuffixTree::new();
    t.set_regime(SearchScopeSuffix::Lines);
    t.store(vec!["the quick fox"]);
    t.store(vec!["a quick brown fox"]);
    let bytes = encode_suffix(&t);
    let back = decode_suffix(&bytes).unwrap();
    let a = t.search("fox").unwrap();
    let b = back.search("fox").unwrap();
    let av: Vec<String> = a.iter().map(|s| s.to_string()).collect();
    let bv: Vec<String> = b.iter().map(|s| s.to_string()).collect();
    assert_eq!(av, bv);
}

#[test]
fn suffix_decode_rejects_garbage() {
    assert!(decode_suffix(&Vec::new()).is_err());
    assert!(decode_suffix(&vec![9u8, 0, 0]).is_err());
}

#[test]
fn ngram_strict_interior() {
    let mut n = NGramIndex::new();
    n.store("abcd".to_string());
    n.store("xabcdx".to_string());
    n.store("bc".to_string());
    let r = n.search("bc".to_string()).unwrap().unwrap();
    // the term must sit strictly inside: neither prefix nor suffix
    for w in r.iter() {
        assert!(w.contains("bc"));
        assert!(!w.starts_with("bc"));
        assert!(!w.ends_with("bc"));
    }
    assert!(r.contains(&"xabcdx".to_string()));
    // "abcd" holds "bc" strictly inside as well
    assert!(r.contains(&"abcd".to_string()));
    assert_eq!(r.len(), 2);
}

#[test]
fn ngram_no_match_is_an_error() {
    let mut n = NGramIndex::new();
    n.store("abcd".to_string());
    assert!(n.search("zz".to_string()).is_err());
}

#[test]
fn ngram_line_regime_search() {
    let mut n = NGramIndex::new();
    n.set_regime(SearchScope::Lines);
    n.store("the quick fox".to_string());
    n.store("a quick brown fox".to_string());
    n.store("fox jumps quick".to_string());
    let r = n.search("quick".to_string()).unwrap().unwrap();
    assert!(r.contains(&"the quick fox".to_string()));
    assert!(r.contains(&"a quick brown fox".to_string()));
    // the term is this line's string suffix, so it is not interior
    assert!(!r.contains(&"fox jumps quick".to_string()));
    assert_eq!(r.len(), 2);
}

#[test]
fn ngram_round_trip() {
    let mut n = NGramIndex::new();
    n.set_regime(SearchScope::Lines);
    n.store("the quick fox".to_string());
    n.store("a quick brown fox".to_string());
    let bytes = encode_ngram(&n);
    let back = decode_ngram(&bytes).unwrap();
    let mut a = n.search("quick".to_string()).unwrap().unwrap();
    let mut b = back.search("quick".to_string()).unwrap().unwrap();
    a.sort();
    b.sort();
    assert_eq!(a, b);
}

#[test]
fn ngram_decode_rejects_garbage() {
    assert!(decode_ngram(&Vec::new()).is_err());
    assert!(decode_ngram(&vec![7u8]).is_err());
}

#[test]
fn ngram_grapheme_windows() {
    let mut n = NGramIndex::new();
    n.store("héllo".to_string());
    let r = n.search("él".to_string()).unwrap().unwrap();
    assert_eq!(r, vec!["héllo".to_string()]);
}

#[test]
fn edit_distance_exact_values() {
    assert_eq!(edit_distance("kitten", "sitting"), 3);
    assert_eq!(edit_distance("", "abc"), 3);
    assert_eq!(edit_distance("abc", "abc"), 0);
    assert_eq!(edit_distance("quick", "the quick fox"), 8);
    assert_eq!(edit_distance("quick", "a quick brown fox"), 12);
}
