use text_index::builder::{process_data, Trees, Scope as BuildScope};
use text_index::query::{perform_search, Scope, SearchType, AppMessage, DebugSink, MessageLog};
use text_index::scan::UserInput;

const CORPUS: &str = "the quick fox\na quick brown fox\nfox jumps quick";

fn run(
    scope: Scope,
    search_type: SearchType,
    tree: Trees,
    build_scope: BuildScope,
    term: &str,
) -> Vec<(usize, String)> {
    let bytes = process_data(&tree, &build_scope, CORPUS);
    let mut sink = MessageLog { messages: Vec::new() };
    perform_search(&scope, &search_type, term, &Some(bytes), &mut sink)
}

#[test]
fn scenario_prefix_lines_is_empty() {
    // no line starts with the term, and no line's first word equals it
    let r = run(
        Scope::Lines,
        SearchType::Prefix,
        Trees::Trie,
        BuildScope::Line,
        "quick",
    );
    assert!(r.is_empty());
}

#[test]
fn scenario_contains_lines_ranked() {
    // the third line carries the term as its string suffix and last word,
    // so the interior rule and the filter both leave it out
    let r = run(
        Scope::Lines,
        SearchType::Contains,
        Trees::NGramIndex,
        BuildScope::Line,
        "quick",
    );
    assert_eq!(
        r,
        vec![
            (8usize, "the quick fox".to_string()),
            (12usize, "a quick brown fox".to_string()),
        ]
    );
}

#[test]
fn scenario_prefix_words() {
    let r = run(
        Scope::Words,
        SearchType::Prefix,
        Trees::Trie,
        BuildScope::Word,
        "qui",
    );
    // stored words are a set, so the repeated word appears once
    assert_eq!(r, vec![(2usize, "quick".to_string())]);
}

#[test]
fn scenario_suffix_lines() {
    let r = run(
        Scope::Lines,
        SearchType::Suffix,
        Trees::Suffix,
        BuildScope::Line,
        "fox",
    );
    assert!(!r.is_empty());
    // every kept line ends in the term, and distances never decrease
    for (i, (d, text)) in r.iter().enumerate() {
        assert!(text.ends_with("fox"));
        if i > 0 {
            assert!(r[i - 1].0 <= *d);
        }
    }
}

#[test]
fn missing_artifact_yields_empty() {
    let mut sink = MessageLog { messages: Vec::new() };
    let r = perform_search(&Scope::Lines, &SearchType::Prefix, "quick", &None, &mut sink);
    assert!(r.is_empty());
    assert!(!sink.messages.is_empty());
}

#[test]
fn corrupt_artifact_yields_empty() {
    let mut sink = MessageLog { messages: Vec::new() };
    let r = perform_search(
        &Scope::Lines,
        &SearchType::Contains,
        "quick",
        &Some(vec![9u8, 9, 9]),
        &mut sink,
    );
    assert!(r.is_empty());
}

#[test]
fn case_folded_filter_rejects_boundary_word() {
    // the first word of the line equals the term once case is folded, so
    // the contains filter must reject it
    let corpus = "QUICK then quick goes by";
    let bytes = process_data(&Trees::NGramIndex, &BuildScope::Line, corpus);
    let mut sink = MessageLog { messages: Vec::new() };
    let r = perform_search(
        &Scope::Lines,
        &SearchType::Contains,
        "quick",
        &Some(bytes),
        &mut sink,
    );
    assert!(r.is_empty());
}

#[test]
fn oversized_tokens_are_skipped() {
    let long_word = "x".repeat(300);
    let corpus = format!("{} short", long_word);
    let bytes = process_data(&Trees::Trie, &BuildScope::Word, corpus.as_str());
    let mut sink = MessageLog { messages: Vec::new() };
    let r = perform_search(
        &Scope::Words,
        &SearchType::Prefix,
        "x",
        &Some(bytes.clone()),
        &mut sink,
    );
    assert!(r.is_empty());
    let kept = perform_search(&Scope::Words, &SearchType::Prefix, "sho", &Some(bytes), &mut sink);
    assert_eq!(kept.len(), 1);
    assert_eq!(kept[0].1, "short".to_string());
}

#[test]
fn result_count_is_capped() {
    let mut corpus = String::new();
    for i in 0..250 {
        corpus.push_str(&format!("word{:03}\n", i));
    }
    let bytes = process_data(&Trees::Trie, &BuildScope::Word, corpus.as_str());
    let mut sink = MessageLog { messages: Vec::new() };
    let r = perform_search(&Scope::Words, &SearchType::Prefix, "word", &Some(bytes), &mut sink);
    assert_eq!(r.len(), 100);
    for i in 1..r.len() {
        assert!(r[i - 1].0 <= r[i].0);
    }
}

#[test]
fn distances_above_the_byte_range_stay_exact() {
    let mut line = "a".repeat(150);
    line.push_str(" quick ");
    line.push_str(&"b".repeat(150));
    let bytes = process_data(&Trees::NGramIndex, &BuildScope::Line, line.as_str());
    let mut sink = MessageLog { messages: Vec::new() };
    let r = perform_search(&Scope::Lines, &SearchType::Contains, "quick", &Some(bytes), &mut sink);
    assert_eq!(r.len(), 1);
    // 302 characters of the line are not part of the term
    assert_eq!(r[0].0, 302usize);
}

#[test]
fn cutoff_counts_characters_not_bytes() {
    // 200 characters but 400 UTF-8 bytes: within the word cutoff
    let word = "é".repeat(200);
    let corpus = format!("{} plain", word);
    let bytes = process_data(&Trees::Trie, &BuildScope::Word, corpus.as_str());
    let mut sink = MessageLog { messages: Vec::new() };
    let r = perform_search(&Scope::Words, &SearchType::Prefix, "é", &Some(bytes), &mut sink);
    assert_eq!(r.len(), 1);
    assert_eq!(r[0].1, word);
}

#[test]
fn sink_receives_events() {
    let bytes = process_data(&Trees::Trie, &BuildScope::Word, "alpha beta");
    let mut sink = MessageLog { messages: Vec::new() };
    let _ = perform_search(&Scope::Words, &SearchType::Prefix, "al", &Some(bytes), &mut sink);
    let mut saw_debug = false;
    for m in sink.messages.iter() {
        if let AppMessage::Debug(_) = m {
            saw_debug = true;
        }
    }
    assert!(saw_debug);
}

#[test]
fn scanner_contains_lines() {
    let input = UserInput::inital(Some(2), "quick".to_string(), Some(3));
    let corpus = "the quick fox\r\na quick brown fox\r\nfox jumps quick";
    let r = input.search(corpus);
    assert_eq!(
        r,
        vec![
            (8usize, "the quick fox".to_string()),
            (12usize, "a quick brown fox".to_string()),
        ]
    );
}

#[test]
fn scanner_prefix_words() {
    let input = UserInput::inital(Some(1), "qui".to_string(), Some(1));
    let r = input.search("the quick fox\na quick brown fox\nfox jumps quick");
    assert_eq!(r.len(), 3);
    for (d, w) in r.iter() {
        assert_eq!(*d, 2usize);
        assert_eq!(w, "quick");
    }
}

#[test]
fn scanner_trims_the_term() {
    let input = UserInput::inital(Some(1), " qui ".to_string(), Some(1));
    let r = input.search("the quick fox\na quick brown fox\nfox jumps quick");
    assert_eq!(r.len(), 3);
    for (d, w) in r.iter() {
        assert_eq!(*d, 2usize);
        assert_eq!(w, "quick");
    }
}

#[test]
fn scanner_suffix_cleans_line_punctuation() {
    let input = UserInput::inital(Some(2), "fox".to_string(), Some(2));
    let r = input.search("we saw a fox.");
    assert_eq!(r.len(), 1);
    assert_eq!(r[0].1, "we saw a fox.");
    assert_eq!(r[0].0, 9usize);
}

#[test]
fn scanner_suffix_ignores_trailing_punctuation() {
    let input = UserInput::inital(Some(1), "fox".to_string(), Some(2));
    let r = input.search("a fox. then nothing");
    assert_eq!(r.len(), 1);
    assert_eq!(r[0].1, "fox");
    assert_eq!(r[0].0, 0usize);
}
