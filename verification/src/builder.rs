//! The batch builder: tokenize a corpus under a scope, drop oversized
//! tokens, feed the rest into the chosen structure, and encode it.
use vstd::prelude::*;
use crate::segment::{unicode_words_vec, words_of};
use crate::strutil::{lines_of, lines_vec};
use crate::trie::Trie;
use crate::suffix::{SuffixTree, SearchScopeSuffix, enc_suffix_art, replay_meta, replay_children,
    suffix_entries, encode_suffix, lemma_suffix_entries_replay};
use crate::ngram::{NGramIndex, SearchScope};
use crate::codec::{enc_token_list, enc_ngram, encode_trie, encode_ngram};

verus! {

/// Which index structure to build.
pub enum Trees {
    Trie,
    Suffix,
    NGramIndex,
}

/// The tokenization granularity of a build.
pub enum Scope {
    Word,
    Line,
}

/// The scope's length cutoff, in characters.
pub open spec fn scope_limit(scope: Scope) -> int {
    match scope {
        Scope::Word => 255,
        Scope::Line => 32768,
    }
}

/// The corpus tokens under a scope.
pub open spec fn scope_tokens(scope: Scope, corpus: Seq<char>) -> Seq<Seq<char>> {
    match scope {
        Scope::Word => words_of(corpus),
        Scope::Line => lines_of(corpus),
    }
}

/// The tokens within the cutoff, in order.
pub open spec fn kept_tokens(toks: Seq<Seq<char>>, limit: int) -> Seq<Seq<char>>
    decreases toks.len(),
{
    if toks.len() == 0 {
        Seq::empty()
    } else {
        let rest = kept_tokens(toks.drop_last(), limit);
        if toks.last().len() <= limit {
            rest.push(toks.last())
        } else {
            rest
        }
    }
}

/// Map each kept line to a one-token store call.
pub open spec fn as_entries(toks: Seq<Seq<char>>) -> Seq<Option<Seq<char>>> {
    toks.map(|i: int, t: Seq<char>| Some(t))
}

/// Tokenize the corpus under the scope and keep the tokens within the
/// cutoff, in order.
pub fn corpus_tokens(search_scope: &Scope, corpus: &str) -> (r: Vec<String>)
    ensures
        r.deep_view() == kept_tokens(scope_tokens(*search_scope, corpus@), scope_limit(
            *search_scope,
        )),
{
    let toks: Vec<String> = match search_scope {
        Scope::Word => unicode_words_vec(corpus),
        Scope::Line => lines_vec(corpus),
    };
    let limit: usize = match search_scope {
        Scope::Word => 255,
        Scope::Line => 32768,
    };
    let ghost tv = toks.deep_view();
    let mut r: Vec<String> = Vec::new();
    let mut i: usize = 0;
    proof {
        assert(tv.len() == toks@.len());
        assert(r.deep_view() =~= kept_tokens(tv.take(0), limit as int));
    }
    while i < toks.len()
        invariant
            tv == toks.deep_view(),
            tv.len() == toks@.len(),
            i <= toks@.len(),
            limit == scope_limit(*search_scope),
            r.deep_view() == kept_tokens(tv.take(i as int), limit as int),
        decreases toks@.len() - i,
    {
        let t = &toks[i];
        let ghost prev = r.deep_view();
        let ts = t.as_str();
        let cl = ts.unicode_len();
        proof {
            assert(ts@ == tv[i as int]);
            assert(cl == tv[i as int].len());
        }
        if cl <= limit {
            r.push(t.clone());
            proof {
                assert(r.deep_view() =~= prev.push(tv[i as int]));
            }
        }
        proof {
            let t1 = tv.take(i + 1);
            assert(t1.drop_last() =~= tv.take(i as int));
            assert(t1.last() == tv[i as int]);
            assert(r.deep_view() == kept_tokens(t1, limit as int));
        }
        i = i + 1;
    }
    proof {
        assert(tv.take(tv.len() as int) =~= tv);
    }
    r
}

/// Build the chosen structure over the kept corpus tokens and encode it.
pub fn process_data(trees: &Trees, search_scope: &Scope, corpus: &str) -> (r: Vec<u8>)
    ensures
        ({
            let kept = kept_tokens(
                scope_tokens(*search_scope, corpus@),
                scope_limit(*search_scope),
            );
            match *trees {
                Trees::Trie => exists|ws: Seq<Seq<char>>|
                    {
                        &&& r@ == enc_token_list(ws)
                        &&& forall|w: Seq<char>| ws.contains(w) <==> kept.contains(w)
                        &&& forall|k1: int, k2: int| 0 <= k1 < k2 < ws.len() ==> ws[k1] != ws[k2]
                        &&& crate::strutil::sorted_lex(ws)
                    },
                Trees::Suffix => r@ == enc_suffix_art(
                    match *search_scope {
                        Scope::Word => SearchScopeSuffix::Words,
                        Scope::Line => SearchScopeSuffix::Lines,
                    },
                    as_entries(kept),
                ),
                Trees::NGramIndex => r@ == enc_ngram(
                    match *search_scope {
                        Scope::Word => SearchScope::Words,
                        Scope::Line => SearchScope::Lines,
                    },
                    kept,
                ),
            }
        }),
{
    let toks = corpus_tokens(search_scope, corpus);
    let ghost kept = toks.deep_view();
    match trees {
        Trees::Trie => {
            let mut t = Trie::new();
            let mut i: usize = 0;
            while i < toks.len()
                invariant
                    t.wf(),
                    i <= toks@.len(),
                    kept == toks.deep_view(),
                    kept.len() == toks@.len(),
                    forall|w: Seq<char>| t.contains_token(w) <==> kept.take(i as int).contains(w),
                decreases toks@.len() - i,
            {
                let s = toks[i].clone();
                let ghost prev = kept.take(i as int);
                t.store(s);
                proof {
                    assert(s@ == kept[i as int]);
                    assert forall|w: Seq<char>|
                        t.contains_token(w) <==> kept.take(i + 1).contains(w) by {
                        if t.contains_token(w) {
                            if w == s@ {
                                assert(kept.take(i + 1)[i as int] == w);
                            } else {
                                let x = choose|x: int| 0 <= x < prev.len() && prev[x] == w;
                                assert(kept.take(i + 1)[x] == w);
                            }
                        }
                        if kept.take(i + 1).contains(w) {
                            let t1 = kept.take(i + 1);
                            let x = choose|x: int| 0 <= x < t1.len() && #[trigger] t1[x] == w;
                            if x < i {
                                assert(prev[x] == w);
                            }
                        }
                    }
                }
                i = i + 1;
            }
            proof {
                assert(kept.take(kept.len() as int) =~= kept);
            }
            let r = encode_trie(&t);
            proof {
                let ws = choose|ws: Seq<Seq<char>>|
                    {
                        &&& r@ == enc_token_list(ws)
                        &&& forall|k: int|
                            0 <= k < ws.len() ==> t.contains_token(#[trigger] ws[k])
                        &&& forall|s: Seq<char>| t.contains_token(s) ==> ws.contains(s)
                        &&& forall|k1: int, k2: int|
                            0 <= k1 < k2 < ws.len() ==> ws[k1] != ws[k2]
                        &&& crate::strutil::sorted_lex(ws)
                    };
                assert forall|w: Seq<char>| ws.contains(w) <==> kept.contains(w) by {
                    if ws.contains(w) {
                        let x = choose|x: int| 0 <= x < ws.len() && #[trigger] ws[x] == w;
                        assert(t.contains_token(w));
                    }
                    if kept.contains(w) {
                        assert(t.contains_token(w));
                    }
                }
            }
            r
        },
        Trees::Suffix => {
            let mut t = SuffixTree::new();
            match search_scope {
                Scope::Word => t.set_regime(SearchScopeSuffix::Words),
                Scope::Line => t.set_regime(SearchScopeSuffix::Lines),
            }
            let ghost stv = t.regime();
            let ghost es = as_entries(kept);
            let mut i: usize = 0;
            proof {
                assert(es.len() == kept.len());
                assert(t.meta_abs() =~= replay_meta(es, 0));
                assert(t.root_abs() =~= replay_children(stv, es, 0));
            }
            while i < toks.len()
                invariant
                    t.wf(),
                    t.regime() == stv,
                    i <= toks@.len(),
                    kept == toks.deep_view(),
                    kept.len() == toks@.len(),
                    es == as_entries(kept),
                    es.len() == kept.len(),
                    t.count_spec() == i,
                    t.meta_abs() == replay_meta(es, i as int),
                    t.root_abs() == replay_children(stv, es, i as int),
                decreases toks@.len() - i,
            {
                let tok = &toks[i];
                let mut kv: Vec<&str> = Vec::new();
                kv.push(tok.as_str());
                proof {
                    assert(kv@.len() == 1);
                    assert(kv.deep_view() =~= seq![tok@]);
                    assert(tok@ == kept[i as int]);
                    assert(es[i as int] == Some(kept[i as int]));
                }
                t.store(kv);
                proof {
                    let prevc = replay_children(stv, es, i as int);
                    match stv {
                        SearchScopeSuffix::Words => {
                            assert(t.root_abs() == crate::suffix::store_words_items(
                                prevc,
                                seq![tok@],
                                0,
                                i + 1,
                            ));
                            assert(crate::suffix::store_words_items(prevc, seq![tok@], 0, i + 1)
                                == crate::suffix::store_words_items(
                                crate::suffix::store_word_suffixes(prevc, tok@, 0, i + 1),
                                seq![tok@],
                                1,
                                i + 1,
                            ));
                            assert(seq![tok@].last() == tok@);
                            assert(t.meta_abs() == replay_meta(es, i + 1));
                            assert(t.root_abs() == replay_children(stv, es, i + 1));
                        },
                        SearchScopeSuffix::Lines => {
                            assert(kv.deep_view()[0] == tok@);
                            assert(t.meta_abs() == replay_meta(es, i + 1));
                            assert(t.root_abs() == replay_children(stv, es, i + 1));
                        },
                    }
                }
                i = i + 1;
            }
            let r = encode_suffix(&t);
            proof {
                assert(forall|x: int| 0 <= x < es.len() ==> (#[trigger] es[x]) is Some);
                lemma_suffix_entries_replay(es);
                assert(suffix_entries(t.meta_abs(), t.count_spec()) == es);
            }
            r
        },
        Trees::NGramIndex => {
            let mut t = NGramIndex::new();
            match search_scope {
                Scope::Word => t.set_regime(SearchScope::Words),
                Scope::Line => t.set_regime(SearchScope::Lines),
            }
            let ghost stv = t.regime();
            let mut i: usize = 0;
            let tn = toks.len();
            proof {
                assert(t.words_abs() =~= kept.take(0));
            }
            while i < tn
                invariant
                    t.wf(),
                    t.regime() == stv,
                    t.gram_width() == 2,
                    tn == toks@.len(),
                    i <= tn,
                    kept == toks.deep_view(),
                    kept.len() == tn,
                    tn <= usize::MAX,
                    t.words_abs() == kept.take(i as int),
                decreases tn - i,
            {
                let s = toks[i].clone();
                proof {
                    assert(s@ == kept[i as int]);
                    assert(t.words_abs().len() == i < usize::MAX);
                }
                t.store(s);
                proof {
                    assert(t.words_abs() =~= kept.take(i + 1));
                }
                i = i + 1;
            }
            proof {
                assert(kept.take(kept.len() as int) =~= kept);
            }
            encode_ngram(&t)
        },
    }
}

} // verus!
