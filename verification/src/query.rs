//! The query pipeline: decode an artifact, run the structure's raw
//! search, apply the line-scope word-boundary filter, rank the survivors
//! by edit distance, sort stably and keep at most one hundred.
use vstd::prelude::*;
use crate::distance::{lev, edit_distance};
use crate::segment::{words_of, lower_of, unicode_words_vec, lowercase};
use crate::strutil::{is_prefix_of, str_eq};
use crate::suffix::{SearchScopeSuffix, cand_list, replay_children, replay_meta, enc_suffix_art,
    decode_suffix};
use crate::ngram::{SearchScope, interior_match, candidate_in, ngram_replay_grams,
    lemma_candidate_abs, lemma_candidate_stored, lemma_candidate_interior};
use crate::codec::{enc_token_list, enc_ngram, decode_trie, decode_ngram};

verus! {

/// The indexing granularity a query addresses.
pub enum Scope {
    Words,
    Lines,
}

/// The search style, each served by its own structure.
pub enum SearchType {
    Prefix,
    Suffix,
    Contains,
}

/// A message for the diagnostic stream.
pub enum AppMessage {
    SearchComplete(Vec<(u8, String)>, std::time::Duration),
    Debug(String),
}

/// A fire-and-forget sink for diagnostic events; the pipeline never
/// depends on what a sink does with them.
pub trait DebugSink {
    /// Accept one event.
    fn emit(&mut self, msg: AppMessage);
}

/// A sink that simply keeps the events.
pub struct MessageLog {
    pub messages: Vec<AppMessage>,
}

impl DebugSink for MessageLog {
    fn emit(&mut self, msg: AppMessage) {
        self.messages.push(msg);
    }
}

/// The line-scope filter: the candidate line must have words, and its
/// first or last word (folded case) decides per search style.
pub open spec fn line_keep(st: SearchType, term: Seq<char>, text: Seq<char>) -> bool {
    let ws = words_of(text);
    ws.len() > 0 && {
        let f = lower_of(ws[0]);
        let l = lower_of(ws[ws.len() - 1]);
        let q = lower_of(term);
        match st {
            SearchType::Prefix => f == q,
            SearchType::Suffix => l == q,
            SearchType::Contains => f != q && l != q,
        }
    }
}

/// Word scope keeps everything; line scope filters by word boundary.
pub open spec fn keep(scope: Scope, st: SearchType, term: Seq<char>, text: Seq<char>) -> bool {
    match scope {
        Scope::Words => true,
        Scope::Lines => line_keep(st, term, text),
    }
}

/// The ranking key: exactly the edit distance to the term.
pub open spec fn dist_key(term: Seq<char>, text: Seq<char>) -> int {
    lev(term, text) as int
}

/// The kept candidates in order, paired with their ranking keys.
pub open spec fn rank_pairs(scope: Scope, st: SearchType, term: Seq<char>, items: Seq<Seq<char>>) -> Seq<
    (int, Seq<char>),
>
    decreases items.len(),
{
    if items.len() == 0 {
        Seq::empty()
    } else {
        let rest = rank_pairs(scope, st, term, items.drop_last());
        if keep(scope, st, term, items.last()) {
            rest.push((dist_key(term, items.last()), items.last()))
        } else {
            rest
        }
    }
}

/// Insert after every entry whose key is not larger, keeping ties in
/// arrival order.
pub open spec fn insert_pair(x: (int, Seq<char>), s: Seq<(int, Seq<char>)>) -> Seq<(int, Seq<char>)>
    decreases s.len(),
{
    if s.len() == 0 {
        seq![x]
    } else if x.0 < s[0].0 {
        seq![x] + s
    } else {
        seq![s[0]] + insert_pair(x, s.skip(1))
    }
}

/// Stable sort by ranking key: insert each entry, last entry last.
pub open spec fn sort_pairs(s: Seq<(int, Seq<char>)>) -> Seq<(int, Seq<char>)>
    decreases s.len(),
{
    if s.len() == 0 {
        Seq::empty()
    } else {
        insert_pair(s.last(), sort_pairs(s.drop_last()))
    }
}

/// Keys are non-decreasing.
pub open spec fn sorted_pairs(s: Seq<(int, Seq<char>)>) -> bool {
    forall|i: int, j: int| 0 <= i < j < s.len() ==> (#[trigger] s[i]).0 <= (#[trigger] s[j]).0
}

/// The whole pipeline after the raw search: filter, rank, sort, truncate.
pub open spec fn query_pipeline(
    scope: Scope,
    st: SearchType,
    term: Seq<char>,
    items: Seq<Seq<char>>,
) -> Seq<(int, Seq<char>)> {
    let sorted = sort_pairs(rank_pairs(scope, st, term, items));
    if sorted.len() <= 100 {
        sorted
    } else {
        sorted.take(100)
    }
}

/// The pairs of a result list, by view.
pub open spec fn pairs_view(r: Seq<(usize, String)>) -> Seq<(int, Seq<char>)> {
    r.map(|i: int, p: (usize, String)| (p.0 as int, p.1@))
}

/// Inserting keeps sortedness and adds exactly the new entry.
pub proof fn lemma_insert_pair(x: (int, Seq<char>), s: Seq<(int, Seq<char>)>)
    requires
        sorted_pairs(s),
    ensures
        sorted_pairs(insert_pair(x, s)),
        insert_pair(x, s).len() == s.len() + 1,
        forall|k: int|
            0 <= k < insert_pair(x, s).len() ==> (#[trigger] insert_pair(x, s)[k]) == x
                || s.contains(insert_pair(x, s)[k]),
        insert_pair(x, s).contains(x),
        forall|e: (int, Seq<char>)| s.contains(e) ==> insert_pair(x, s).contains(e),
    decreases s.len(),
{
    let r = insert_pair(x, s);
    if s.len() == 0 {
        assert(r[0] == x);
    } else if x.0 < s[0].0 {
        assert(forall|k: int| 1 <= k < r.len() ==> r[k] == s[k - 1]);
        assert(forall|k: int| 1 <= k < r.len() ==> s.contains(r[k]));
        assert(r[0] == x);
        assert forall|e: (int, Seq<char>)| s.contains(e) implies r.contains(e) by {
            let m = choose|m: int| 0 <= m < s.len() && #[trigger] s[m] == e;
            assert(r[m + 1] == e);
        }
    } else {
        assert(forall|i: int, j: int|
            0 <= i < j < s.skip(1).len() ==> (#[trigger] s.skip(1)[i]).0 <= (
            #[trigger] s.skip(1)[j]).0);
        lemma_insert_pair(x, s.skip(1));
        let r2 = insert_pair(x, s.skip(1));
        assert(r == seq![s[0]] + r2);
        assert(r[0] == s[0]);
        assert(forall|k: int| 1 <= k < r.len() ==> r[k] == r2[k - 1]);
        assert forall|k: int| 0 <= k < r.len() implies (#[trigger] r[k]) == x || s.contains(
            r[k],
        ) by {
            if k == 0 {
                assert(s[0] == s[0] && s.contains(s[0]));
            } else {
                if r2[k - 1] == x {
                } else {
                    let m = choose|m: int|
                        0 <= m < s.skip(1).len() && #[trigger] s.skip(1)[m] == r2[k - 1];
                    assert(s[m + 1] == r2[k - 1]);
                }
            }
        }
        assert forall|i: int, j: int|
            0 <= i < j < r.len() implies (#[trigger] r[i]).0 <= (#[trigger] r[j]).0 by {
            if i == 0 {
                if r[j] == x {
                } else {
                    let m = choose|m: int|
                        0 <= m < s.skip(1).len() && #[trigger] s.skip(1)[m] == r[j];
                    assert(s[0].0 <= s[m + 1].0);
                }
            }
        }
        assert(r.contains(x)) by {
            let m = choose|m: int| 0 <= m < r2.len() && #[trigger] r2[m] == x;
            assert(r[m + 1] == x);
        }
        assert forall|e: (int, Seq<char>)| s.contains(e) implies r.contains(e) by {
            let m = choose|m: int| 0 <= m < s.len() && #[trigger] s[m] == e;
            if m == 0 {
                assert(r[0] == e);
            } else {
                assert(s.skip(1)[m - 1] == e);
                assert(s.skip(1).contains(e));
                assert(r2.contains(e));
                let m2 = choose|m2: int| 0 <= m2 < r2.len() && #[trigger] r2[m2] == e;
                assert(r[m2 + 1] == e);
            }
        }
    }
}

/// Every sorted entry is one of the ranked entries, keys stay sorted.
pub proof fn lemma_sort_pairs(s: Seq<(int, Seq<char>)>)
    ensures
        sorted_pairs(sort_pairs(s)),
        sort_pairs(s).len() == s.len(),
        forall|k: int|
            0 <= k < sort_pairs(s).len() ==> s.contains(#[trigger] sort_pairs(s)[k]),
        forall|e: (int, Seq<char>)| s.contains(e) ==> sort_pairs(s).contains(e),
    decreases s.len(),
{
    if s.len() > 0 {
        lemma_sort_pairs(s.drop_last());
        lemma_insert_pair(s.last(), sort_pairs(s.drop_last()));
        assert forall|e: (int, Seq<char>)| s.contains(e) implies sort_pairs(s).contains(e) by {
            let m = choose|m: int| 0 <= m < s.len() && #[trigger] s[m] == e;
            if m < s.len() - 1 {
                assert(s.drop_last()[m] == e);
                assert(s.drop_last().contains(e));
                assert(sort_pairs(s.drop_last()).contains(e));
            } else {
                assert(e == s.last());
            }
        }
        assert forall|k: int| 0 <= k < sort_pairs(s).len() implies s.contains(
            #[trigger] sort_pairs(s)[k],
        ) by {
            let e = sort_pairs(s)[k];
            if e == s.last() {
                assert(s[s.len() - 1] == e);
            } else {
                assert(sort_pairs(s.drop_last()).contains(e));
                let m = choose|m: int|
                    0 <= m < sort_pairs(s.drop_last()).len() && #[trigger] sort_pairs(
                        s.drop_last(),
                    )[m] == e;
                assert(s.drop_last().contains(e));
                let m2 = choose|m2: int|
                    0 <= m2 < s.drop_last().len() && #[trigger] s.drop_last()[m2] == e;
                assert(s[m2] == e);
            }
        }
    }
}

/// Every ranked entry keeps the filter, carries its distance key, and
/// names one of the raw candidates.
pub proof fn lemma_rank_pairs(scope: Scope, st: SearchType, term: Seq<char>, items: Seq<Seq<char>>)
    ensures
        forall|k: int|
            0 <= k < rank_pairs(scope, st, term, items).len() ==> {
                let e = #[trigger] rank_pairs(scope, st, term, items)[k];
                &&& e.0 == dist_key(term, e.1)
                &&& keep(scope, st, term, e.1)
                &&& items.contains(e.1)
            },
        forall|w: Seq<char>|
            items.contains(w) && keep(scope, st, term, w) ==> rank_pairs(
                scope,
                st,
                term,
                items,
            ).contains((dist_key(term, w), w)),
    decreases items.len(),
{
    if items.len() > 0 {
        lemma_rank_pairs(scope, st, term, items.drop_last());
        let r = rank_pairs(scope, st, term, items);
        let rest = rank_pairs(scope, st, term, items.drop_last());
        assert forall|w: Seq<char>|
            items.contains(w) && keep(scope, st, term, w) implies r.contains(
            (dist_key(term, w), w),
        ) by {
            let m = choose|m: int| 0 <= m < items.len() && #[trigger] items[m] == w;
            if m < items.len() - 1 {
                assert(items.drop_last()[m] == w);
                assert(items.drop_last().contains(w));
                assert(rest.contains((dist_key(term, w), w)));
                let m2 = choose|m2: int|
                    0 <= m2 < rest.len() && #[trigger] rest[m2] == (dist_key(term, w), w);
                assert(r[m2] == (dist_key(term, w), w));
            } else {
                assert(w == items.last());
                assert(r[r.len() - 1] == (dist_key(term, w), w));
            }
        }
        let r = rank_pairs(scope, st, term, items);
        let rest = rank_pairs(scope, st, term, items.drop_last());
        assert forall|k: int|
            0 <= k < r.len() implies {
            let e = #[trigger] r[k];
            &&& e.0 == dist_key(term, e.1)
            &&& keep(scope, st, term, e.1)
            &&& items.contains(e.1)
        } by {
            if k < rest.len() {
                assert(r[k] == rest[k]);
                assert(items.drop_last().contains(rest[k].1));
                let m = choose|m: int|
                    0 <= m < items.drop_last().len() && #[trigger] items.drop_last()[m]
                        == rest[k].1;
                assert(items[m] == rest[k].1);
            } else {
                assert(r[k] == (dist_key(term, items.last()), items.last()));
                assert(items[items.len() - 1] == items.last());
            }
        }
    }
}

/// Inserting an entry with a fresh text keeps the texts pairwise
/// distinct.
proof fn lemma_insert_pair_texts(x: (int, Seq<char>), s: Seq<(int, Seq<char>)>)
    requires
        sorted_pairs(s),
        forall|k: int| 0 <= k < s.len() ==> (#[trigger] s[k]).1 != x.1,
        forall|k1: int, k2: int| 0 <= k1 < k2 < s.len() ==> (#[trigger] s[k1]).1 != (
        #[trigger] s[k2]).1,
    ensures
        forall|k1: int, k2: int|
            0 <= k1 < k2 < insert_pair(x, s).len() ==> (#[trigger] insert_pair(x, s)[k1]).1 != (
            #[trigger] insert_pair(x, s)[k2]).1,
    decreases s.len(),
{
    let r = insert_pair(x, s);
    if s.len() == 0 {
    } else if x.0 < s[0].0 {
        assert(forall|k: int| 1 <= k < r.len() ==> r[k] == s[k - 1]);
    } else {
        assert(forall|k: int| 0 <= k < s.skip(1).len() ==> (#[trigger] s.skip(1)[k]).1 != x.1);
        assert(forall|k1: int, k2: int|
            0 <= k1 < k2 < s.skip(1).len() ==> (#[trigger] s.skip(1)[k1]).1 != (
            #[trigger] s.skip(1)[k2]).1);
        assert(sorted_pairs(s.skip(1))) by {
            assert(forall|i2: int, j2: int|
                0 <= i2 < j2 < s.skip(1).len() ==> (#[trigger] s.skip(1)[i2]).0 <= (
                #[trigger] s.skip(1)[j2]).0);
        }
        lemma_insert_pair_texts(x, s.skip(1));
        lemma_insert_pair(x, s.skip(1));
        let r2 = insert_pair(x, s.skip(1));
        assert(r == seq![s[0]] + r2);
        assert(forall|k: int| 1 <= k < r.len() ==> r[k] == r2[k - 1]);
        assert forall|k1: int, k2: int|
            0 <= k1 < k2 < r.len() implies (#[trigger] r[k1]).1 != (#[trigger] r[k2]).1 by {
            if k1 == 0 {
                // the shifted entry is the fresh one or one of the tail's
                if r2[k2 - 1] == x {
                    assert(s[0].1 != x.1);
                } else {
                    assert(s.skip(1).contains(r2[k2 - 1]));
                    let m = choose|m: int|
                        0 <= m < s.skip(1).len() && #[trigger] s.skip(1)[m] == r2[k2 - 1];
                    assert(s[m + 1] == r2[k2 - 1]);
                    assert(s[0].1 != s[m + 1].1);
                }
            }
        }
    }
}

/// Sorting keeps the texts pairwise distinct.
proof fn lemma_sort_pairs_texts(s: Seq<(int, Seq<char>)>)
    requires
        forall|k1: int, k2: int| 0 <= k1 < k2 < s.len() ==> (#[trigger] s[k1]).1 != (
        #[trigger] s[k2]).1,
    ensures
        forall|k1: int, k2: int|
            0 <= k1 < k2 < sort_pairs(s).len() ==> (#[trigger] sort_pairs(s)[k1]).1 != (
            #[trigger] sort_pairs(s)[k2]).1,
    decreases s.len(),
{
    if s.len() > 0 {
        let dl = s.drop_last();
        assert(forall|k1: int, k2: int|
            0 <= k1 < k2 < dl.len() ==> (#[trigger] dl[k1]).1 != (#[trigger] dl[k2]).1);
        lemma_sort_pairs_texts(dl);
        lemma_sort_pairs(dl);
        assert forall|k: int|
            0 <= k < sort_pairs(dl).len() implies (#[trigger] sort_pairs(dl)[k]).1
            != s.last().1 by {
            assert(dl.contains(sort_pairs(dl)[k]));
            let m = choose|m: int| 0 <= m < dl.len() && #[trigger] dl[m] == sort_pairs(dl)[k];
            assert(s[m].1 != s[s.len() - 1].1);
        }
        lemma_insert_pair_texts(s.last(), sort_pairs(dl));
    }
}

/// Ranking distinct candidates keeps the texts pairwise distinct.
proof fn lemma_rank_pairs_texts(scope: Scope, st: SearchType, term: Seq<char>, items: Seq<Seq<char>>)
    requires
        forall|k1: int, k2: int| 0 <= k1 < k2 < items.len() ==> items[k1] != items[k2],
    ensures
        forall|k1: int, k2: int|
            0 <= k1 < k2 < rank_pairs(scope, st, term, items).len() ==> (#[trigger] rank_pairs(
                scope,
                st,
                term,
                items,
            )[k1]).1 != (#[trigger] rank_pairs(scope, st, term, items)[k2]).1,
    decreases items.len(),
{
    if items.len() > 0 {
        let dl = items.drop_last();
        assert(forall|k1: int, k2: int| 0 <= k1 < k2 < dl.len() ==> dl[k1] != dl[k2]);
        lemma_rank_pairs_texts(scope, st, term, dl);
        lemma_rank_pairs(scope, st, term, dl);
        let rest = rank_pairs(scope, st, term, dl);
        assert forall|k: int| 0 <= k < rest.len() implies (#[trigger] rest[k]).1
            != items.last() by {
            assert(dl.contains(rest[k].1));
            let m = choose|m: int| 0 <= m < dl.len() && #[trigger] dl[m] == rest[k].1;
            assert(items[m] != items[items.len() - 1]);
        }
    }
}

/// The pipeline keeps distinct candidates' texts pairwise distinct.
pub proof fn lemma_pipeline_texts_distinct(
    scope: Scope,
    st: SearchType,
    term: Seq<char>,
    items: Seq<Seq<char>>,
)
    requires
        forall|k1: int, k2: int| 0 <= k1 < k2 < items.len() ==> items[k1] != items[k2],
    ensures
        forall|k1: int, k2: int|
            0 <= k1 < k2 < query_pipeline(scope, st, term, items).len() ==> (
            #[trigger] query_pipeline(scope, st, term, items)[k1]).1 != (#[trigger] query_pipeline(
                scope,
                st,
                term,
                items,
            )[k2]).1,
{
    lemma_rank_pairs_texts(scope, st, term, items);
    lemma_sort_pairs_texts(rank_pairs(scope, st, term, items));
    let sorted = sort_pairs(rank_pairs(scope, st, term, items));
    let q = query_pipeline(scope, st, term, items);
    assert(forall|k: int| 0 <= k < q.len() ==> #[trigger] q[k] == sorted[k]);
}

/// What the pipeline promises of every returned pair, and, when nothing
/// was cut off, that every kept candidate is returned.
pub proof fn lemma_pipeline_props(scope: Scope, st: SearchType, term: Seq<char>, items: Seq<Seq<char>>)
    ensures
        query_pipeline(scope, st, term, items).len() <= 100,
        sorted_pairs(query_pipeline(scope, st, term, items)),
        forall|k: int|
            0 <= k < query_pipeline(scope, st, term, items).len() ==> {
                let e = #[trigger] query_pipeline(scope, st, term, items)[k];
                &&& e.0 == dist_key(term, e.1)
                &&& keep(scope, st, term, e.1)
                &&& items.contains(e.1)
            },
        query_pipeline(scope, st, term, items).len() < 100 ==> forall|w: Seq<char>|
            items.contains(w) && keep(scope, st, term, w) ==> query_pipeline(
                scope,
                st,
                term,
                items,
            ).contains((dist_key(term, w), w)),
{
    let ranked = rank_pairs(scope, st, term, items);
    let sorted = sort_pairs(ranked);
    lemma_rank_pairs(scope, st, term, items);
    lemma_sort_pairs(ranked);
    let q = query_pipeline(scope, st, term, items);
    assert(forall|k: int| 0 <= k < q.len() ==> #[trigger] q[k] == sorted[k]);
    assert forall|k: int|
        0 <= k < q.len() implies {
        let e = #[trigger] q[k];
        &&& e.0 == dist_key(term, e.1)
        &&& keep(scope, st, term, e.1)
        &&& items.contains(e.1)
    } by {
        assert(ranked.contains(sorted[k]));
        let m = choose|m: int| 0 <= m < ranked.len() && #[trigger] ranked[m] == sorted[k];
    }
    if q.len() < 100 {
        assert(q == sorted);
        assert forall|w: Seq<char>|
            items.contains(w) && keep(scope, st, term, w) implies q.contains(
            (dist_key(term, w), w),
        ) by {
            assert(ranked.contains((dist_key(term, w), w)));
            assert(sorted.contains((dist_key(term, w), w)));
        }
    }
}

/// Whether the line-scope filter keeps this candidate.
fn line_keep_exec(st: &SearchType, term: &str, text: &str) -> (r: bool)
    ensures
        r == line_keep(*st, term@, text@),
{
    let ws = unicode_words_vec(text);
    if ws.len() == 0 {
        return false;
    }
    let f = lowercase(ws[0].as_str());
    let l = lowercase(ws[ws.len() - 1].as_str());
    let q = lowercase(term);
    proof {
        assert(ws@[0]@ == words_of(text@)[0]);
        assert(ws@[ws@.len() - 1]@ == words_of(text@)[words_of(text@).len() - 1]);
    }
    match st {
        SearchType::Prefix => str_eq(f.as_str(), q.as_str()),
        SearchType::Suffix => str_eq(l.as_str(), q.as_str()),
        SearchType::Contains => {
            let a = str_eq(f.as_str(), q.as_str());
            let b = str_eq(l.as_str(), q.as_str());
            !a && !b
        },
    }
}

/// Where the new entry goes: after every key not larger than its own.
proof fn lemma_insert_pair_at(x: (int, Seq<char>), s: Seq<(int, Seq<char>)>, pos: int)
    requires
        0 <= pos <= s.len(),
        forall|y: int| 0 <= y < pos ==> (#[trigger] s[y]).0 <= x.0,
        pos < s.len() ==> s[pos].0 > x.0,
    ensures
        insert_pair(x, s) == s.take(pos) + seq![x] + s.skip(pos),
    decreases s.len(),
{
    if s.len() == 0 {
        assert(insert_pair(x, s) =~= s.take(0) + seq![x] + s.skip(0));
    } else if pos == 0 {
        assert(x.0 < s[0].0);
        assert(insert_pair(x, s) =~= s.take(0) + seq![x] + s.skip(0));
    } else {
        assert(s[0].0 <= x.0);
        assert(forall|y: int| 0 <= y < pos - 1 ==> (#[trigger] s.skip(1)[y]).0 <= x.0);
        lemma_insert_pair_at(x, s.skip(1), pos - 1);
        assert(insert_pair(x, s) =~= s.take(pos) + seq![x] + s.skip(pos)) by {
            assert(s.skip(1).take(pos - 1) =~= s.take(pos).skip(1));
            assert(s.skip(1).skip(pos - 1) =~= s.skip(pos));
        }
    }
}

/// Filter the raw candidates, rank the survivors by edit distance, sort
/// stably by the key, and keep at most one hundred.
pub fn filter_rank(scope: &Scope, search_type: &SearchType, term: &str, items: &Vec<String>) -> (r:
    Vec<(usize, String)>)
    ensures
        pairs_view(r@) == query_pipeline(*scope, *search_type, term@, items.deep_view()),
{
    let ghost iv = items.deep_view();
    let mut ranked: Vec<(usize, String)> = Vec::new();
    let mut i: usize = 0;
    proof {
        assert(iv.len() == items@.len());
        assert(pairs_view(ranked@) =~= rank_pairs(*scope, *search_type, term@, iv.take(0)));
    }
    while i < items.len()
        invariant
            iv == items.deep_view(),
            iv.len() == items@.len(),
            i <= items@.len(),
            pairs_view(ranked@) == rank_pairs(*scope, *search_type, term@, iv.take(i as int)),
        decreases items@.len() - i,
    {
        let item = &items[i];
        let kept = match scope {
            Scope::Words => true,
            Scope::Lines => line_keep_exec(search_type, term, item.as_str()),
        };
        let ghost prev = pairs_view(ranked@);
        if kept {
            let d = edit_distance(term, item.as_str());
            ranked.push((d, item.clone()));
            proof {
                assert(pairs_view(ranked@) =~= prev.push((d as int, item@)));
            }
        }
        proof {
            let t1 = iv.take(i + 1);
            assert(t1.drop_last() =~= iv.take(i as int));
            assert(t1.last() == iv[i as int]);
            assert(iv[i as int] == item@);
            assert(pairs_view(ranked@) =~= rank_pairs(*scope, *search_type, term@, t1));
        }
        i = i + 1;
    }
    proof {
        assert(iv.take(iv.len() as int) =~= iv);
    }
    let ghost rankedv = pairs_view(ranked@);
    // stable insertion sort by the ranking key
    let mut out: Vec<(usize, String)> = Vec::new();
    let mut j: usize = 0;
    proof {
        assert(rankedv.take(0) =~= Seq::<(int, Seq<char>)>::empty());
        assert(pairs_view(out@) =~= sort_pairs(rankedv.take(0)));
        lemma_sort_pairs(rankedv.take(0));
    }
    while j < ranked.len()
        invariant
            rankedv == pairs_view(ranked@),
            rankedv.len() == ranked@.len(),
            j <= ranked@.len(),
            pairs_view(out@) == sort_pairs(rankedv.take(j as int)),
            sorted_pairs(pairs_view(out@)),
            out@.len() == j,
        decreases ranked@.len() - j,
    {
        let x = (ranked[j].0, ranked[j].1.clone());
        let ghost xv = (x.0 as int, x.1@);
        proof {
            assert(xv == rankedv[j as int]);
        }
        let mut pos: usize = 0;
        while pos < out.len() && out[pos].0 <= x.0
            invariant
                pos <= out@.len(),
                forall|y: int| 0 <= y < pos ==> (#[trigger] pairs_view(out@)[y]).0 <= xv.0,
                xv.0 == x.0 as int,
            decreases out@.len() - pos,
        {
            proof {
                assert(pairs_view(out@)[pos as int].0 == out@[pos as int].0 as int);
            }
            pos = pos + 1;
        }
        let ghost outv = pairs_view(out@);
        proof {
            if pos < out@.len() {
                assert(outv[pos as int].0 == out@[pos as int].0 as int);
                assert(outv[pos as int].0 > xv.0);
            }
            lemma_insert_pair_at(xv, outv, pos as int);
        }
        out.insert(pos, x);
        proof {
            assert(pairs_view(out@) =~= outv.take(pos as int) + seq![xv] + outv.skip(pos as int));
            assert(pairs_view(out@) == insert_pair(xv, outv));
            let t1 = rankedv.take(j + 1);
            assert(t1.drop_last() =~= rankedv.take(j as int));
            assert(t1.last() == rankedv[j as int]);
            assert(pairs_view(out@) == sort_pairs(t1));
            assert(forall|i2: int, j2: int|
                0 <= i2 < j2 < outv.len() ==> (#[trigger] outv[i2]).0 <= (#[trigger] outv[j2]).0);
            lemma_insert_pair(xv, outv);
        }
        j = j + 1;
    }
    proof {
        assert(rankedv.take(rankedv.len() as int) =~= rankedv);
    }
    // keep at most one hundred
    if out.len() > 100 {
        let mut trunc: Vec<(usize, String)> = Vec::new();
        let mut k: usize = 0;
        let ghost fullv = pairs_view(out@);
        proof {
            assert(pairs_view(trunc@) =~= fullv.take(0));
        }
        while k < 100
            invariant
                k <= 100,
                fullv == pairs_view(out@),
                fullv.len() > 100,
                out@.len() == fullv.len(),
                pairs_view(trunc@) == fullv.take(k as int),
            decreases 100 - k,
        {
            let e = (out[k].0, out[k].1.clone());
            proof {
                assert((e.0 as int, e.1@) == fullv[k as int]);
            }
            let ghost prev = pairs_view(trunc@);
            trunc.push(e);
            proof {
                assert(pairs_view(trunc@) =~= prev.push(fullv[k as int]));
                assert(pairs_view(trunc@) =~= fullv.take(k + 1));
            }
            k = k + 1;
        }
        return trunc;
    }
    out
}

/// Run one query against the bytes of its artifact: decode the structure,
/// run its raw search, filter by scope, rank by edit distance, sort and
/// truncate. A missing or undecodable artifact, or an empty raw result,
/// yields an empty list and a diagnostic event.
pub fn perform_search<S: DebugSink>(
    scope: &Scope,
    search_type: &SearchType,
    term: &str,
    contents: &Option<Vec<u8>>,
    sink: &mut S,
) -> (r: Vec<(usize, String)>)
    ensures
        r@.len() <= 100,
        sorted_pairs(pairs_view(r@)),
        forall|k: int| 0 <= k < r@.len() ==> (#[trigger] r@[k]).0 == dist_key(term@, r@[k].1@),
        *scope is Lines ==> forall|k: int|
            0 <= k < r@.len() ==> line_keep(*search_type, term@, (#[trigger] r@[k]).1@),
        contents is None ==> r@.len() == 0,
        *search_type is Prefix && (contents matches Some(c) ==> forall|ws: Seq<Seq<char>>|
            c@ == #[trigger] enc_token_list(ws) ==> forall|k: int|
                0 <= k < r@.len() ==> ws.contains((#[trigger] r@[k]).1@) && is_prefix_of(
                    term@,
                    r@[k].1@,
                )) || !(*search_type is Prefix),
        *search_type is Suffix && (contents matches Some(c) ==> forall|
            st2: SearchScopeSuffix,
            es: Seq<Option<Seq<char>>>,
        |
            (c@ == #[trigger] enc_suffix_art(st2, es) && (st2 == SearchScopeSuffix::Lines
                ==> forall|x: int| 0 <= x < es.len() ==> (#[trigger] es[x]) is Some))
                ==> forall|k: int|
                0 <= k < r@.len() ==> cand_list(
                    replay_children(st2, es, es.len() as int),
                    replay_meta(es, es.len() as int),
                    term@,
                ).contains((#[trigger] r@[k]).1@)) || !(*search_type is Suffix),
        *search_type is Contains && (contents matches Some(c) ==> forall|
            st2: SearchScope,
            ws: Seq<Seq<char>>,
        |
            c@ == #[trigger] enc_ngram(st2, ws) ==> forall|k: int|
                0 <= k < r@.len() ==> ws.contains((#[trigger] r@[k]).1@) && interior_match(
                    r@[k].1@,
                    term@,
                )) || !(*search_type is Contains),
        *search_type is Prefix && (contents matches Some(c) ==> forall|ws: Seq<Seq<char>>|
            c@ == #[trigger] enc_token_list(ws) && r@.len() < 100 ==> forall|w: Seq<char>|
                ws.contains(w) && is_prefix_of(term@, w) && keep(*scope, *search_type, term@, w)
                    ==> exists|k: int|
                    0 <= k < r@.len() && (#[trigger] r@[k]).1@ == w) || !(*search_type
            is Prefix),
        *search_type is Suffix && (contents matches Some(c) ==> forall|
            st2: SearchScopeSuffix,
            es: Seq<Option<Seq<char>>>,
        |
            (c@ == #[trigger] enc_suffix_art(st2, es) && (st2 == SearchScopeSuffix::Lines
                ==> forall|x: int| 0 <= x < es.len() ==> (#[trigger] es[x]) is Some) && r@.len()
                < 100) ==> forall|w: Seq<char>|
                cand_list(
                    replay_children(st2, es, es.len() as int),
                    replay_meta(es, es.len() as int),
                    term@,
                ).contains(w) && keep(*scope, *search_type, term@, w) ==> exists|k: int|
                    0 <= k < r@.len() && (#[trigger] r@[k]).1@ == w) || !(*search_type
            is Suffix),
        *search_type is Contains && (contents matches Some(c) ==> forall|
            st2: SearchScope,
            ws: Seq<Seq<char>>,
        |
            c@ == #[trigger] enc_ngram(st2, ws) && r@.len() < 100 ==> forall|w: Seq<char>|
                candidate_in(st2, ngram_replay_grams(st2, ws, ws.len() as int), ws, term@, w)
                    && keep(*scope, *search_type, term@, w) ==> exists|k: int|
                    0 <= k < r@.len() && (#[trigger] r@[k]).1@ == w) || !(*search_type
            is Contains),
        *search_type is Prefix && (contents matches Some(c) ==> ((forall|ws: Seq<Seq<char>>|
            c@ != #[trigger] enc_token_list(ws)) ==> r@.len() == 0)) || !(*search_type
            is Prefix),
        *search_type is Prefix ==> forall|k1: int, k2: int|
            0 <= k1 < k2 < r@.len() ==> (#[trigger] r@[k1]).1@ != (#[trigger] r@[k2]).1@,
        *search_type is Suffix && (contents matches Some(c) ==> ((forall|
            st2: SearchScopeSuffix,
            es: Seq<Option<Seq<char>>>,
        |
            !(c@ == #[trigger] enc_suffix_art(st2, es) && (st2 == SearchScopeSuffix::Lines
                ==> forall|x: int| 0 <= x < es.len() ==> (#[trigger] es[x]) is Some)))
            ==> r@.len() == 0)) || !(*search_type is Suffix),
        *search_type is Contains && (contents matches Some(c) ==> ((forall|
            st2: SearchScope,
            ws: Seq<Seq<char>>,
        |
            c@ != #[trigger] enc_ngram(st2, ws)) ==> r@.len() == 0)) || !(*search_type
            is Contains),
{
    broadcast use vstd::seq_lib::group_to_multiset_ensures;

    let c: &Vec<u8> = match contents {
        Option::Some(c) => c,
        Option::None => {
            sink.emit(AppMessage::Debug("failed to read the artifact".to_owned()));
            let r: Vec<(usize, String)> = Vec::new();
            proof {
                assert(pairs_view(r@) =~= Seq::<(int, Seq<char>)>::empty());
            }
            return r;
        },
    };
    let raws: Vec<String> = match search_type {
        SearchType::Prefix => {
            match decode_trie(c) {
                Result::Ok(t) => {
                    sink.emit(AppMessage::Debug("TRIE decoded successfully".to_owned()));
                    match t.search(term.to_owned()) {
                        Result::Ok(v) => {
                            proof {
                                assert(crate::trie::trie_search_post(t, term@, v.deep_view()));
                                assert(forall|k1: int, k2: int|
                                    0 <= k1 < k2 < v.deep_view().len() ==> (
                                    #[trigger] v.deep_view()[k1]) != (
                                    #[trigger] v.deep_view()[k2]));
                                assert forall|ws: Seq<Seq<char>>|
                                    c@ == #[trigger] enc_token_list(ws) implies (forall|
                                    w: Seq<char>,
                                |
                                    ws.contains(w) && is_prefix_of(term@, w)
                                        ==> v.deep_view().contains(w)) by {
                                    assert(forall|w: Seq<char>|
                                        t.contains_token(w) <==> ws.contains(w));
                                }
                            }
                            v
                        },
                        Result::Err(_) => {
                            sink.emit(
                                AppMessage::Debug("no stored token extends the term".to_owned()),
                            );
                            let r: Vec<(usize, String)> = Vec::new();
                            proof {
                                assert(pairs_view(r@) =~= Seq::<(int, Seq<char>)>::empty());
                                assert forall|ws: Seq<Seq<char>>|
                                    c@ == #[trigger] enc_token_list(ws) implies (forall|
                                    w: Seq<char>,
                                |
                                    !(ws.contains(w) && is_prefix_of(term@, w))) by {
                                    assert forall|w: Seq<char>|
                                        !(ws.contains(w) && is_prefix_of(term@, w)) by {
                                        if ws.contains(w) && is_prefix_of(term@, w) {
                                            assert(t.contains_token(w));
                                            assert(crate::trie::trie_has_prefix_match(t, term@));
                                        }
                                    }
                                }
                            }
                            return r;
                        },
                    }
                },
                Result::Err(_) => {
                    sink.emit(AppMessage::Debug("failed to decode the artifact".to_owned()));
                    let r: Vec<(usize, String)> = Vec::new();
                    proof {
                        assert(pairs_view(r@) =~= Seq::<(int, Seq<char>)>::empty());
                        assert(forall|ws: Seq<Seq<char>>| c@ != #[trigger] enc_token_list(ws));
                    }
                    return r;
                },
            }
        },
        SearchType::Suffix => {
            match decode_suffix(c) {
                Result::Ok(t) => {
                    sink.emit(AppMessage::Debug("SUFFIX decoded successfully".to_owned()));
                    match t.search(term) {
                        Result::Ok(v) => {
                            let mut owned: Vec<String> = Vec::new();
                            let mut i: usize = 0;
                            while i < v.len()
                                invariant
                                    i <= v@.len(),
                                    owned.deep_view() == v.deep_view().take(i as int),
                                decreases v@.len() - i,
                            {
                                let ghost prev = owned.deep_view();
                                owned.push(v[i].to_owned());
                                proof {
                                    assert(owned.deep_view() =~= prev.push(v@[i as int]@));
                                    assert(v.deep_view()[i as int] == v@[i as int]@);
                                    assert(owned.deep_view() =~= v.deep_view().take(i + 1));
                                }
                                i = i + 1;
                            }
                            proof {
                                broadcast use vstd::seq_lib::group_to_multiset_ensures;

                                assert(v.deep_view().take(v.deep_view().len() as int)
                                    =~= v.deep_view());
                                assert(owned.deep_view() == v.deep_view());
                                let cl = cand_list(t.root_abs(), t.meta_abs(), term@);
                                assert(v.deep_view().to_multiset() == cl.to_multiset());
                                assert forall|w: Seq<char>|
                                    owned.deep_view().contains(w) implies cl.contains(w) by {
                                    vstd::seq_lib::to_multiset_contains::<Seq<char>>(
                                        v.deep_view(),
                                        w,
                                    );
                                    vstd::seq_lib::to_multiset_contains::<Seq<char>>(cl, w);
                                }
                                assert forall|w: Seq<char>|
                                    cl.contains(w) implies owned.deep_view().contains(w) by {
                                    vstd::seq_lib::to_multiset_contains::<Seq<char>>(
                                        v.deep_view(),
                                        w,
                                    );
                                    vstd::seq_lib::to_multiset_contains::<Seq<char>>(cl, w);
                                }
                                assert forall|st2: SearchScopeSuffix, es: Seq<Option<Seq<char>>>|
                                    (c@ == #[trigger] enc_suffix_art(st2, es) && (st2
                                        == SearchScopeSuffix::Lines ==> forall|x: int|
                                        0 <= x < es.len() ==> (#[trigger] es[x]) is Some)) implies (
                                forall|w: Seq<char>|
                                    owned.deep_view().contains(w) <==> cand_list(
                                        replay_children(st2, es, es.len() as int),
                                        replay_meta(es, es.len() as int),
                                        term@,
                                    ).contains(w)) by {
                                    assert(t.root_abs() == replay_children(
                                        st2,
                                        es,
                                        es.len() as int,
                                    ));
                                    assert(t.meta_abs() == replay_meta(es, es.len() as int));
                                }
                            }
                            owned
                        },
                        Result::Err(_) => {
                            sink.emit(AppMessage::Debug("No results found".to_owned()));
                            let r: Vec<(usize, String)> = Vec::new();
                            proof {
                                assert(pairs_view(r@) =~= Seq::<(int, Seq<char>)>::empty());
                                assert(cand_list(t.root_abs(), t.meta_abs(), term@).len() == 0);
                                assert forall|st2: SearchScopeSuffix, es: Seq<Option<Seq<char>>>|
                                    (c@ == #[trigger] enc_suffix_art(st2, es) && (st2
                                        == SearchScopeSuffix::Lines ==> forall|x: int|
                                        0 <= x < es.len() ==> (#[trigger] es[x]) is Some)) implies (
                                forall|w: Seq<char>|
                                    !cand_list(
                                        replay_children(st2, es, es.len() as int),
                                        replay_meta(es, es.len() as int),
                                        term@,
                                    ).contains(w)) by {
                                    assert(t.root_abs() == replay_children(
                                        st2,
                                        es,
                                        es.len() as int,
                                    ));
                                    assert(t.meta_abs() == replay_meta(es, es.len() as int));
                                }
                            }
                            return r;
                        },
                    }
                },
                Result::Err(_) => {
                    sink.emit(AppMessage::Debug("failed to decode the artifact".to_owned()));
                    let r: Vec<(usize, String)> = Vec::new();
                    proof {
                        assert(pairs_view(r@) =~= Seq::<(int, Seq<char>)>::empty());
                        assert forall|st2: SearchScopeSuffix, es: Seq<Option<Seq<char>>>|
                            !(c@ == #[trigger] enc_suffix_art(st2, es) && (st2
                                == SearchScopeSuffix::Lines ==> forall|x: int|
                                0 <= x < es.len() ==> (#[trigger] es[x]) is Some)) by {
                        }
                    }
                    return r;
                },
            }
        },
        SearchType::Contains => {
            match decode_ngram(c) {
                Result::Ok(t) => {
                    sink.emit(AppMessage::Debug("NGRAM decoded successfully".to_owned()));
                    match t.search(term.to_owned()) {
                        Result::Ok(ov) => {
                            match ov {
                                Option::Some(v) => {
                                    proof {
                                        assert(crate::ngram::ngram_search_post(
                                            t,
                                            term@,
                                            v.deep_view(),
                                        ));
                                        assert forall|w: Seq<char>|
                                            v.deep_view().contains(w) implies t.words_abs(
                                        ).contains(w) && interior_match(w, term@) by {
                                            let x = choose|x: int|
                                                0 <= x < v.deep_view().len() && v.deep_view()[x]
                                                    == w;
                                            assert(t.candidate(term@, v.deep_view()[x]));
                                            lemma_candidate_stored(t, term@, w);
                                            lemma_candidate_interior(t, term@, w);
                                        }
                                        assert forall|st2: SearchScope, ws: Seq<Seq<char>>|
                                            c@ == #[trigger] enc_ngram(st2, ws) implies (forall|
                                            w: Seq<char>,
                                        |
                                            v.deep_view().contains(w) ==> ws.contains(w)
                                                && interior_match(w, term@)) by {
                                            assert(t.words_abs() == ws);
                                        }
                                        assert forall|st2: SearchScope, ws: Seq<Seq<char>>|
                                            c@ == #[trigger] enc_ngram(st2, ws) implies (forall|
                                            w: Seq<char>,
                                        |
                                            candidate_in(
                                                st2,
                                                ngram_replay_grams(st2, ws, ws.len() as int),
                                                ws,
                                                term@,
                                                w,
                                            ) ==> v.deep_view().contains(w)) by {
                                            assert(t.regime() == st2);
                                            assert(t.words_abs() == ws);
                                            assert(t.grams_abs() == ngram_replay_grams(
                                                st2,
                                                ws,
                                                ws.len() as int,
                                            ));
                                            assert forall|w: Seq<char>|
                                                candidate_in(
                                                    st2,
                                                    ngram_replay_grams(st2, ws, ws.len() as int),
                                                    ws,
                                                    term@,
                                                    w,
                                                ) implies v.deep_view().contains(w) by {
                                                lemma_candidate_abs(t, term@, w);
                                                assert(t.candidate(term@, w));
                                            }
                                        }
                                    }
                                    v
                                },
                                Option::None => {
                                    // the search never pairs success with
                                    // an absent list
                                    proof {
                                        assert(false);
                                    }
                                    let r: Vec<(usize, String)> = Vec::new();
                                    return r;
                                },
                            }
                        },
                        Result::Err(_) => {
                            sink.emit(AppMessage::Debug("couldn't find a match mate".to_owned()));
                            let r: Vec<(usize, String)> = Vec::new();
                            proof {
                                assert(pairs_view(r@) =~= Seq::<(int, Seq<char>)>::empty());
                                assert forall|st2: SearchScope, ws: Seq<Seq<char>>|
                                    c@ == #[trigger] enc_ngram(st2, ws) implies (forall|
                                    w: Seq<char>,
                                |
                                    !candidate_in(
                                        st2,
                                        ngram_replay_grams(st2, ws, ws.len() as int),
                                        ws,
                                        term@,
                                        w,
                                    )) by {
                                    assert(t.regime() == st2);
                                    assert(t.words_abs() == ws);
                                    assert(t.grams_abs() == ngram_replay_grams(
                                        st2,
                                        ws,
                                        ws.len() as int,
                                    ));
                                    assert forall|w: Seq<char>|
                                        !candidate_in(
                                            st2,
                                            ngram_replay_grams(st2, ws, ws.len() as int),
                                            ws,
                                            term@,
                                            w,
                                        ) by {
                                        if candidate_in(
                                            st2,
                                            ngram_replay_grams(st2, ws, ws.len() as int),
                                            ws,
                                            term@,
                                            w,
                                        ) {
                                            lemma_candidate_abs(t, term@, w);
                                            assert(t.candidate(term@, w));
                                        }
                                    }
                                }
                            }
                            return r;
                        },
                    }
                },
                Result::Err(_) => {
                    sink.emit(AppMessage::Debug("failed to decode the artifact".to_owned()));
                    let r: Vec<(usize, String)> = Vec::new();
                    proof {
                        assert(pairs_view(r@) =~= Seq::<(int, Seq<char>)>::empty());
                        assert(forall|st2: SearchScope, ws: Seq<Seq<char>>|
                            c@ != #[trigger] enc_ngram(st2, ws));
                    }
                    return r;
                },
            }
        },
    };
    let out = filter_rank(scope, search_type, term, &raws);
    sink.emit(AppMessage::Debug("search finished".to_owned()));
    proof {
        lemma_pipeline_props(*scope, *search_type, term@, raws.deep_view());
        let q = query_pipeline(*scope, *search_type, term@, raws.deep_view());
        assert(pairs_view(out@) == q);
        assert(out@.len() == q.len());
        assert forall|k: int|
            0 <= k < out@.len() implies (#[trigger] out@[k]).0 as int == dist_key(
            term@,
            out@[k].1@,
        ) && keep(*scope, *search_type, term@, out@[k].1@) && raws.deep_view().contains(
            out@[k].1@,
        ) by {
            assert(q[k] == (out@[k].0 as int, out@[k].1@));
        }
        if *search_type is Prefix {
            // prefix raws list each token once, and the pipeline keeps
            // texts distinct
            assert(forall|k1: int, k2: int|
                0 <= k1 < k2 < raws.deep_view().len() ==> (#[trigger] raws.deep_view()[k1]) != (
                #[trigger] raws.deep_view()[k2]));
            lemma_pipeline_texts_distinct(*scope, *search_type, term@, raws.deep_view());
            assert forall|k1: int, k2: int|
                0 <= k1 < k2 < out@.len() implies (#[trigger] out@[k1]).1@ != (
            #[trigger] out@[k2]).1@ by {
                assert(q[k1] == (out@[k1].0 as int, out@[k1].1@));
                assert(q[k2] == (out@[k2].0 as int, out@[k2].1@));
            }
        }
        if out@.len() < 100 {
            assert forall|w: Seq<char>|
                raws.deep_view().contains(w) && keep(*scope, *search_type, term@, w) implies
                exists|k: int| 0 <= k < out@.len() && (#[trigger] out@[k]).1@ == w by {
                assert(q.contains((dist_key(term@, w), w)));
                let m = choose|m: int|
                    0 <= m < q.len() && #[trigger] q[m] == (dist_key(term@, w), w);
                assert(out@[m].1@ == w);
            }
            if *search_type is Contains {
                assert forall|st2: SearchScope, ws: Seq<Seq<char>>|
                    c@ == #[trigger] enc_ngram(st2, ws) implies (forall|w: Seq<char>|
                    candidate_in(st2, ngram_replay_grams(st2, ws, ws.len() as int), ws, term@, w)
                        && keep(*scope, *search_type, term@, w) ==> exists|k: int|
                        0 <= k < out@.len() && (#[trigger] out@[k]).1@ == w) by {
                    assert forall|w: Seq<char>|
                        candidate_in(
                            st2,
                            ngram_replay_grams(st2, ws, ws.len() as int),
                            ws,
                            term@,
                            w,
                        ) && keep(*scope, *search_type, term@, w) implies exists|k: int|
                        0 <= k < out@.len() && (#[trigger] out@[k]).1@ == w by {
                        assert(raws.deep_view().contains(w));
                    }
                }
            }
        }
    }
    out
}

} // verus!
