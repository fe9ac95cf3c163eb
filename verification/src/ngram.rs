//! N-gram posting index: every stored token is cut into fixed-width unit
//! windows (grapheme windows for word tokens, word windows for line
//! tokens), and each window maps to the ordinals of the tokens that
//! produced it. A search returns tokens holding the term strictly in
//! their interior.
use vstd::prelude::*;
use crate::segment::{words_of, graphemes_of, unicode_words_vec, graphemes_vec};
use crate::strutil::{is_prefix_of, is_suffix_of, contains_seq, chars_of, chars_start_with,
    chars_end_with, chars_contain, str_eq};

verus! {

/// The unit a stored token is cut into.
#[derive(Clone, Copy, Debug)]
pub enum SearchScope {
    Words,
    Lines,
}

/// Posting index from unit windows to token ordinals.
pub struct NGramIndex {
    grams: Vec<(Vec<String>, Vec<usize>)>,
    words: Vec<String>,
    gram_size: usize,
    pub search_type: SearchScope,
}

/// The unit sequence a token is windowed into under a regime.
pub open spec fn gram_units(st: SearchScope, key: Seq<char>) -> Seq<Seq<char>> {
    match st {
        SearchScope::Words => graphemes_of(key),
        SearchScope::Lines => words_of(key),
    }
}

/// The window key starting at unit `i`: word regime joins the units into
/// one string, line regime keeps them apart.
pub open spec fn gram_key_at(st: SearchScope, units: Seq<Seq<char>>, i: int, g: int) -> Seq<
    Seq<char>,
> {
    match st {
        SearchScope::Words => seq![units.subrange(i, i + g).flatten()],
        SearchScope::Lines => units.subrange(i, i + g),
    }
}

/// The first position holding the window key `k`, or one past the end.
pub open spec fn gram_find(grams: Seq<(Seq<Seq<char>>, Seq<int>)>, k: Seq<Seq<char>>) -> int
    decreases grams.len(),
{
    if grams.len() == 0 {
        0
    } else if grams[0].0 == k {
        0
    } else {
        1 + gram_find(grams.skip(1), k)
    }
}

/// `gram_find` names the first slot with the key, or the length.
pub proof fn lemma_gram_find(grams: Seq<(Seq<Seq<char>>, Seq<int>)>, k: Seq<Seq<char>>)
    ensures
        0 <= gram_find(grams, k) <= grams.len(),
        gram_find(grams, k) < grams.len() ==> grams[gram_find(grams, k)].0 == k,
        forall|j: int| 0 <= j < gram_find(grams, k) ==> (#[trigger] grams[j]).0 != k,
    decreases grams.len(),
{
    if grams.len() > 0 && grams[0].0 != k {
        lemma_gram_find(grams.skip(1), k);
        assert(forall|j: int| 1 <= j < grams.len() ==> grams[j] == grams.skip(1)[j - 1]);
    }
}

/// Extend the posting list of `k` with `ord`, or open a new one.
pub open spec fn grams_put(
    grams: Seq<(Seq<Seq<char>>, Seq<int>)>,
    k: Seq<Seq<char>>,
    ord: int,
) -> Seq<(Seq<Seq<char>>, Seq<int>)> {
    let j = gram_find(grams, k);
    if j < grams.len() {
        grams.update(j, (k, grams[j].1.push(ord)))
    } else {
        grams.push((k, seq![ord]))
    }
}

/// Fold of `grams_put` over the window starts in `[i, stop)`, skipping
/// the starts whose window would run past the end.
pub open spec fn store_grams_from(
    grams: Seq<(Seq<Seq<char>>, Seq<int>)>,
    st: SearchScope,
    units: Seq<Seq<char>>,
    i: int,
    stop: int,
    g: int,
    ord: int,
) -> Seq<(Seq<Seq<char>>, Seq<int>)>
    decreases stop - i,
{
    if i >= stop {
        grams
    } else {
        let g2 = if i + g <= units.len() {
            grams_put(grams, gram_key_at(st, units, i, g), ord)
        } else {
            grams
        };
        store_grams_from(g2, st, units, i + 1, stop, g, ord)
    }
}

/// A window key matches the term: word regime when some element holds the
/// term as a substring, line regime when some element is the term.
pub open spec fn gram_hit(st: SearchScope, k: Seq<Seq<char>>, term: Seq<char>) -> bool {
    match st {
        SearchScope::Words => exists|x: int|
            0 <= x < k.len() && contains_seq(#[trigger] k[x], term),
        SearchScope::Lines => exists|x: int| 0 <= x < k.len() && #[trigger] k[x] == term,
    }
}

/// The term sits strictly inside `w`: contained, but neither a prefix nor
/// a suffix.
pub open spec fn interior_match(w: Seq<char>, term: Seq<char>) -> bool {
    !is_prefix_of(term, w) && !is_suffix_of(term, w) && contains_seq(w, term)
}

/// `w` is a token some matching window of the table posts, with the term
/// strictly interior.
pub open spec fn candidate_in(
    st: SearchScope,
    grams: Seq<(Seq<Seq<char>>, Seq<int>)>,
    words: Seq<Seq<char>>,
    term: Seq<char>,
    w: Seq<char>,
) -> bool {
    exists|j: int, p: int|
        0 <= j < grams.len() && gram_hit(st, grams[j].0, term) && 0 <= p < grams[j].1.len() && 0
            <= (#[trigger] grams[j].1[p]) < words.len() && words[grams[j].1[p]] == w
            && interior_match(w, term)
}

/// The posting lists after storing the first `upto` tokens in order into
/// a fresh index with windows of two units.
pub open spec fn ngram_replay_grams(st: SearchScope, ws: Seq<Seq<char>>, upto: int) -> Seq<
    (Seq<Seq<char>>, Seq<int>),
>
    decreases upto,
{
    if upto <= 0 {
        Seq::empty()
    } else {
        store_grams_from(
            ngram_replay_grams(st, ws, upto - 1),
            st,
            gram_units(st, ws[upto - 1]),
            1,
            gram_units(st, ws[upto - 1]).len() as int,
            2,
            upto - 1,
        )
    }
}

/// The replayed lists differ only through the tokens already stored.
pub proof fn lemma_replay_grams_prefix(
    st: SearchScope,
    a: Seq<Seq<char>>,
    b: Seq<Seq<char>>,
    n: int,
)
    requires
        n <= a.len(),
        n <= b.len(),
        forall|i: int| 0 <= i < n ==> a[i] == b[i],
    ensures
        ngram_replay_grams(st, a, n) == ngram_replay_grams(st, b, n),
    decreases n,
{
    if n > 0 {
        lemma_replay_grams_prefix(st, a, b, n - 1);
    }
}

impl NGramIndex {
    /// The stored tokens, by ordinal.
    pub closed spec fn words_abs(self) -> Seq<Seq<char>> {
        self.words.deep_view()
    }

    /// The window keys with their posting lists.
    pub closed spec fn grams_abs(self) -> Seq<(Seq<Seq<char>>, Seq<int>)> {
        self.grams@.map(|i: int, e: (Vec<String>, Vec<usize>)|
            (e.0.deep_view(), e.1@.map(|j: int, v: usize| v as int)))
    }

    /// The configured window width.
    pub closed spec fn gram_width(self) -> int {
        self.gram_size as int
    }

    /// The regime the index cuts tokens under.
    pub closed spec fn regime(self) -> SearchScope {
        self.search_type
    }

    /// Window keys are distinct and every posted ordinal points at a
    /// stored token.
    pub closed spec fn wf(self) -> bool {
        &&& self.gram_size >= 1
        &&& (forall|i: int, j: int|
            0 <= i < j < self.grams_abs().len() ==> (#[trigger] self.grams_abs()[i]).0 != (
            #[trigger] self.grams_abs()[j]).0)
        &&& (forall|i: int, p: int|
            0 <= i < self.grams_abs().len() && 0 <= p < self.grams_abs()[i].1.len() ==> 0 <= (
            #[trigger] self.grams_abs()[i].1[p]) < self.words_abs().len())
    }

    /// `w` is a token some matching window posts, with the term strictly
    /// interior.
    pub closed spec fn candidate(self, term: Seq<char>, w: Seq<char>) -> bool {
        candidate_in(self.search_type, self.grams_abs(), self.words_abs(), term, w)
    }

    /// The posting table is exactly the replay of the stored tokens: the
    /// state every index built through `new`, `set_regime` and `store`
    /// keeps, and the state decoding always rebuilds, so decoding an
    /// encoded index restores its observable state.
    pub closed spec fn canonical(self) -> bool {
        &&& self.gram_width() == 2
        &&& self.grams_abs() == ngram_replay_grams(
            self.regime(),
            self.words_abs(),
            self.words_abs().len() as int,
        )
    }

    /// An empty index over word units with windows of two units.
    pub fn new() -> (r: Self)
        ensures
            r.wf(),
            r.canonical(),
            r.regime() == SearchScope::Words,
            r.gram_width() == 2,
            r.words_abs() == Seq::<Seq<char>>::empty(),
            r.grams_abs() == Seq::<(Seq<Seq<char>>, Seq<int>)>::empty(),
    {
        let r = NGramIndex {
            grams: Vec::new(),
            words: Vec::new(),
            gram_size: 2,
            search_type: SearchScope::Words,
        };
        proof {
            assert(r.words_abs() =~= Seq::<Seq<char>>::empty());
            assert(r.grams_abs() =~= Seq::<(Seq<Seq<char>>, Seq<int>)>::empty());
            assert(r.canonical());
        }
        r
    }

    /// The regime tokens are cut under.
    pub fn regime_of(&self) -> (r: SearchScope)
        ensures
            r == self.regime(),
    {
        match self.search_type {
            SearchScope::Words => SearchScope::Words,
            SearchScope::Lines => SearchScope::Lines,
        }
    }

    /// Switch the regime tokens are cut under.
    pub fn set_regime(&mut self, st: SearchScope)
        requires
            old(self).wf(),
        ensures
            final(self).wf(),
            final(self).regime() == st,
            final(self).gram_width() == old(self).gram_width(),
            final(self).words_abs() == old(self).words_abs(),
            final(self).grams_abs() == old(self).grams_abs(),
            old(self).canonical() && old(self).words_abs().len() == 0 ==> final(self).canonical(),
    {
        self.search_type = st;
        proof {
            assert(self.words_abs() =~= old(self).words_abs());
            assert(self.grams_abs() =~~= old(self).grams_abs());
        }
    }

    /// The stored tokens, by ordinal.
    pub fn tokens(&self) -> (r: &Vec<String>)
        ensures
            r.deep_view() == self.words_abs(),
    {
        &self.words
    }

    /// Cut `key` into unit windows, post the new ordinal under each
    /// window, and append the token.
    pub fn store(&mut self, key: String)
        requires
            old(self).wf(),
            old(self).words_abs().len() < usize::MAX,
        ensures
            final(self).wf(),
            final(self).regime() == old(self).regime(),
            final(self).gram_width() == old(self).gram_width(),
            final(self).words_abs() == old(self).words_abs().push(key@),
            final(self).grams_abs() == store_grams_from(
                old(self).grams_abs(),
                old(self).regime(),
                gram_units(old(self).regime(), key@),
                old(self).gram_width() - 1,
                gram_units(old(self).regime(), key@).len() as int,
                old(self).gram_width(),
                old(self).words_abs().len() as int,
            ),
            old(self).canonical() ==> final(self).canonical(),
    {
        let units: Vec<String> = match self.search_type {
            SearchScope::Words => graphemes_vec(key.as_str()),
            SearchScope::Lines => unicode_words_vec(key.as_str()),
        };
        let ghost st = self.search_type;
        let ghost units_v = units.deep_view();
        let ghost grams0 = self.grams_abs();
        let ghost g = self.gram_size as int;
        let ord = self.words.len();
        let stop = units.len();
        let mut index: usize = self.gram_size - 1;
        proof {
            assert(store_grams_from(grams0, st, units_v, g - 1, stop as int, g, ord as int)
                == store_grams_from(
                self.grams_abs(),
                st,
                units_v,
                index as int,
                stop as int,
                g,
                ord as int,
            ));
        }
        while index < stop
            invariant
                self.wf_except(ord as int),
                self.gram_size as int == g,
                g >= 1,
                self.search_type == st,
                self.words@ == old(self).words@,
                ord == self.words@.len(),
                units_v == units.deep_view(),
                stop == units_v.len(),
                store_grams_from(grams0, st, units_v, g - 1, stop as int, g, ord as int)
                    == store_grams_from(
                    self.grams_abs(),
                    st,
                    units_v,
                    index as int,
                    stop as int,
                    g,
                    ord as int,
                ),
            decreases stop - index,
        {
            let ghost pre = self.grams_abs();
            if self.gram_size <= stop - index {
                // the window fits: build its key
                let k = self.window_key(&units, index);
                self.post_ordinal(k, ord);
                proof {
                    assert(index as int + g <= units_v.len());
                    assert(self.grams_abs() == grams_put(
                        pre,
                        gram_key_at(st, units_v, index as int, g),
                        ord as int,
                    ));
                }
            } else {
                proof {
                    assert(!(index as int + g <= units_v.len()));
                }
            }
            proof {
                assert(store_grams_from(pre, st, units_v, index as int, stop as int, g, ord as int)
                    == store_grams_from(
                    self.grams_abs(),
                    st,
                    units_v,
                    index as int + 1,
                    stop as int,
                    g,
                    ord as int,
                ));
            }
            index = index + 1;
        }
        let ghost before_push = *self;
        self.words.push(key);
        proof {
            assert(self.words_abs() =~= old(self).words_abs().push(key@));
            assert(self.grams_abs() == before_push.grams_abs());
            assert(store_grams_from(before_push.grams_abs(), st, units_v, stop as int, stop as int,
                g, ord as int) == before_push.grams_abs());
            assert(self.wf()) by {
                assert(forall|i: int, j: int|
                    0 <= i < j < self.grams_abs().len() ==> (#[trigger] self.grams_abs()[i]).0 != (
                    #[trigger] self.grams_abs()[j]).0);
                assert(forall|i: int, p: int|
                    0 <= i < self.grams_abs().len() && 0 <= p < self.grams_abs()[i].1.len() ==> 0
                        <= (#[trigger] self.grams_abs()[i].1[p]) < self.words_abs().len());
            }
            if old(self).canonical() {
                let ws0 = old(self).words_abs();
                let ws1 = self.words_abs();
                assert(forall|x: int| 0 <= x < ws0.len() ==> ws0[x] == ws1[x]);
                lemma_replay_grams_prefix(st, ws0, ws1, ws0.len() as int);
                assert(ngram_replay_grams(st, ws1, ws1.len() as int) == store_grams_from(
                    ngram_replay_grams(st, ws1, ws0.len() as int),
                    st,
                    gram_units(st, ws1[ws0.len() as int]),
                    1,
                    gram_units(st, ws1[ws0.len() as int]).len() as int,
                    2,
                    ws0.len() as int,
                ));
                assert(self.canonical());
            }
        }
    }

    /// The window key of width `gram_size` starting at `index`.
    fn window_key(&self, units: &Vec<String>, index: usize) -> (r: Vec<String>)
        requires
            self.gram_size >= 1,
            index < units.deep_view().len(),
            index + self.gram_size <= units.deep_view().len(),
        ensures
            r.deep_view() == gram_key_at(
                self.search_type,
                units.deep_view(),
                index as int,
                self.gram_size as int,
            ),
    {
        let ghost uv = units.deep_view();
        let ghost g = self.gram_size as int;
        let ul = units.len();
        proof {
            assert(uv.len() == units@.len());
            assert(ul == units@.len());
        }
        let hi = index + self.gram_size;
        match self.search_type {
            SearchScope::Words => {
                let mut acc = String::new();
                let mut j: usize = index;
                proof {
                    assert(uv.subrange(index as int, index as int).flatten_alt() =~= Seq::<
                        char,
                    >::empty());
                }
                while j < hi
                    invariant
                        index <= j <= hi,
                        hi == index + self.gram_size,
                        hi <= uv.len(),
                        uv == units.deep_view(),
                        acc@ == uv.subrange(index as int, j as int).flatten_alt(),
                    decreases hi - j,
                {
                    acc.append(units[j].as_str());
                    proof {
                        let prev = uv.subrange(index as int, j as int);
                        assert(uv.subrange(index as int, j + 1).drop_last() =~= prev);
                        assert(uv.subrange(index as int, j + 1).last() == uv[j as int]);
                        assert(uv.subrange(index as int, j + 1).flatten_alt() == prev.flatten_alt()
                            + uv[j as int]);
                        assert(uv[j as int] == units@[j as int]@);
                    }
                    j = j + 1;
                }
                let mut r: Vec<String> = Vec::new();
                r.push(acc);
                proof {
                    let win = uv.subrange(index as int, index as int + g);
                    win.lemma_flatten_and_flatten_alt_are_equivalent();
                    assert(r.deep_view() =~= seq![win.flatten()]);
                }
                r
            },
            SearchScope::Lines => {
                let mut r: Vec<String> = Vec::new();
                let mut j: usize = index;
                while j < hi
                    invariant
                        index <= j <= hi,
                        hi == index + self.gram_size,
                        hi <= uv.len(),
                        uv == units.deep_view(),
                        r.deep_view() == uv.subrange(index as int, j as int),
                    decreases hi - j,
                {
                    let ghost prev_dv = r.deep_view();
                    let w = units[j].clone();
                    r.push(w);
                    proof {
                        assert(w@ == uv[j as int]);
                        assert(r.deep_view() =~= prev_dv.push(w@));
                        assert(prev_dv.push(w@) =~= uv.subrange(index as int, j + 1));
                    }
                    j = j + 1;
                }
                r
            },
        }
    }

    /// Append `ord` to the posting list of `k`, opening it if absent.
    #[verifier::spinoff_prover]
    #[verifier::rlimit(100)]
    fn post_ordinal(&mut self, k: Vec<String>, ord: usize)
        requires
            old(self).wf_except(ord as int),
        ensures
            final(self).words@ == old(self).words@,
            final(self).search_type == old(self).search_type,
            final(self).gram_size == old(self).gram_size,
            final(self).grams_abs() == grams_put(old(self).grams_abs(), k.deep_view(), ord as int),
            final(self).wf_except(ord as int),
    {
        let ghost kv = k.deep_view();
        let ghost pre = self.grams_abs();
        let mut j: usize = 0;
        let n = self.grams.len();
        let mut found: Option<usize> = None;
        while j < n
            invariant
                n == self.grams@.len(),
                j <= n,
                kv == k.deep_view(),
                found is None ==> forall|x: int| 0 <= x < j ==> (#[trigger] self.grams_abs()[x]).0
                    != kv,
                found matches Some(fj) ==> fj < n && self.grams_abs()[fj as int].0 == kv && (
                forall|x: int| 0 <= x < fj ==> (#[trigger] self.grams_abs()[x]).0 != kv),
                found matches Some(fj) ==> j == n,
            decreases n - j,
        {
            if vec_string_eq(&self.grams[j].0, &k) {
                proof {
                    assert(self.grams_abs()[j as int].0 == kv);
                }
                found = Some(j);
                j = n;
            } else {
                proof {
                    assert(self.grams_abs()[j as int].0 != kv);
                }
                j = j + 1;
            }
        }
        if let Some(fj) = found {
            let mut pair = self.grams.remove(fj);
            pair.1.push(ord);
            self.grams.insert(fj, pair);
            proof {
                assert(self.grams_abs() =~~= pre.update(
                    fj as int,
                    (kv, pre[fj as int].1.push(ord as int)),
                ));
                lemma_gram_find(pre, kv);
                assert(gram_find(pre, kv) == fj as int) by {
                    if gram_find(pre, kv) < fj as int {
                        assert(pre[gram_find(pre, kv)].0 != kv);
                    }
                    if gram_find(pre, kv) > fj as int {
                        assert(pre[fj as int].0 != kv);
                    }
                }
                assert(self.grams_abs() == grams_put(pre, kv, ord as int));
            }
        } else {
            let mut postings: Vec<usize> = Vec::new();
            postings.push(ord);
            self.grams.push((k, postings));
            proof {
                assert(postings@.map(|x: int, v: usize| v as int) =~= seq![ord as int]);
                assert(self.grams_abs() =~~= pre.push((kv, seq![ord as int])));
                lemma_gram_find(pre, kv);
                assert(gram_find(pre, kv) == pre.len()) by {
                    if gram_find(pre, kv) < pre.len() {
                        assert(pre[gram_find(pre, kv)].0 != kv);
                    }
                }
                assert(self.grams_abs() == grams_put(pre, kv, ord as int));
            }
        }
        proof {
            assert(self.wf_except(ord as int));
        }
    }

    /// Well-formed except that ordinal `extra` may be posted though the
    /// token list only reaches it.
    pub closed spec fn wf_except(self, extra: int) -> bool {
        &&& self.gram_size >= 1
        &&& (forall|i: int, j: int|
            0 <= i < j < self.grams_abs().len() ==> (#[trigger] self.grams_abs()[i]).0 != (
            #[trigger] self.grams_abs()[j]).0)
        &&& (forall|i: int, p: int|
            0 <= i < self.grams_abs().len() && 0 <= p < self.grams_abs()[i].1.len() ==> 0 <= (
            #[trigger] self.grams_abs()[i].1[p]) && (self.grams_abs()[i].1[p]
                < self.words_abs().len() || self.grams_abs()[i].1[p] == extra))
    }

    /// Every stored token a matching window posts with the term strictly
    /// interior, each once; the error signals that none qualifies.
    pub fn search(&self, key: String) -> (r: Result<Option<Vec<String>>, &'static str>)
        requires
            self.wf(),
        ensures
            (r is Ok) <==> exists|w: Seq<char>| self.candidate(key@, w),
            r matches Ok(ov) ==> (ov matches Some(v) && ngram_search_post(
                *self,
                key@,
                v.deep_view(),
            )),
    {
        let kc = chars_of(key.as_str());
        let mut results: Vec<String> = Vec::new();
        let n = self.grams.len();
        let mut j: usize = 0;
        while j < n
            invariant
                self.wf(),
                kc@ == key@,
                n == self.grams@.len(),
                j <= n,
                forall|k: int|
                    0 <= k < results.deep_view().len() ==> self.candidate(
                        key@,
                        #[trigger] results.deep_view()[k],
                    ),
                forall|w: Seq<char>|
                    #[trigger] self.cand_before(key@, w, j as int) ==> results.deep_view().contains(
                        w,
                    ),
                forall|k1: int, k2: int|
                    0 <= k1 < k2 < results.deep_view().len() ==> results.deep_view()[k1]
                        != results.deep_view()[k2],
            decreases n - j,
        {
            let hit = self.gram_matches(j, &key, &kc);
            if hit {
                let m = self.grams[j].1.len();
                let mut p: usize = 0;
                while p < m
                    invariant
                        self.wf(),
                        kc@ == key@,
                        n == self.grams@.len(),
                        j < n,
                        m == self.grams@[j as int].1@.len(),
                        p <= m,
                        gram_hit(self.search_type, self.grams_abs()[j as int].0, key@),
                        forall|k: int|
                            0 <= k < results.deep_view().len() ==> self.candidate(
                                key@,
                                #[trigger] results.deep_view()[k],
                            ),
                        forall|w: Seq<char>|
                            #[trigger] self.cand_before(key@, w, j as int)
                                ==> results.deep_view().contains(w),
                        forall|w: Seq<char>|
                            #[trigger] self.cand_at(key@, w, j as int, p as int)
                                ==> results.deep_view().contains(w),
                        forall|k1: int, k2: int|
                            0 <= k1 < k2 < results.deep_view().len() ==> results.deep_view()[k1]
                                != results.deep_view()[k2],
                    decreases m - p,
                {
                    let ord = self.grams[j].1[p];
                    proof {
                        assert(self.grams_abs()[j as int].1[p as int] == ord as int);
                        assert(0 <= ord < self.words_abs().len());
                    }
                    let w = &self.words[ord];
                    let wc = chars_of(w.as_str());
                    let keep = !chars_start_with(&wc, &kc) && !chars_end_with(&wc, &kc)
                        && chars_contain(&wc, &kc);
                    if keep {
                        if !contains_string(&results, w.as_str()) {
                            let w2 = w.clone();
                            let ghost old_dv = results.deep_view();
                            results.push(w2);
                            proof {
                                assert(results.deep_view() =~= old_dv.push(wc@));
                                assert(self.candidate(key@, wc@)) by {
                                    assert(interior_match(wc@, key@));
                                    assert(self.words_abs()[ord as int] == wc@);
                                }
                                assert forall|k2: int|
                                    0 <= k2 < results.deep_view().len() implies self.candidate(
                                    key@,
                                    #[trigger] results.deep_view()[k2],
                                ) by {
                                    if k2 < old_dv.len() {
                                        assert(results.deep_view()[k2] == old_dv[k2]);
                                    } else {
                                        assert(results.deep_view()[k2] == wc@);
                                    }
                                }
                                assert forall|w3: Seq<char>| #[trigger]
                                    self.cand_before(key@, w3, j as int) implies
                                    results.deep_view().contains(w3) by {
                                    let x = choose|x: int|
                                        0 <= x < old_dv.len() && old_dv[x] == w3;
                                    assert(results.deep_view()[x] == w3);
                                }
                                assert forall|k1: int, k2: int|
                                    0 <= k1 < k2 < results.deep_view().len() implies
                                    results.deep_view()[k1] != results.deep_view()[k2] by {
                                    if k2 < old_dv.len() {
                                        assert(results.deep_view()[k1] == old_dv[k1]);
                                        assert(results.deep_view()[k2] == old_dv[k2]);
                                    } else {
                                        assert(results.deep_view()[k2] == wc@);
                                        assert(results.deep_view()[k1] == old_dv[k1]);
                                        assert(!old_dv.contains(wc@));
                                    }
                                }
                                assert forall|w3: Seq<char>|
                                    #[trigger] self.cand_at(key@, w3, j as int, p + 1) implies
                                    results.deep_view().contains(w3) by {
                                    if self.cand_at(key@, w3, j as int, p as int) {
                                        let x = choose|x: int|
                                            0 <= x < old_dv.len() && old_dv[x] == w3;
                                        assert(results.deep_view()[x] == w3);
                                    } else {
                                        assert(w3 == wc@);
                                        assert(results.deep_view()[old_dv.len() as int] == w3);
                                    }
                                }
                            }
                        } else {
                            proof {
                                assert forall|w3: Seq<char>|
                                    #[trigger] self.cand_at(key@, w3, j as int, p + 1) implies
                                    results.deep_view().contains(w3) by {
                                    if !self.cand_at(key@, w3, j as int, p as int) {
                                        assert(w3 == wc@);
                                    }
                                }
                            }
                        }
                    } else {
                        proof {
                            assert forall|w3: Seq<char>|
                                #[trigger] self.cand_at(key@, w3, j as int, p + 1) implies
                                results.deep_view().contains(w3) by {
                                if !self.cand_at(key@, w3, j as int, p as int) {
                                    assert(w3 == wc@ && interior_match(w3, key@));
                                    assert(false);
                                }
                            }
                        }
                    }
                    p = p + 1;
                }
                proof {
                    assert forall|w: Seq<char>| #[trigger]
                        self.cand_before(key@, w, j + 1) implies results.deep_view().contains(
                        w,
                    ) by {
                        if !self.cand_before(key@, w, j as int) {
                            assert(self.cand_at(key@, w, j as int, m as int));
                        }
                    }
                }
            } else {
                proof {
                    assert forall|w: Seq<char>| #[trigger]
                        self.cand_before(key@, w, j + 1) implies results.deep_view().contains(
                        w,
                    ) by {
                        if !self.cand_before(key@, w, j as int) {
                            let (j2, p2): (int, int) = choose|j2: int, p2: int|
                                0 <= j2 < j + 1 && gram_hit(
                                    self.search_type,
                                    self.grams_abs()[j2].0,
                                    key@,
                                ) && 0 <= p2 < self.grams_abs()[j2].1.len() && 0 <= (
                                #[trigger] self.grams_abs()[j2].1[p2]) < self.words_abs().len()
                                    && self.words_abs()[self.grams_abs()[j2].1[p2]] == w
                                    && interior_match(w, key@);
                            assert(j2 == j);
                            assert(false);
                        }
                    }
                }
            }
            j = j + 1;
        }
        proof {
            assert forall|w: Seq<char>| self.candidate(key@, w) implies
                results.deep_view().contains(w) by {
                assert(self.cand_before(key@, w, n as int));
            }
            assert forall|w: Seq<char>| results.deep_view().contains(w) implies self.candidate(
                key@,
                w,
            ) by {
                let x = choose|x: int|
                    0 <= x < results.deep_view().len() && results.deep_view()[x] == w;
            }
        }
        if results.len() == 0 {
            proof {
                assert forall|w: Seq<char>| !self.candidate(key@, w) by {
                    if self.candidate(key@, w) {
                        assert(results.deep_view().contains(w));
                    }
                }
            }
            Result::Err("couldn't find a match mate")
        } else {
            proof {
                assert(self.candidate(key@, results.deep_view()[0]));
            }
            Result::Ok(Some(results))
        }
    }

    /// Whether the window key at `j` matches the term.
    fn gram_matches(&self, j: usize, key: &String, kc: &Vec<char>) -> (r: bool)
        requires
            self.wf(),
            j < self.grams@.len(),
            kc@ == key@,
        ensures
            r == gram_hit(self.search_type, self.grams_abs()[j as int].0, key@),
    {
        let k = &self.grams[j].0;
        let ghost kv = self.grams_abs()[j as int].0;
        proof {
            assert(kv == k.deep_view());
            assert(kv.len() == k@.len());
            assert(forall|y: int| 0 <= y < k@.len() ==> #[trigger] kv[y] == k@[y]@);
        }
        let m = k.len();
        let mut x: usize = 0;
        match self.search_type {
            SearchScope::Words => {
                while x < m
                    invariant
                        self.search_type == SearchScope::Words,
                        j < self.grams@.len(),
                        self.grams_abs().len() == self.grams@.len(),
                        kv == self.grams_abs()[j as int].0,
                        m == k@.len(),
                        x <= m,
                        kv == k.deep_view(),
                        kv.len() == k@.len(),
                        forall|y: int| 0 <= y < k@.len() ==> #[trigger] kv[y] == k@[y]@,
                        kc@ == key@,
                        forall|y: int| 0 <= y < x ==> !contains_seq(#[trigger] kv[y], key@),
                    decreases m - x,
                {
                    let ec = chars_of(k[x].as_str());
                    if chars_contain(&ec, kc) {
                        proof {
                            assert(contains_seq(kv[x as int], key@));
                            assert((x as int) < kv.len());
                            assert(gram_hit(self.search_type, kv, key@));
                            assert(self.grams_abs()[j as int].0 == kv);
                        }
                        return true;
                    }
                    x = x + 1;
                }
                false
            },
            SearchScope::Lines => {
                while x < m
                    invariant
                        self.search_type == SearchScope::Lines,
                        j < self.grams@.len(),
                        self.grams_abs().len() == self.grams@.len(),
                        kv == self.grams_abs()[j as int].0,
                        m == k@.len(),
                        x <= m,
                        kv == k.deep_view(),
                        kv.len() == k@.len(),
                        forall|y: int| 0 <= y < k@.len() ==> #[trigger] kv[y] == k@[y]@,
                        kc@ == key@,
                        forall|y: int| 0 <= y < x ==> #[trigger] kv[y] != key@,
                    decreases m - x,
                {
                    if str_eq(k[x].as_str(), key.as_str()) {
                        proof {
                            assert(kv[x as int] == key@);
                            assert((x as int) < kv.len());
                            assert(gram_hit(self.search_type, kv, key@));
                            assert(self.grams_abs()[j as int].0 == kv);
                        }
                        return true;
                    }
                    x = x + 1;
                }
                false
            },
        }
    }

    /// A candidate found through one of the first `jmax` window keys.
    pub closed spec fn cand_before(self, term: Seq<char>, w: Seq<char>, jmax: int) -> bool {
        exists|j: int, p: int|
            0 <= j < jmax && gram_hit(self.search_type, self.grams_abs()[j].0, term) && 0 <= p
                < self.grams_abs()[j].1.len() && 0 <= (#[trigger] self.grams_abs()[j].1[p])
                < self.words_abs().len() && self.words_abs()[self.grams_abs()[j].1[p]] == w
                && interior_match(w, term)
    }

    /// A candidate found through window key `j` among its first `pmax`
    /// postings.
    pub closed spec fn cand_at(self, term: Seq<char>, w: Seq<char>, j: int, pmax: int) -> bool {
        exists|p: int|
            0 <= p < pmax && p < self.grams_abs()[j].1.len() && 0 <= (
            #[trigger] self.grams_abs()[j].1[p]) < self.words_abs().len()
                && self.words_abs()[self.grams_abs()[j].1[p]] == w && interior_match(w, term)
    }
}

/// Every candidate holds the term strictly in its interior.
pub proof fn lemma_candidate_interior(n: NGramIndex, term: Seq<char>, w: Seq<char>)
    requires
        n.candidate(term, w),
    ensures
        interior_match(w, term),
{
}

/// What a candidate is, over the index's table and token list.
pub proof fn lemma_candidate_abs(n: NGramIndex, term: Seq<char>, w: Seq<char>)
    ensures
        n.candidate(term, w) == candidate_in(n.regime(), n.grams_abs(), n.words_abs(), term, w),
{
}

/// An index whose table replays its tokens under two-unit windows is
/// canonical.
pub proof fn lemma_canonical_intro(n: NGramIndex)
    requires
        n.gram_width() == 2,
        n.grams_abs() == ngram_replay_grams(n.regime(), n.words_abs(), n.words_abs().len() as int),
    ensures
        n.canonical(),
{
}

/// `g1` extends `g0`: the old window keys and their postings are intact.
pub open spec fn grams_extends(
    g0: Seq<(Seq<Seq<char>>, Seq<int>)>,
    g1: Seq<(Seq<Seq<char>>, Seq<int>)>,
) -> bool {
    &&& g1.len() >= g0.len()
    &&& (forall|j: int| 0 <= j < g0.len() ==> (#[trigger] g1[j]).0 == g0[j].0)
    &&& (forall|j: int| 0 <= j < g0.len() ==> (#[trigger] g1[j]).1.len() >= g0[j].1.len())
    &&& (forall|j: int, p: int|
        0 <= j < g0.len() && 0 <= p < g0[j].1.len() ==> (#[trigger] g1[j].1[p]) == g0[j].1[p])
}

/// A put extends the table.
#[verifier::spinoff_prover]
#[verifier::rlimit(100)]
proof fn lemma_grams_put_extends(g: Seq<(Seq<Seq<char>>, Seq<int>)>, k: Seq<Seq<char>>, ord: int)
    ensures
        grams_extends(g, grams_put(g, k, ord)),
{
    let r = grams_put(g, k, ord);
    let j = gram_find(g, k);
    lemma_gram_find(g, k);
    if j < g.len() {
        assert(r == g.update(j, (k, g[j].1.push(ord))));
    }
}

/// Extension is transitive.
proof fn lemma_extends_trans(
    a: Seq<(Seq<Seq<char>>, Seq<int>)>,
    b: Seq<(Seq<Seq<char>>, Seq<int>)>,
    c: Seq<(Seq<Seq<char>>, Seq<int>)>,
)
    requires
        grams_extends(a, b),
        grams_extends(b, c),
    ensures
        grams_extends(a, c),
{
}

/// Storing a token's windows extends the table.
#[verifier::spinoff_prover]
#[verifier::rlimit(100)]
proof fn lemma_store_grams_extends(
    g: Seq<(Seq<Seq<char>>, Seq<int>)>,
    st: SearchScope,
    units: Seq<Seq<char>>,
    i: int,
    stop: int,
    gg: int,
    ord: int,
)
    ensures
        grams_extends(g, store_grams_from(g, st, units, i, stop, gg, ord)),
    decreases stop - i,
{
    if i >= stop {
    } else {
        let g2 = if i + gg <= units.len() {
            grams_put(g, gram_key_at(st, units, i, gg), ord)
        } else {
            g
        };
        if i + gg <= units.len() {
            lemma_grams_put_extends(g, gram_key_at(st, units, i, gg), ord);
        }
        lemma_store_grams_extends(g2, st, units, i + 1, stop, gg, ord);
        lemma_extends_trans(g, g2, store_grams_from(g2, st, units, i + 1, stop, gg, ord));
    }
}

/// A posting slot beyond the old table came from the put: it carries the
/// put's key and ordinal.
#[verifier::spinoff_prover]
#[verifier::rlimit(100)]
proof fn lemma_grams_put_additions(g: Seq<(Seq<Seq<char>>, Seq<int>)>, k: Seq<Seq<char>>, ord: int)
    ensures
        forall|j: int, p: int|
            0 <= j < grams_put(g, k, ord).len() && 0 <= p < grams_put(g, k, ord)[j].1.len() && !(j
                < g.len() && p < g[j].1.len()) ==> grams_put(g, k, ord)[j].0 == k && (
            #[trigger] grams_put(g, k, ord)[j].1[p]) == ord,
{
    let r = grams_put(g, k, ord);
    let j0 = gram_find(g, k);
    lemma_gram_find(g, k);
    if j0 < g.len() {
        assert(r == g.update(j0, (k, g[j0].1.push(ord))));
    }
    assert forall|j: int, p: int|
        0 <= j < r.len() && 0 <= p < r[j].1.len() && !(j < g.len() && p < g[j].1.len()) implies
        r[j].0 == k && (#[trigger] r[j].1[p]) == ord by {
        if j0 < g.len() {
            if j == j0 {
                assert(r[j0] == (k, g[j0].1.push(ord)));
                assert(p == g[j0].1.len());
            } else {
                assert(r[j] == g[j]);
            }
        } else {
            if j == g.len() {
                assert(r[j] == (k, seq![ord]));
            } else {
                assert(r[j] == g[j]);
            }
        }
    }
}

/// Every posting slot of `g1` beyond the table `g0` names the ordinal
/// under one of the token's window keys from `i` on.
pub open spec fn additions_ok(
    g0: Seq<(Seq<Seq<char>>, Seq<int>)>,
    g1: Seq<(Seq<Seq<char>>, Seq<int>)>,
    st: SearchScope,
    units: Seq<Seq<char>>,
    i: int,
    stop: int,
    gg: int,
    ord: int,
) -> bool {
    forall|j: int, p: int|
        0 <= j < g1.len() && 0 <= p < g1[j].1.len() && !(j < g0.len() && p < g0[j].1.len()) ==> (
        #[trigger] g1[j].1[p]) == ord && exists|wi: int|
            i <= wi < stop && wi + gg <= units.len() && g1[j].0 == gram_key_at(st, units, wi, gg)
}

/// Every posting slot beyond the old table names the stored ordinal under
/// one of the token's window keys.
#[verifier::spinoff_prover]
#[verifier::rlimit(100)]
proof fn lemma_store_grams_additions(
    g: Seq<(Seq<Seq<char>>, Seq<int>)>,
    st: SearchScope,
    units: Seq<Seq<char>>,
    i: int,
    stop: int,
    gg: int,
    ord: int,
)
    ensures
        additions_ok(g, store_grams_from(g, st, units, i, stop, gg, ord), st, units, i, stop, gg, ord),
    decreases stop - i,
{
    let r = store_grams_from(g, st, units, i, stop, gg, ord);
    if i >= stop {
        assert(additions_ok(g, r, st, units, i, stop, gg, ord));
    } else {
        let g2 = if i + gg <= units.len() {
            grams_put(g, gram_key_at(st, units, i, gg), ord)
        } else {
            g
        };
        assert(r == store_grams_from(g2, st, units, i + 1, stop, gg, ord));
        lemma_store_grams_additions(g2, st, units, i + 1, stop, gg, ord);
        lemma_store_grams_extends(g2, st, units, i + 1, stop, gg, ord);
        if i + gg <= units.len() {
            lemma_grams_put_additions(g, gram_key_at(st, units, i, gg), ord);
        }
        assert(additions_ok(g2, r, st, units, i + 1, stop, gg, ord));
        assert forall|j: int, p: int|
            0 <= j < r.len() && 0 <= p < r[j].1.len() && !(j < g.len() && p < g[j].1.len()) implies
            (#[trigger] r[j].1[p]) == ord && exists|wi: int|
            i <= wi < stop && wi + gg <= units.len() && r[j].0 == gram_key_at(
                st,
                units,
                wi,
                gg,
            ) by {
            if j < g2.len() && p < g2[j].1.len() {
                // the slot was added by this step's put
                assert(r[j].0 == g2[j].0);
                assert(r[j].1[p] == g2[j].1[p]);
                assert(g2[j].0 == gram_key_at(st, units, i, gg) && g2[j].1[p] == ord);
                assert(r[j].0 == gram_key_at(st, units, i, gg));
                assert(i <= i < stop && i + gg <= units.len());
            } else {
                // the slot was added by a later step
                assert(r[j].1[p] == ord);
                let wi = choose|wi: int|
                    i + 1 <= wi < stop && wi + gg <= units.len() && r[j].0 == gram_key_at(
                        st,
                        units,
                        wi,
                        gg,
                    );
                assert(i <= wi < stop && wi + gg <= units.len() && r[j].0 == gram_key_at(
                    st,
                    units,
                    wi,
                    gg,
                ));
            }
        }
        assert(additions_ok(g, r, st, units, i, stop, gg, ord));
    }
}

/// After this token's windows are stored, each of them posts the ordinal.
#[verifier::spinoff_prover]
#[verifier::rlimit(100)]
proof fn lemma_store_grams_window(
    g: Seq<(Seq<Seq<char>>, Seq<int>)>,
    st: SearchScope,
    units: Seq<Seq<char>>,
    i: int,
    stop: int,
    gg: int,
    ord: int,
    wi: int,
)
    requires
        i <= wi < stop,
        wi + gg <= units.len(),
    ensures
        exists|j: int, p: int|
            0 <= j < store_grams_from(g, st, units, i, stop, gg, ord).len()
                && store_grams_from(g, st, units, i, stop, gg, ord)[j].0 == gram_key_at(
                st,
                units,
                wi,
                gg,
            ) && 0 <= p < store_grams_from(g, st, units, i, stop, gg, ord)[j].1.len() && (
            #[trigger] store_grams_from(g, st, units, i, stop, gg, ord)[j].1[p]) == ord,
    decreases stop - i,
{
    let g2 = if i + gg <= units.len() {
        grams_put(g, gram_key_at(st, units, i, gg), ord)
    } else {
        g
    };
    let r = store_grams_from(g2, st, units, i + 1, stop, gg, ord);
    if i == wi {
        let k = gram_key_at(st, units, i, gg);
        lemma_store_grams_extends(g2, st, units, i + 1, stop, gg, ord);
        let j0 = gram_find(g, k);
        lemma_gram_find(g, k);
        let r0 = store_grams_from(g, st, units, i, stop, gg, ord);
        assert(r0 == r);
        if j0 < g.len() {
            assert(g2 == g.update(j0, (k, g[j0].1.push(ord))));
            assert(g2[j0].0 == k && g2[j0].1[g2[j0].1.len() - 1] == ord);
            assert(r0[j0].0 == k && (#[trigger] r0[j0].1[g2[j0].1.len() - 1]) == ord);
        } else {
            assert(g2 == g.push((k, seq![ord])));
            assert(g2[j0].0 == k && g2[j0].1[0] == ord);
            assert(r0[j0].0 == k && (#[trigger] r0[j0].1[0]) == ord);
        }
    } else {
        lemma_store_grams_window(g2, st, units, i + 1, stop, gg, ord, wi);
        let r0 = store_grams_from(g, st, units, i, stop, gg, ord);
        assert(r0 == r);
        let (j1, p1): (int, int) = choose|j1: int, p1: int|
            0 <= j1 < r.len() && r[j1].0 == gram_key_at(st, units, wi, gg) && 0 <= p1
                < r[j1].1.len() && (#[trigger] r[j1].1[p1]) == ord;
        assert(r0[j1].0 == gram_key_at(st, units, wi, gg) && (#[trigger] r0[j1].1[p1]) == ord);
    }
}

/// In a replayed table, every window of every stored token posts that
/// token's ordinal.
#[verifier::spinoff_prover]
#[verifier::rlimit(100)]
proof fn lemma_replay_windows_present(
    st: SearchScope,
    ws: Seq<Seq<char>>,
    n: int,
    m: int,
    wi: int,
)
    requires
        0 <= m < n <= ws.len(),
        1 <= wi < gram_units(st, ws[m]).len(),
        wi + 2 <= gram_units(st, ws[m]).len(),
    ensures
        exists|j: int, p: int|
            0 <= j < ngram_replay_grams(st, ws, n).len() && ngram_replay_grams(st, ws, n)[j].0
                == gram_key_at(st, gram_units(st, ws[m]), wi, 2) && 0 <= p < ngram_replay_grams(
                st,
                ws,
                n,
            )[j].1.len() && (#[trigger] ngram_replay_grams(st, ws, n)[j].1[p]) == m,
    decreases n,
{
    let prev = ngram_replay_grams(st, ws, n - 1);
    let r = ngram_replay_grams(st, ws, n);
    if m == n - 1 {
        lemma_store_grams_window(
            prev,
            st,
            gram_units(st, ws[m]),
            1,
            gram_units(st, ws[m]).len() as int,
            2,
            m,
            wi,
        );
    } else {
        lemma_replay_windows_present(st, ws, n - 1, m, wi);
        lemma_store_grams_extends(
            prev,
            st,
            gram_units(st, ws[n - 1]),
            1,
            gram_units(st, ws[n - 1]).len() as int,
            2,
            n - 1,
        );
        let (j, p): (int, int) = choose|j: int, p: int|
            0 <= j < prev.len() && prev[j].0 == gram_key_at(st, gram_units(st, ws[m]), wi, 2) && 0
                <= p < prev[j].1.len() && (#[trigger] prev[j].1[p]) == m;
        assert(r[j].0 == prev[j].0 && r[j].1[p] == prev[j].1[p]);
    }
}

/// Storing an already-stored token again changes no search membership:
/// the new postings only repeat the token under window keys it had posted
/// before.
#[verifier::spinoff_prover]
#[verifier::rlimit(100)]
pub proof fn lemma_store_again_membership(
    n0: NGramIndex,
    n1: NGramIndex,
    key: Seq<char>,
    term: Seq<char>,
)
    requires
        n0.wf(),
        n0.canonical(),
        n0.words_abs().contains(key),
        n1.regime() == n0.regime(),
        n1.gram_width() == n0.gram_width(),
        n1.words_abs() == n0.words_abs().push(key),
        n1.grams_abs() == store_grams_from(
            n0.grams_abs(),
            n0.regime(),
            gram_units(n0.regime(), key),
            n0.gram_width() - 1,
            gram_units(n0.regime(), key).len() as int,
            n0.gram_width(),
            n0.words_abs().len() as int,
        ),
    ensures
        forall|w: Seq<char>| n1.candidate(term, w) <==> n0.candidate(term, w),
{
    let st = n0.regime();
    let units = gram_units(st, key);
    let g0 = n0.grams_abs();
    let g1 = n1.grams_abs();
    let ws0 = n0.words_abs();
    let ws1 = n1.words_abs();
    let ord = ws0.len() as int;
    lemma_store_grams_extends(g0, st, units, 1, units.len() as int, 2, ord);
    lemma_store_grams_additions(g0, st, units, 1, units.len() as int, 2, ord);
    assert(additions_ok(g0, g1, st, units, 1, units.len() as int, 2, ord));
    assert forall|w: Seq<char>| n1.candidate(term, w) <==> n0.candidate(term, w) by {
        lemma_candidate_abs(n0, term, w);
        lemma_candidate_abs(n1, term, w);
        if candidate_in(st, g0, ws0, term, w) {
            let (j, p): (int, int) = choose|j: int, p: int|
                0 <= j < g0.len() && gram_hit(st, g0[j].0, term) && 0 <= p < g0[j].1.len() && 0
                    <= (#[trigger] g0[j].1[p]) < ws0.len() && ws0[g0[j].1[p]] == w
                    && interior_match(w, term);
            assert(g1[j].0 == g0[j].0 && g1[j].1[p] == g0[j].1[p]);
            assert(ws1[g1[j].1[p]] == ws0[g0[j].1[p]]);
            assert(candidate_in(st, g1, ws1, term, w));
        }
        if candidate_in(st, g1, ws1, term, w) {
            let (j, p): (int, int) = choose|j: int, p: int|
                0 <= j < g1.len() && gram_hit(st, g1[j].0, term) && 0 <= p < g1[j].1.len() && 0
                    <= (#[trigger] g1[j].1[p]) < ws1.len() && ws1[g1[j].1[p]] == w
                    && interior_match(w, term);
            if j < g0.len() && p < g0[j].1.len() {
                // an old posting: the old table already had this witness
                assert(g1[j].0 == g0[j].0 && g1[j].1[p] == g0[j].1[p]);
                assert(0 <= g0[j].1[p] < ws0.len());
                assert(ws0[g0[j].1[p]] == ws1[g1[j].1[p]]);
                assert(candidate_in(st, g0, ws0, term, w));
            } else {
                // a fresh posting: it names the re-stored token under one
                // of its own windows, which the canonical table already
                // posts for the earlier copy
                assert(g1[j].1[p] == ord);
                assert(w == key);
                let wi = choose|wi: int|
                    1 <= wi < units.len() && wi + 2 <= units.len() && g1[j].0 == gram_key_at(
                        st,
                        units,
                        wi,
                        2,
                    );
                let m = choose|m: int| 0 <= m < ws0.len() && #[trigger] ws0[m] == key;
                lemma_replay_windows_present(st, ws0, ws0.len() as int, m, wi);
                let (j0, p0): (int, int) = choose|j0: int, p0: int|
                    0 <= j0 < ngram_replay_grams(st, ws0, ws0.len() as int).len()
                        && ngram_replay_grams(st, ws0, ws0.len() as int)[j0].0 == gram_key_at(
                        st,
                        gram_units(st, ws0[m]),
                        wi,
                        2,
                    ) && 0 <= p0 < ngram_replay_grams(st, ws0, ws0.len() as int)[j0].1.len() && (
                    #[trigger] ngram_replay_grams(st, ws0, ws0.len() as int)[j0].1[p0]) == m;
                assert(g0 == ngram_replay_grams(st, ws0, ws0.len() as int));
                assert(g0[j0].0 == g1[j].0);
                assert(gram_hit(st, g0[j0].0, term));
                assert(g0[j0].1[p0] == m && ws0[m] == w);
                assert(candidate_in(st, g0, ws0, term, w));
            }
        }
    }
}

/// Two canonical indexes over the same regime and tokens carry the same
/// posting table, so their observable state agrees; with the codec's
/// contracts this closes the encode/decode round trip.
pub proof fn lemma_canonical_determined(a: NGramIndex, b: NGramIndex)
    requires
        a.canonical(),
        b.canonical(),
        a.regime() == b.regime(),
        a.words_abs() == b.words_abs(),
    ensures
        a.grams_abs() == b.grams_abs(),
{
}

/// Every candidate is one of the stored tokens.
pub proof fn lemma_candidate_stored(n: NGramIndex, term: Seq<char>, w: Seq<char>)
    requires
        n.candidate(term, w),
    ensures
        n.words_abs().contains(w),
{
    let (j, p): (int, int) = choose|j: int, p: int|
        0 <= j < n.grams_abs().len() && gram_hit(n.regime(), n.grams_abs()[j].0, term) && 0 <= p
            < n.grams_abs()[j].1.len() && 0 <= (#[trigger] n.grams_abs()[j].1[p])
            < n.words_abs().len() && n.words_abs()[n.grams_abs()[j].1[p]] == w && interior_match(
            w,
            term,
        );
    assert(n.words_abs()[n.grams_abs()[j].1[p]] == w);
}

/// `v` lists, each exactly once, the candidate tokens for the term.
pub open spec fn ngram_search_post(n: NGramIndex, term: Seq<char>, v: Seq<Seq<char>>) -> bool {
    &&& v.len() > 0
    &&& forall|k: int| 0 <= k < v.len() ==> n.candidate(term, #[trigger] v[k])
    &&& forall|w: Seq<char>| #[trigger] n.candidate(term, w) ==> v.contains(w)
    &&& forall|k1: int, k2: int| 0 <= k1 < k2 < v.len() ==> v[k1] != v[k2]
}

/// The two string lists hold the same character sequences.
fn vec_string_eq(a: &Vec<String>, b: &Vec<String>) -> (r: bool)
    ensures
        r == (a.deep_view() == b.deep_view()),
{
    if a.len() != b.len() {
        proof {
            assert(a.deep_view().len() != b.deep_view().len());
        }
        return false;
    }
    let mut i: usize = 0;
    while i < a.len()
        invariant
            a@.len() == b@.len(),
            i <= a@.len(),
            forall|x: int| 0 <= x < i ==> a.deep_view()[x] == b.deep_view()[x],
        decreases a@.len() - i,
    {
        if !str_eq(a[i].as_str(), b[i].as_str()) {
            proof {
                assert(a.deep_view()[i as int] != b.deep_view()[i as int]);
            }
            return false;
        }
        i = i + 1;
    }
    proof {
        assert(a.deep_view() =~= b.deep_view());
    }
    true
}

/// Whether some element of `v` holds exactly the characters of `w`.
fn contains_string(v: &Vec<String>, w: &str) -> (r: bool)
    ensures
        r == v.deep_view().contains(w@),
{
    let mut i: usize = 0;
    while i < v.len()
        invariant
            i <= v@.len(),
            forall|x: int| 0 <= x < i ==> v.deep_view()[x] != w@,
        decreases v@.len() - i,
    {
        if str_eq(v[i].as_str(), w) {
            proof {
                assert(v.deep_view()[i as int] == w@);
            }
            return true;
        }
        i = i + 1;
    }
    proof {
        if v.deep_view().contains(w@) {
            let x = choose|x: int| 0 <= x < v.deep_view().len() && v.deep_view()[x] == w@;
        }
    }
    false
}

} // verus!
