//! A one-shot corpus scanner: pick candidate substrings out of a raw
//! corpus with a regular expression, keep those that match the requested
//! search style, rank them by edit distance, sort and truncate.
use vstd::prelude::*;
use vstd::utf8::encode_utf8;
use crate::query::{Scope, SearchType};
use crate::distance::{lev, edit_distance};
use crate::strutil::{is_prefix_of, is_suffix_of, contains_seq, chars_of, chars_start_with,
    chars_end_with, chars_contain, string_from_chars, str_eq, byte_len};

verus! {

/// Whether a pattern compiles.
pub uninterp spec fn regex_pattern_ok(p: Seq<char>) -> bool;

/// The non-overlapping matches of a pattern over a haystack, in order.
pub uninterp spec fn regex_matches_of(p: Seq<char>, hay: Seq<char>) -> Seq<Seq<char>>;

/// The pattern text with every meta character escaped.
pub uninterp spec fn escaped_of(s: Seq<char>) -> Seq<char>;

/// Whether the character counts as alphanumeric.
pub uninterp spec fn is_alnum_char(c: char) -> bool;

/// The string without leading and trailing whitespace.
pub uninterp spec fn trimmed_of(s: Seq<char>) -> Seq<char>;

/// Relies on `regex::bytes::Regex`: compiles the pattern and returns every
/// non-overlapping match over the haystack, leftmost first, decoded
/// lossily; `None` exactly when the pattern does not compile. The result
/// depends on the pattern and haystack alone.
#[verifier::external_body]
fn regex_find_matches(pattern: &str, hay: &str) -> (r: Option<Vec<String>>)
    ensures
        r matches Some(v) ==> v.deep_view() == regex_matches_of(pattern@, hay@),
        r is Some <==> regex_pattern_ok(pattern@),
{
    match regex::bytes::Regex::new(pattern) {
        Ok(re) => Some(
            re.find_iter(hay.as_bytes()).map(
                |m| String::from_utf8_lossy(m.as_bytes()).into_owned(),
            ).collect(),
        ),
        Err(_) => None,
    }
}

/// Relies on `regex::escape`: the pattern text with every meta character
/// escaped, a function of the characters alone.
#[verifier::external_body]
fn regex_escape(s: &str) -> (r: String)
    ensures
        r@ == escaped_of(s@),
{
    regex::escape(s)
}

/// Relies on `char::is_alphanumeric` from std: the Unicode alphanumeric
/// property of the character.
#[verifier::external_body]
fn char_is_alnum(c: char) -> (r: bool)
    ensures
        r == is_alnum_char(c),
{
    c.is_alphanumeric()
}

/// Relies on `str::trim` from std: the string without leading and
/// trailing whitespace, a contiguous piece of it.
#[verifier::external_body]
fn str_trim(s: &str) -> (r: &str)
    ensures
        r@ == trimmed_of(s@),
        r@.len() <= s@.len(),
{
    s.trim()
}

/// The characters with every carriage return removed.
pub open spec fn without_cr(s: Seq<char>) -> Seq<char>
    decreases s.len(),
{
    if s.len() == 0 {
        Seq::empty()
    } else {
        let rest = without_cr(s.drop_last());
        if s.last() == '\r' {
            rest
        } else {
            rest.push(s.last())
        }
    }
}

/// Remove every carriage return.
fn strip_cr(s: &str) -> (r: String)
    ensures
        r@ == without_cr(s@),
{
    let cs = chars_of(s);
    let mut out: Vec<char> = Vec::new();
    let mut i: usize = 0;
    proof {
        assert(out@ =~= without_cr(cs@.take(0)));
    }
    while i < cs.len()
        invariant
            cs@ == s@,
            i <= cs@.len(),
            out@ == without_cr(cs@.take(i as int)),
        decreases cs@.len() - i,
    {
        let c = cs[i];
        proof {
            let t1 = cs@.take(i + 1);
            assert(t1.drop_last() =~= cs@.take(i as int));
            assert(t1.last() == cs@[i as int]);
        }
        if c != '\r' {
            out.push(c);
        }
        i = i + 1;
    }
    proof {
        assert(cs@.take(cs@.len() as int) =~= cs@);
    }
    string_from_chars(&out)
}

/// The string with its trailing non-alphanumeric characters removed.
pub open spec fn trim_end_non_alnum(s: Seq<char>) -> Seq<char>
    decreases s.len(),
{
    if s.len() == 0 || is_alnum_char(s.last()) {
        s
    } else {
        trim_end_non_alnum(s.drop_last())
    }
}

/// Remove the trailing non-alphanumeric characters.
fn trim_end_non_alnum_exec(s: &str) -> (r: String)
    ensures
        r@ == trim_end_non_alnum(s@),
{
    let mut cs = chars_of(s);
    loop
        invariant
            trim_end_non_alnum(s@) == trim_end_non_alnum(cs@),
        decreases cs@.len(),
    {
        if cs.len() == 0 {
            return string_from_chars(&cs);
        }
        let c = cs[cs.len() - 1];
        if char_is_alnum(c) {
            return string_from_chars(&cs);
        }
        let ghost prev = cs@;
        let _ = cs.pop();
        proof {
            assert(cs@ =~= prev.drop_last());
        }
    }
}

/// Whether the candidate survives the search style, against the trimmed
/// term.
pub open spec fn scan_hit(ty: SearchType, q: Seq<char>, v: Seq<char>) -> bool {
    match ty {
        SearchType::Prefix => is_prefix_of(q, v),
        SearchType::Suffix => is_suffix_of(q, trim_end_non_alnum(v)),
        SearchType::Contains => v != q && contains_seq(v, q) && !is_prefix_of(q, v)
            && !is_suffix_of(q, v),
    }
}

/// The ranking key of a surviving candidate: exactly its edit distance
/// to the trimmed term (measured on the cleaned text for suffix style).
pub open spec fn scan_key(ty: SearchType, q: Seq<char>, v: Seq<char>) -> int {
    match ty {
        SearchType::Suffix => lev(q, trim_end_non_alnum(v)) as int,
        _ => lev(q, v) as int,
    }
}

/// The byte cutoff a candidate must stay within, per scope.
pub open spec fn limit_of(scope: Scope) -> int {
    match scope {
        Scope::Words => 1020,
        Scope::Lines => 131072,
    }
}

/// What every reported pair satisfies: the style check against the
/// trimmed term, its ranking key, its origin among the matches, and the
/// scope's byte cutoff.
pub open spec fn scan_entry_ok(
    ty: SearchType,
    q: Seq<char>,
    matches: Seq<Seq<char>>,
    limit: int,
    e: (int, Seq<char>),
) -> bool {
    &&& scan_hit(ty, q, e.1)
    &&& e.0 == scan_key(ty, q, e.1)
    &&& matches.contains(e.1)
    &&& encode_utf8(e.1).len() <= limit
}

/// The texts of a result list.
pub open spec fn result_texts(r: Seq<(usize, String)>) -> Seq<Seq<char>> {
    r.map(|i: int, p: (usize, String)| p.1@)
}

/// Every candidate within the cutoff that survives the style check has
/// its text among `outs`.
pub open spec fn scan_covered(
    ty: SearchType,
    q: Seq<char>,
    cands: Seq<Seq<char>>,
    limit: int,
    outs: Seq<Seq<char>>,
) -> bool {
    forall|w: Seq<char>|
        cands.contains(w) && encode_utf8(w).len() <= limit && #[trigger] scan_hit(ty, q, w)
            ==> outs.contains(w)
}

/// A scope, style and term for one scan of a raw corpus.
pub struct UserInput {
    search_scope: Scope,
    search_term: String,
    search_type: SearchType,
}

impl UserInput {
    /// The term as given.
    pub closed spec fn term(self) -> Seq<char> {
        self.search_term@
    }

    /// The chosen scope.
    pub closed spec fn scope_of(self) -> Scope {
        self.search_scope
    }

    /// The chosen style.
    pub closed spec fn type_of(self) -> SearchType {
        self.search_type
    }

    /// Read the numeric menu choices; only the listed codes are accepted.
    pub fn inital(scope: Option<u16>, search_term: String, types: Option<u16>) -> (r: Self)
        requires
            scope == Some(1u16) || scope == Some(2u16),
            types == Some(1u16) || types == Some(2u16) || types == Some(3u16),
        ensures
            r.term() == search_term@,
            r.scope_of() == (if scope == Some(1u16) {
                Scope::Words
            } else {
                Scope::Lines
            }),
            r.type_of() == (if types == Some(1u16) {
                SearchType::Prefix
            } else if types == Some(2u16) {
                SearchType::Suffix
            } else {
                SearchType::Contains
            }),
    {
        let search_scope = if scope == Some(1u16) {
            Scope::Words
        } else {
            Scope::Lines
        };
        let search_type = if types == Some(1u16) {
            SearchType::Prefix
        } else if types == Some(2u16) {
            SearchType::Suffix
        } else {
            SearchType::Contains
        };
        UserInput { search_scope, search_term, search_type }
    }

    /// Scan the corpus: candidates come from a word pattern or a
    /// term-bounded line pattern over the corpus with carriage returns
    /// removed; the candidates within the scope's byte cutoff that
    /// survive the style check are ranked by edit distance to the trimmed
    /// term, sorted by rank and truncated to one hundred. When nothing
    /// was cut off, every qualifying candidate is reported.
    pub fn search(&self, corpus: &str) -> (r: Vec<(usize, String)>)
        ensures
            r@.len() <= 100,
            forall|i: int, j: int|
                0 <= i < j < r@.len() ==> (#[trigger] r@[i]).0 <= (#[trigger] r@[j]).0,
            forall|k: int|
                0 <= k < r@.len() ==> scan_entry_ok(
                    self.type_of(),
                    trimmed_of(self.term()),
                    regex_matches_of(scan_pattern(self.scope_of(), self.term()), without_cr(
                        corpus@,
                    )),
                    limit_of(self.scope_of()),
                    ((#[trigger] r@[k]).0 as int, r@[k].1@),
                ),
            r@.len() < 100 && regex_pattern_ok(scan_pattern(self.scope_of(), self.term()))
                ==> scan_covered(
                self.type_of(),
                trimmed_of(self.term()),
                regex_matches_of(scan_pattern(self.scope_of(), self.term()), without_cr(corpus@)),
                limit_of(self.scope_of()),
                result_texts(r@),
            ),
    {
        let hay = strip_cr(corpus);
        let pattern: String = match self.search_scope {
            Scope::Words => {
                let p = word_pattern_text();
                p
            },
            Scope::Lines => {
                let mut p = line_pattern_head();
                let esc = regex_escape(self.search_term.as_str());
                p.append(esc.as_str());
                let tail = line_pattern_tail();
                p.append(tail.as_str());
                proof {
                    assert(p@ =~= scan_pattern(self.scope_of(), self.term()));
                }
                p
            },
        };
        let limit: usize = match self.search_scope {
            Scope::Words => 1020,
            Scope::Lines => 131072,
        };
        let ghost ty = self.type_of();
        let found = regex_find_matches(pattern.as_str(), hay.as_str());
        let cands: Vec<String> = match found {
            Option::Some(v) => v,
            Option::None => {
                let r: Vec<(usize, String)> = Vec::new();
                return r;
            },
        };
        let ghost cv = cands.deep_view();
        let q = str_trim(self.search_term.as_str());
        let qc = chars_of(q);
        let ghost qv = trimmed_of(self.term());
        let mut ranked: Vec<(usize, String)> = Vec::new();
        let mut i: usize = 0;
        proof {
            assert(cv.take(0) =~= Seq::<Seq<char>>::empty());
        }
        while i < cands.len()
            invariant
                cv == cands.deep_view(),
                cv.len() == cands@.len(),
                cv == regex_matches_of(scan_pattern(self.scope_of(), self.term()), without_cr(
                    corpus@,
                )),
                limit == limit_of(self.scope_of()),
                ty == self.type_of(),
                qc@ == qv,
                q@ == qv,
                qv == trimmed_of(self.term()),
                i <= cands@.len(),
                forall|k: int|
                    0 <= k < ranked@.len() ==> scan_entry_ok(
                        ty,
                        qv,
                        cv,
                        limit as int,
                        ((#[trigger] ranked@[k]).0 as int, ranked@[k].1@),
                    ),
                scan_covered(ty, qv, cv.take(i as int), limit as int, result_texts(ranked@)),
            decreases cands@.len() - i,
        {
            let v = &cands[i];
            let bl = byte_len(v.as_str());
            let ghost ranked0 = ranked@;
            proof {
                assert(v@ == cv[i as int]);
                assert(bl == encode_utf8(cv[i as int]).len());
            }
            if bl <= limit {
                let vc = chars_of(v.as_str());
                proof {
                    assert(vc@ == cv[i as int]);
                }
                match self.search_type {
                    SearchType::Prefix => {
                        if chars_start_with(&vc, &qc) {
                            let d = edit_distance(q, v.as_str());
                            ranked.push((d, v.clone()));
                            proof {
                                assert(ranked@.last().1@ == cv[i as int]);
                                assert(scan_hit(ty, qv, cv[i as int]));
                                assert(ranked@.last().0 as int == scan_key(ty, qv, cv[i as int]));
                                assert(cv.contains(cv[i as int]));
                            }
                        }
                        proof {
                            assert(scan_hit(ty, qv, cv[i as int]) ==> result_texts(
                                ranked@,
                            ).contains(cv[i as int])) by {
                                if scan_hit(ty, qv, cv[i as int]) {
                                    assert(result_texts(ranked@)[ranked@.len() - 1] == cv[
                                    i as int]);
                                }
                            }
                        }
                    },
                    SearchType::Suffix => {
                        let cleaned = trim_end_non_alnum_exec(v.as_str());
                        let clc = chars_of(cleaned.as_str());
                        if chars_end_with(&clc, &qc) {
                            let d = edit_distance(q, cleaned.as_str());
                            ranked.push((d, v.clone()));
                            proof {
                                assert(cleaned@ == trim_end_non_alnum(cv[i as int]));
                                assert(ranked@.last().1@ == cv[i as int]);
                                assert(scan_hit(ty, qv, cv[i as int]));
                                assert(ranked@.last().0 as int == scan_key(ty, qv, cv[i as int]));
                                assert(cv.contains(cv[i as int]));
                            }
                        }
                        proof {
                            assert(cleaned@ == trim_end_non_alnum(cv[i as int]));
                            assert(scan_hit(ty, qv, cv[i as int]) ==> result_texts(
                                ranked@,
                            ).contains(cv[i as int])) by {
                                if scan_hit(ty, qv, cv[i as int]) {
                                    assert(result_texts(ranked@)[ranked@.len() - 1] == cv[
                                    i as int]);
                                }
                            }
                        }
                    },
                    SearchType::Contains => {
                        let neq = !str_eq(v.as_str(), q);
                        let hit_now = neq && chars_contain(&vc, &qc) && !chars_start_with(&vc, &qc)
                            && !chars_end_with(&vc, &qc);
                        if hit_now {
                            let d = edit_distance(q, v.as_str());
                            ranked.push((d, v.clone()));
                            proof {
                                assert(ranked@.last().1@ == cv[i as int]);
                                assert(scan_hit(ty, qv, cv[i as int]));
                                assert(ranked@.last().0 as int == scan_key(ty, qv, cv[i as int]));
                                assert(cv.contains(cv[i as int]));
                            }
                        }
                        proof {
                            assert(scan_hit(ty, qv, cv[i as int]) ==> result_texts(
                                ranked@,
                            ).contains(cv[i as int])) by {
                                if scan_hit(ty, qv, cv[i as int]) {
                                    assert(result_texts(ranked@)[ranked@.len() - 1] == cv[
                                    i as int]);
                                }
                            }
                        }
                    },
                }
                proof {
                    lemma_scan_cover_step(ty, qv, cv, limit as int, i as int, ranked0, ranked@);
                }
            } else {
                proof {
                    lemma_scan_cover_step(ty, qv, cv, limit as int, i as int, ranked0, ranked@);
                }
            }
            i = i + 1;
        }
        proof {
            assert(cv.take(cv.len() as int) =~= cv);
        }
        // stable insertion sort by the ranking key, then truncate
        let mut out: Vec<(usize, String)> = Vec::new();
        let mut j: usize = 0;
        while j < ranked.len()
            invariant
                j <= ranked@.len(),
                forall|i2: int, j2: int|
                    0 <= i2 < j2 < out@.len() ==> (#[trigger] out@[i2]).0 <= (
                    #[trigger] out@[j2]).0,
                forall|m: int|
                    0 <= m < ranked@.len() ==> scan_entry_ok(
                        self.type_of(),
                        trimmed_of(self.term()),
                        regex_matches_of(scan_pattern(self.scope_of(), self.term()), without_cr(
                            corpus@,
                        )),
                        limit_of(self.scope_of()),
                        ((#[trigger] ranked@[m]).0 as int, ranked@[m].1@),
                    ),
                forall|k: int|
                    0 <= k < out@.len() ==> scan_entry_ok(
                        self.type_of(),
                        trimmed_of(self.term()),
                        regex_matches_of(scan_pattern(self.scope_of(), self.term()), without_cr(
                            corpus@,
                        )),
                        limit_of(self.scope_of()),
                        ((#[trigger] out@[k]).0 as int, out@[k].1@),
                    ),
                forall|m: int|
                    0 <= m < j ==> result_texts(out@).contains((#[trigger] ranked@[m]).1@),
            decreases ranked@.len() - j,
        {
            let x = (ranked[j].0, ranked[j].1.clone());
            let mut pos: usize = 0;
            while pos < out.len() && out[pos].0 <= x.0
                invariant
                    pos <= out@.len(),
                    forall|y: int| 0 <= y < pos ==> (#[trigger] out@[y]).0 <= x.0,
                decreases out@.len() - pos,
            {
                pos = pos + 1;
            }
            let ghost outv = out@;
            out.insert(pos, x);
            proof {
                assert(out@ =~= outv.take(pos as int) + seq![x] + outv.skip(pos as int));
                assert forall|i2: int, j2: int|
                    0 <= i2 < j2 < out@.len() implies (#[trigger] out@[i2]).0 <= (
                #[trigger] out@[j2]).0 by {
                    if pos < outv.len() {
                        assert(outv[pos as int].0 > x.0);
                    }
                    if i2 < pos && j2 > pos {
                        assert(out@[i2] == outv[i2]);
                        assert(out@[j2] == outv[j2 - 1]);
                    } else if i2 == pos {
                        assert(out@[j2] == outv[j2 - 1]);
                        assert(outv[j2 - 1].0 >= outv[pos as int].0);
                    } else if j2 == pos {
                        assert(out@[i2] == outv[i2]);
                    }
                }
                assert forall|k: int|
                    0 <= k < out@.len() implies scan_entry_ok(
                    self.type_of(),
                    trimmed_of(self.term()),
                    regex_matches_of(scan_pattern(self.scope_of(), self.term()), without_cr(
                        corpus@,
                    )),
                    limit_of(self.scope_of()),
                    ((#[trigger] out@[k]).0 as int, out@[k].1@),
                ) by {
                    if k < pos {
                        assert(out@[k] == outv[k]);
                    } else if k > pos {
                        assert(out@[k] == outv[k - 1]);
                    } else {
                        assert(out@[k] == x);
                        assert(x.0 == ranked@[j as int].0 && x.1@ == ranked@[j as int].1@);
                    }
                }
                assert forall|m: int|
                    0 <= m < j + 1 implies result_texts(out@).contains(
                    (#[trigger] ranked@[m]).1@,
                ) by {
                    if m < j {
                        let k0 = choose|k0: int|
                            0 <= k0 < result_texts(outv).len() && #[trigger] result_texts(
                                outv,
                            )[k0] == ranked@[m].1@;
                        if k0 < pos {
                            assert(result_texts(out@)[k0] == ranked@[m].1@);
                        } else {
                            assert(out@[k0 + 1] == outv[k0]);
                            assert(result_texts(out@)[k0 + 1] == ranked@[m].1@);
                        }
                    } else {
                        assert(out@[pos as int] == x);
                        assert(result_texts(out@)[pos as int] == ranked@[m].1@);
                    }
                }
            }
            j = j + 1;
        }
        let mut r: Vec<(usize, String)> = Vec::new();
        let mut k: usize = 0;
        while k < out.len() && k < 100
            invariant
                k <= out@.len(),
                k <= 100,
                r@.len() == k,
                forall|y: int| 0 <= y < k ==> (#[trigger] r@[y]) == out@[y],
                forall|i2: int, j2: int|
                    0 <= i2 < j2 < out@.len() ==> (#[trigger] out@[i2]).0 <= (
                    #[trigger] out@[j2]).0,
                forall|y: int|
                    0 <= y < out@.len() ==> scan_entry_ok(
                        self.type_of(),
                        trimmed_of(self.term()),
                        regex_matches_of(scan_pattern(self.scope_of(), self.term()), without_cr(
                            corpus@,
                        )),
                        limit_of(self.scope_of()),
                        ((#[trigger] out@[y]).0 as int, out@[y].1@),
                    ),
                forall|m: int|
                    0 <= m < ranked@.len() ==> result_texts(out@).contains(
                        (#[trigger] ranked@[m]).1@,
                    ),
                scan_covered(
                    self.type_of(),
                    trimmed_of(self.term()),
                    regex_matches_of(scan_pattern(self.scope_of(), self.term()), without_cr(
                        corpus@,
                    )),
                    limit_of(self.scope_of()),
                    result_texts(ranked@),
                ),
            decreases out@.len() - k,
        {
            r.push((out[k].0, out[k].1.clone()));
            k = k + 1;
        }
        proof {
            assert forall|k2: int|
                0 <= k2 < r@.len() implies scan_entry_ok(
                self.type_of(),
                trimmed_of(self.term()),
                regex_matches_of(scan_pattern(self.scope_of(), self.term()), without_cr(corpus@)),
                limit_of(self.scope_of()),
                ((#[trigger] r@[k2]).0 as int, r@[k2].1@),
            ) by {
                assert(r@[k2] == out@[k2]);
            }
            if r@.len() < 100 {
                // nothing was cut off: every covered text made it through
                assert(r@.len() == out@.len());
                assert forall|w: Seq<char>|
                    regex_matches_of(
                        scan_pattern(self.scope_of(), self.term()),
                        without_cr(corpus@),
                    ).contains(w) && encode_utf8(w).len() <= limit_of(self.scope_of())
                    && #[trigger] scan_hit(self.type_of(), trimmed_of(self.term()), w) implies
                    result_texts(r@).contains(w) by {
                    assert(result_texts(ranked@).contains(w));
                    let m = choose|m: int|
                        0 <= m < result_texts(ranked@).len() && #[trigger] result_texts(
                            ranked@,
                        )[m] == w;
                    assert(ranked@[m].1@ == w);
                    assert(result_texts(out@).contains(ranked@[m].1@));
                    let k0 = choose|k0: int|
                        0 <= k0 < result_texts(out@).len() && #[trigger] result_texts(out@)[k0]
                            == ranked@[m].1@;
                    assert(r@[k0] == out@[k0]);
                    assert(result_texts(r@)[k0] == w);
                }
            }
        }
        r
    }
}

/// One scanning step keeps the coverage: the candidate either qualified
/// and was reported, or fails the cutoff or the style check.
proof fn lemma_scan_cover_step(
    ty: SearchType,
    q: Seq<char>,
    cv: Seq<Seq<char>>,
    limit: int,
    i: int,
    ranked0: Seq<(usize, String)>,
    ranked1: Seq<(usize, String)>,
)
    requires
        0 <= i < cv.len(),
        scan_covered(ty, q, cv.take(i), limit, result_texts(ranked0)),
        ranked1.len() >= ranked0.len(),
        forall|m: int| 0 <= m < ranked0.len() ==> #[trigger] ranked1[m] == ranked0[m],
        encode_utf8(cv[i]).len() <= limit && scan_hit(ty, q, cv[i]) ==> result_texts(
            ranked1,
        ).contains(cv[i]),
    ensures
        scan_covered(ty, q, cv.take(i + 1), limit, result_texts(ranked1)),
{
    assert forall|w: Seq<char>|
        cv.take(i + 1).contains(w) && encode_utf8(w).len() <= limit && #[trigger] scan_hit(
            ty,
            q,
            w,
        ) implies result_texts(ranked1).contains(w) by {
        let t1 = cv.take(i + 1);
        let x = choose|x: int| 0 <= x < t1.len() && #[trigger] t1[x] == w;
        if x < i {
            assert(cv.take(i)[x] == w);
            assert(cv.take(i).contains(w));
            assert(result_texts(ranked0).contains(w));
            let m = choose|m: int|
                0 <= m < result_texts(ranked0).len() && #[trigger] result_texts(ranked0)[m] == w;
            assert(ranked1[m] == ranked0[m]);
            assert(result_texts(ranked1)[m] == w);
        } else {
            assert(w == cv[i]);
        }
    }
}

/// The candidate pattern for a scope: any word, or any line holding the
/// term on a word boundary with optional trailing punctuation.
pub open spec fn scan_pattern(scope: Scope, term: Seq<char>) -> Seq<char> {
    match scope {
        Scope::Words => "\\w+"@,
        Scope::Lines => "(?m)^.*\\b"@ + escaped_of(term) + "[.,!?;:']?\\b.*$"@,
    }
}

/// The word pattern text.
fn word_pattern_text() -> (r: String)
    ensures
        r@ == "\\w+"@,
{
    "\\w+".to_owned()
}

/// The head of the line pattern.
fn line_pattern_head() -> (r: String)
    ensures
        r@ == "(?m)^.*\\b"@,
{
    "(?m)^.*\\b".to_owned()
}

/// The tail of the line pattern.
fn line_pattern_tail() -> (r: String)
    ensures
        r@ == "[.,!?;:']?\\b.*$"@,
{
    "[.,!?;:']?\\b.*$".to_owned()
}

} // verus!
