//! Generalized suffix tree over tokens. Word regime: every character
//! suffix of a stored word becomes its own terminal child, tagged with the
//! token ordinal. Line regime: every word suffix of a stored line is
//! inserted with path compression, splitting an existing child at the
//! longest common word prefix. A side table at the root resolves ordinals
//! back to tokens.
use vstd::prelude::*;
use crate::strutil::{is_suffix_of, dec_digits, first_seg, join_spaced, split_sp, lex_leq,
    chars_of, string_from_chars, first_seg_exec, chars_end_with, str_eq, join_spaced_range,
    push_char, dec_string, sorted_lex, sort_lex_strs};
use vstd::multiset::Multiset;
use crate::segment::{words_of, unicode_words_vec};

verus! {

/// The unit a stored token is cut into.
#[derive(Clone, Copy, Debug)]
pub enum SearchScopeSuffix {
    Words,
    Lines,
}

/// One suffix-tree node; only the root carries the ordinal table.
pub struct SuffixTree {
    children: Vec<(String, SuffixTree)>,
    isterminal: bool,
    value: String,
    count: usize,
    pub search_type: SearchScopeSuffix,
    metadata: Vec<(usize, String)>,
}

/// A grandchild of the root, always a leaf.
pub ghost struct LeafAbs {
    pub key: Seq<char>,
    pub value: Seq<char>,
    pub count: int,
    pub terminal: bool,
    pub st: SearchScopeSuffix,
}

/// A direct child of the root with its leaf children.
pub ghost struct ChildAbs {
    pub key: Seq<char>,
    pub value: Seq<char>,
    pub count: int,
    pub terminal: bool,
    pub st: SearchScopeSuffix,
    pub kids: Seq<LeafAbs>,
}

/// The leaves under one child, as the root sees them.
pub closed spec fn leaf_abs_of(cs: Seq<(String, SuffixTree)>) -> Seq<LeafAbs> {
    cs.map(
        |i: int, g: (String, SuffixTree)|
            LeafAbs {
                key: g.0@,
                value: g.1.value@,
                count: g.1.count as int,
                terminal: g.1.isterminal,
                st: g.1.search_type,
            },
    )
}

/// The children of the root with their leaves.
pub closed spec fn root_abs_of(cs: Seq<(String, SuffixTree)>) -> Seq<ChildAbs> {
    cs.map(
        |i: int, c: (String, SuffixTree)|
            ChildAbs {
                key: c.0@,
                value: c.1.value@,
                count: c.1.count as int,
                terminal: c.1.isterminal,
                st: c.1.search_type,
                kids: leaf_abs_of(c.1.children@),
            },
    )
}

/// The terminator tag for ordinal `cnt`.
pub open spec fn term_tag(cnt: int) -> Seq<char> {
    seq!['$'] + dec_digits(cnt)
}

/// Replace the child keyed like `c`, or append it.
pub open spec fn children_put(cs: Seq<ChildAbs>, c: ChildAbs) -> Seq<ChildAbs> {
    if exists|j: int| 0 <= j < cs.len() && (#[trigger] cs[j]).key == c.key {
        let j = choose|j: int| 0 <= j < cs.len() && (#[trigger] cs[j]).key == c.key;
        cs.update(j, c)
    } else {
        cs.push(c)
    }
}

/// Replace the leaf keyed like `l`, or append it.
pub open spec fn kids_put(ks: Seq<LeafAbs>, l: LeafAbs) -> Seq<LeafAbs> {
    if exists|j: int| 0 <= j < ks.len() && (#[trigger] ks[j]).key == l.key {
        let j = choose|j: int| 0 <= j < ks.len() && (#[trigger] ks[j]).key == l.key;
        ks.update(j, l)
    } else {
        ks.push(l)
    }
}

/// Record `v` under ordinal `k`, overwriting an earlier entry.
pub open spec fn meta_put(meta: Seq<(int, Seq<char>)>, k: int, v: Seq<char>) -> Seq<
    (int, Seq<char>),
> {
    if exists|j: int| 0 <= j < meta.len() && (#[trigger] meta[j]).0 == k {
        let j = choose|j: int| 0 <= j < meta.len() && (#[trigger] meta[j]).0 == k;
        meta.update(j, (k, v))
    } else {
        meta.push((k, v))
    }
}

// --- word regime ---

/// The label of the word-regime leaf for the suffix of `item` at `i`.
pub open spec fn word_leaf_label(item: Seq<char>, i: int, cnt: int) -> Seq<char> {
    item.skip(i) + term_tag(cnt)
}

/// The unique key that leaf is stored under, salted with the ordinal and
/// the sibling count at insertion.
pub open spec fn word_leaf_key(item: Seq<char>, i: int, cnt: int, nkids: int) -> Seq<char> {
    word_leaf_label(item, i, cnt) + seq!['_'] + dec_digits(cnt) + seq!['_'] + dec_digits(nkids)
}

/// Insert the leaves for the character suffixes of `item` from `i` on.
pub open spec fn store_word_suffixes(cs: Seq<ChildAbs>, item: Seq<char>, i: int, cnt: int) -> Seq<
    ChildAbs,
>
    decreases item.len() - i,
{
    if i < 0 || i >= item.len() {
        cs
    } else {
        let c = ChildAbs {
            key: word_leaf_key(item, i, cnt, cs.len() as int),
            value: word_leaf_label(item, i, cnt),
            count: cnt,
            terminal: true,
            st: SearchScopeSuffix::Words,
            kids: Seq::empty(),
        };
        store_word_suffixes(children_put(cs, c), item, i + 1, cnt)
    }
}

/// Insert all suffixes of the items from `idx` on.
pub open spec fn store_words_items(cs: Seq<ChildAbs>, items: Seq<Seq<char>>, idx: int, cnt: int) -> Seq<
    ChildAbs,
>
    decreases items.len() - idx,
{
    if idx < 0 || idx >= items.len() {
        cs
    } else {
        store_words_items(store_word_suffixes(cs, items[idx], 0, cnt), items, idx + 1, cnt)
    }
}

// --- line regime ---

/// The word suffix starting at `i`, with the terminator tag attached to
/// its last word (or alone, past the end).
pub open spec fn sw_words(words: Seq<Seq<char>>, i: int, cnt: int) -> Seq<Seq<char>> {
    if i < words.len() {
        words.subrange(i, words.len() - 1).push(words.last() + term_tag(cnt))
    } else {
        seq![term_tag(cnt)]
    }
}

/// The length of the longest common prefix of the two word lists.
pub open spec fn common_len(a: Seq<Seq<char>>, b: Seq<Seq<char>>) -> int
    decreases a.len(),
{
    if a.len() == 0 || b.len() == 0 || a[0] != b[0] {
        0
    } else {
        1 + common_len(a.skip(1), b.skip(1))
    }
}

/// Basic bounds and agreement of `common_len`.
pub proof fn lemma_common_len(a: Seq<Seq<char>>, b: Seq<Seq<char>>)
    ensures
        0 <= common_len(a, b) <= a.len(),
        common_len(a, b) <= b.len(),
        forall|x: int| 0 <= x < common_len(a, b) ==> a[x] == b[x],
        common_len(a, b) < a.len() && common_len(a, b) < b.len() ==> a[common_len(a, b)]
            != b[common_len(a, b)],
    decreases a.len(),
{
    if a.len() != 0 && b.len() != 0 && a[0] == b[0] {
        lemma_common_len(a.skip(1), b.skip(1));
        let m = common_len(a, b);
        assert(forall|x: int| 1 <= x < m ==> a[x] == a.skip(1)[x - 1] && b[x] == b.skip(1)[x - 1]);
    }
}

/// Insert one word suffix of the line, splitting at the longest common
/// word prefix when its first word is already a child key.
pub open spec fn store_line_suffix(cs: Seq<ChildAbs>, words: Seq<Seq<char>>, i: int, cnt: int) -> Seq<
    ChildAbs,
> {
    store_line_sw(cs, sw_words(words, i, cnt), cnt)
}

/// Insert the built word suffix `sw` (terminator already attached).
pub open spec fn store_line_sw(cs: Seq<ChildAbs>, sw: Seq<Seq<char>>, cnt: int) -> Seq<ChildAbs> {
    if exists|j: int| 0 <= j < cs.len() && (#[trigger] cs[j]).key == sw[0] {
        let j = choose|j: int| 0 <= j < cs.len() && (#[trigger] cs[j]).key == sw[0];
        let child = cs[j];
        let cw = split_sp(child.value);
        let m = common_len(sw, cw);
        let kids1 = if m < sw.len() {
            kids_put(
                child.kids,
                LeafAbs {
                    key: sw[m],
                    value: join_spaced(sw.skip(m)),
                    count: cnt,
                    terminal: true,
                    st: SearchScopeSuffix::Lines,
                },
            )
        } else {
            child.kids
        };
        let crem = join_spaced(cw.skip(m));
        let kids2 = if m < cw.len() && crem.len() > 0 {
            kids_put(
                kids1,
                LeafAbs {
                    key: cw[m],
                    value: crem,
                    count: cnt - 1,
                    terminal: true,
                    st: SearchScopeSuffix::Lines,
                },
            )
        } else {
            kids1
        };
        cs.update(
            j,
            ChildAbs {
                key: child.key,
                value: join_spaced(sw.take(m)),
                count: child.count,
                terminal: false,
                st: child.st,
                kids: kids2,
            },
        )
    } else {
        cs.push(
            ChildAbs {
                key: sw[0],
                value: join_spaced(sw),
                count: cnt,
                terminal: true,
                st: SearchScopeSuffix::Lines,
                kids: Seq::empty(),
            },
        )
    }
}

/// Insert the word suffixes of the line from start index `i` through the
/// one-past-the-end suffix.
pub open spec fn store_line_from(cs: Seq<ChildAbs>, words: Seq<Seq<char>>, i: int, cnt: int) -> Seq<
    ChildAbs,
>
    decreases words.len() + 1 - i,
{
    if i < 0 || i > words.len() {
        cs
    } else {
        store_line_from(store_line_suffix(cs, words, i, cnt), words, i + 1, cnt)
    }
}

/// Keys are distinct at the child level and within each child's leaves.
pub open spec fn cs_wf(cs: Seq<ChildAbs>) -> bool {
    &&& (forall|i: int, j: int|
        0 <= i < j < cs.len() ==> (#[trigger] cs[i]).key != (#[trigger] cs[j]).key)
    &&& (forall|i: int, x: int, y: int|
        0 <= i < cs.len() && 0 <= x < y < cs[i].kids.len() ==> (#[trigger] cs[i].kids[x]).key != (
        #[trigger] cs[i].kids[y]).key)
}

/// Every node ordinal lies within the insertion counter.
pub open spec fn counts_ok(cs: Seq<ChildAbs>, c: int) -> bool {
    &&& (forall|i: int| 0 <= i < cs.len() ==> 0 <= (#[trigger] cs[i]).count <= c)
    &&& (forall|i: int, x: int|
        0 <= i < cs.len() && 0 <= x < cs[i].kids.len() ==> 0 <= (#[trigger] cs[i].kids[x]).count
            <= c)
}

/// A put yields the new child or one already present.
proof fn lemma_children_put_elems(cs: Seq<ChildAbs>, c: ChildAbs)
    ensures
        forall|i: int|
            0 <= i < children_put(cs, c).len() ==> (#[trigger] children_put(cs, c)[i]) == c || (i
                < cs.len() && children_put(cs, c)[i] == cs[i]),
{
}

/// A put yields the new leaf or one already present.
proof fn lemma_kids_put_elems(ks: Seq<LeafAbs>, l: LeafAbs)
    ensures
        forall|i: int|
            0 <= i < kids_put(ks, l).len() ==> (#[trigger] kids_put(ks, l)[i]) == l || (i
                < ks.len() && kids_put(ks, l)[i] == ks[i]),
{
}

/// A put yields the new entry or one already present.
proof fn lemma_meta_put_elems(meta: Seq<(int, Seq<char>)>, k: int, v: Seq<char>)
    ensures
        forall|i: int|
            0 <= i < meta_put(meta, k, v).len() ==> (#[trigger] meta_put(meta, k, v)[i]) == (k, v)
                || (i < meta.len() && meta_put(meta, k, v)[i] == meta[i]),
{
}

/// Word-regime suffix insertion keeps every ordinal within the counter.
proof fn lemma_word_suffixes_counts(cs: Seq<ChildAbs>, item: Seq<char>, i: int, cnt: int)
    requires
        counts_ok(cs, cnt),
        cnt >= 0,
    ensures
        counts_ok(store_word_suffixes(cs, item, i, cnt), cnt),
    decreases item.len() - i,
{
    if 0 <= i < item.len() {
        let c = ChildAbs {
            key: word_leaf_key(item, i, cnt, cs.len() as int),
            value: word_leaf_label(item, i, cnt),
            count: cnt,
            terminal: true,
            st: SearchScopeSuffix::Words,
            kids: Seq::empty(),
        };
        lemma_children_put_elems(cs, c);
        assert(counts_ok(children_put(cs, c), cnt));
        lemma_word_suffixes_counts(children_put(cs, c), item, i + 1, cnt);
    }
}

/// Storing word items keeps every ordinal within the counter.
proof fn lemma_words_items_counts(cs: Seq<ChildAbs>, items: Seq<Seq<char>>, idx: int, cnt: int)
    requires
        counts_ok(cs, cnt),
        cnt >= 0,
    ensures
        counts_ok(store_words_items(cs, items, idx, cnt), cnt),
    decreases items.len() - idx,
{
    if 0 <= idx < items.len() {
        lemma_word_suffixes_counts(cs, items[idx], 0, cnt);
        lemma_words_items_counts(store_word_suffixes(cs, items[idx], 0, cnt), items, idx + 1, cnt);
    }
}

/// Inserting one line suffix keeps every ordinal within the counter.
proof fn lemma_line_sw_counts(cs: Seq<ChildAbs>, sw: Seq<Seq<char>>, cnt: int)
    requires
        counts_ok(cs, cnt),
        cnt >= 1,
        sw.len() >= 1,
    ensures
        counts_ok(store_line_sw(cs, sw, cnt), cnt),
{
    let r = store_line_sw(cs, sw, cnt);
    if exists|j: int| 0 <= j < cs.len() && (#[trigger] cs[j]).key == sw[0] {
        let j = choose|j: int| 0 <= j < cs.len() && (#[trigger] cs[j]).key == sw[0];
        let child = cs[j];
        let cw = split_sp(child.value);
        let m = common_len(sw, cw);
        let kids1 = if m < sw.len() {
            kids_put(
                child.kids,
                LeafAbs {
                    key: sw[m],
                    value: join_spaced(sw.skip(m)),
                    count: cnt,
                    terminal: true,
                    st: SearchScopeSuffix::Lines,
                },
            )
        } else {
            child.kids
        };
        if m < sw.len() {
            lemma_kids_put_elems(
                child.kids,
                LeafAbs {
                    key: sw[m],
                    value: join_spaced(sw.skip(m)),
                    count: cnt,
                    terminal: true,
                    st: SearchScopeSuffix::Lines,
                },
            );
        }
        assert(forall|x: int| 0 <= x < kids1.len() ==> 0 <= (#[trigger] kids1[x]).count <= cnt);
        let crem = join_spaced(cw.skip(m));
        if m < cw.len() && crem.len() > 0 {
            lemma_kids_put_elems(
                kids1,
                LeafAbs {
                    key: cw[m],
                    value: crem,
                    count: cnt - 1,
                    terminal: true,
                    st: SearchScopeSuffix::Lines,
                },
            );
        }
        assert(forall|i: int|
            0 <= i < r.len() && i != j ==> (#[trigger] r[i]) == cs[i]);
    } else {
        assert(forall|i: int| 0 <= i < cs.len() ==> (#[trigger] r[i]) == cs[i]);
        assert(r[cs.len() as int].count == cnt);
    }
}

/// Storing a line keeps every ordinal within the counter.
proof fn lemma_line_from_counts(cs: Seq<ChildAbs>, words: Seq<Seq<char>>, i: int, cnt: int)
    requires
        counts_ok(cs, cnt),
        cnt >= 1,
    ensures
        counts_ok(store_line_from(cs, words, i, cnt), cnt),
    decreases words.len() + 1 - i,
{
    if 0 <= i <= words.len() {
        lemma_line_sw_counts(cs, sw_words(words, i, cnt), cnt);
        lemma_line_from_counts(store_line_suffix(cs, words, i, cnt), words, i + 1, cnt);
    }
}

/// Every key is the first word of its node's label, at both levels.
pub open spec fn cs_line_wf(cs: Seq<ChildAbs>) -> bool {
    &&& (forall|i: int|
        0 <= i < cs.len() ==> (#[trigger] cs[i]).key == first_seg(cs[i].value, ' '))
    &&& (forall|i: int, x: int|
        0 <= i < cs.len() && 0 <= x < cs[i].kids.len() ==> (#[trigger] cs[i].kids[x]).key
            == first_seg(cs[i].kids[x].value, ' '))
}

/// `children_put` keeps keys distinct and reuses existing keys and kids.
proof fn lemma_children_put_wf(cs: Seq<ChildAbs>, c: ChildAbs)
    requires
        cs_wf(cs),
        forall|x: int, y: int|
            0 <= x < y < c.kids.len() ==> (#[trigger] c.kids[x]).key != (#[trigger] c.kids[y]).key,
    ensures
        cs_wf(children_put(cs, c)),
        children_put(cs, c).len() >= cs.len(),
        forall|i: int|
            0 <= i < children_put(cs, c).len() ==> (#[trigger] children_put(cs, c)[i]) == c || (i
                < cs.len() && children_put(cs, c)[i] == cs[i]),
{
    let r = children_put(cs, c);
    if exists|j: int| 0 <= j < cs.len() && (#[trigger] cs[j]).key == c.key {
        let j = choose|j: int| 0 <= j < cs.len() && (#[trigger] cs[j]).key == c.key;
        assert(r == cs.update(j, c));
        assert forall|i1: int, j1: int| 0 <= i1 < j1 < r.len() implies (#[trigger] r[i1]).key != (
        #[trigger] r[j1]).key by {
            if i1 != j && j1 != j {
                assert(r[i1] == cs[i1] && r[j1] == cs[j1]);
            } else if i1 == j {
                assert(r[j1] == cs[j1]);
                assert(cs[j1].key != cs[j].key);
            } else {
                assert(r[i1] == cs[i1]);
                assert(cs[i1].key != cs[j].key);
            }
        }
    } else {
        assert(r == cs.push(c));
        assert forall|i1: int, j1: int| 0 <= i1 < j1 < r.len() implies (#[trigger] r[i1]).key != (
        #[trigger] r[j1]).key by {
            if j1 == cs.len() as int {
                assert(r[i1] == cs[i1]);
                assert(cs[i1].key != c.key);
            } else {
                assert(r[i1] == cs[i1] && r[j1] == cs[j1]);
            }
        }
    }
}

/// `kids_put` keeps leaf keys distinct.
proof fn lemma_kids_put_wf(ks: Seq<LeafAbs>, l: LeafAbs)
    requires
        forall|x: int, y: int|
            0 <= x < y < ks.len() ==> (#[trigger] ks[x]).key != (#[trigger] ks[y]).key,
    ensures
        forall|x: int, y: int|
            0 <= x < y < kids_put(ks, l).len() ==> (#[trigger] kids_put(ks, l)[x]).key != (
            #[trigger] kids_put(ks, l)[y]).key,
        kids_put(ks, l).len() >= ks.len(),
        forall|x: int|
            0 <= x < kids_put(ks, l).len() ==> (#[trigger] kids_put(ks, l)[x]) == l || (x
                < ks.len() && kids_put(ks, l)[x] == ks[x]),
{
    let r = kids_put(ks, l);
    if exists|j: int| 0 <= j < ks.len() && (#[trigger] ks[j]).key == l.key {
        let j = choose|j: int| 0 <= j < ks.len() && (#[trigger] ks[j]).key == l.key;
        assert(r == ks.update(j, l));
        assert forall|x: int, y: int| 0 <= x < y < r.len() implies (#[trigger] r[x]).key != (
        #[trigger] r[y]).key by {
            if x != j && y != j {
                assert(r[x] == ks[x] && r[y] == ks[y]);
            } else if x == j {
                assert(r[y] == ks[y]);
                assert(ks[y].key != ks[j].key);
            } else {
                assert(r[x] == ks[x]);
                assert(ks[x].key != ks[j].key);
            }
        }
    } else {
        assert(r == ks.push(l));
        assert forall|x: int, y: int| 0 <= x < y < r.len() implies (#[trigger] r[x]).key != (
        #[trigger] r[y]).key by {
            if y == ks.len() as int {
                assert(r[x] == ks[x]);
                assert(ks[x].key != l.key);
            } else {
                assert(r[x] == ks[x] && r[y] == ks[y]);
            }
        }
    }
}

/// `meta_put` keeps ordinals distinct, and a second write under the same
/// ordinal wins.
proof fn lemma_meta_put_wf(meta: Seq<(int, Seq<char>)>, k: int, v: Seq<char>)
    requires
        forall|i: int, j: int|
            0 <= i < j < meta.len() ==> (#[trigger] meta[i]).0 != (#[trigger] meta[j]).0,
    ensures
        forall|i: int, j: int|
            0 <= i < j < meta_put(meta, k, v).len() ==> (#[trigger] meta_put(meta, k, v)[i]).0 != (
            #[trigger] meta_put(meta, k, v)[j]).0,
        meta_put(meta_put(meta, k, v), k, v) == meta_put(meta, k, v),
        forall|v2: Seq<char>| meta_put(#[trigger] meta_put(meta, k, v), k, v2) == meta_put(
            meta,
            k,
            v2,
        ),
{
    let r = meta_put(meta, k, v);
    if exists|j: int| 0 <= j < meta.len() && (#[trigger] meta[j]).0 == k {
        let j = choose|j: int| 0 <= j < meta.len() && (#[trigger] meta[j]).0 == k;
        assert(r == meta.update(j, (k, v)));
        assert forall|i1: int, j1: int| 0 <= i1 < j1 < r.len() implies (#[trigger] r[i1]).0 != (
        #[trigger] r[j1]).0 by {
            if i1 != j && j1 != j {
                assert(r[i1] == meta[i1] && r[j1] == meta[j1]);
            } else if i1 == j {
                assert(r[j1] == meta[j1]);
                assert(meta[j1].0 != meta[j].0);
            } else {
                assert(r[i1] == meta[i1]);
                assert(meta[i1].0 != meta[j].0);
            }
        }
        assert forall|v2: Seq<char>| meta_put(#[trigger] meta_put(meta, k, v), k, v2) == meta_put(
            meta,
            k,
            v2,
        ) by {
            assert(r[j].0 == k);
            let j2 = choose|j2: int| 0 <= j2 < r.len() && (#[trigger] r[j2]).0 == k;
            assert(j2 == j) by {
                if j2 != j {
                    assert(r[j2] == meta[j2]);
                    assert(meta[j2].0 != meta[j].0);
                }
            }
            assert(meta_put(r, k, v2) =~= meta_put(meta, k, v2));
        }
    } else {
        let m = meta.len() as int;
        assert(r == meta.push((k, v)));
        assert forall|i1: int, j1: int| 0 <= i1 < j1 < r.len() implies (#[trigger] r[i1]).0 != (
        #[trigger] r[j1]).0 by {
            if j1 == m {
                assert(r[i1] == meta[i1]);
                assert(meta[i1].0 != k);
            } else {
                assert(r[i1] == meta[i1] && r[j1] == meta[j1]);
            }
        }
        assert forall|v2: Seq<char>| meta_put(#[trigger] meta_put(meta, k, v), k, v2) == meta_put(
            meta,
            k,
            v2,
        ) by {
            assert(r[m].0 == k);
            let j2 = choose|j2: int| 0 <= j2 < r.len() && (#[trigger] r[j2]).0 == k;
            assert(j2 == m) by {
                if j2 != m {
                    assert(r[j2] == meta[j2]);
                }
            }
            assert(meta_put(r, k, v2) =~= meta_put(meta, k, v2));
        }
    }
}

/// Every child and grandchild below the root level is bare: no metadata,
/// and grandchildren carry no children of their own.
pub closed spec fn shape_ok(cs: Seq<(String, SuffixTree)>) -> bool {
    &&& (forall|i: int| 0 <= i < cs.len() ==> (#[trigger] cs[i]).1.metadata@.len() == 0)
    &&& (forall|i: int, x: int|
        0 <= i < cs.len() && 0 <= x < cs[i].1.children@.len() ==> (
        #[trigger] cs[i].1.children@[x]).1.children@.len() == 0
            && cs[i].1.children@[x].1.metadata@.len() == 0)
}

/// A leaf node is bare.
pub closed spec fn bare_leaf(t: SuffixTree) -> bool {
    t.children@.len() == 0 && t.metadata@.len() == 0
}

/// The abstraction of one child entry.
pub closed spec fn mk_child_abs(key: Seq<char>, t: SuffixTree) -> ChildAbs {
    ChildAbs {
        key: key,
        value: t.value@,
        count: t.count as int,
        terminal: t.isterminal,
        st: t.search_type,
        kids: leaf_abs_of(t.children@),
    }
}

/// The abstraction of one leaf entry.
pub closed spec fn mk_leaf_abs(key: Seq<char>, t: SuffixTree) -> LeafAbs {
    LeafAbs { key: key, value: t.value@, count: t.count as int, terminal: t.isterminal, st: t.search_type }
}

/// The position of the child stored under `key`, if any.
fn find_child_idx(children: &Vec<(String, SuffixTree)>, key: &str) -> (r: Option<usize>)
    ensures
        r matches Some(j) ==> j < children@.len() && children@[j as int].0@ == key@,
        r is None ==> forall|x: int| 0 <= x < children@.len() ==> (#[trigger] children@[x]).0@
            != key@,
{
    let mut j: usize = 0;
    while j < children.len()
        invariant
            j <= children@.len(),
            forall|x: int| 0 <= x < j ==> (#[trigger] children@[x]).0@ != key@,
        decreases children@.len() - j,
    {
        if str_eq(children[j].0.as_str(), key) {
            return Some(j);
        }
        j = j + 1;
    }
    None
}

/// Replace or append the child entry `(key, node)`.
fn put_child(children: &mut Vec<(String, SuffixTree)>, key: String, node: SuffixTree)
    requires
        node.metadata@.len() == 0,
        forall|x: int| 0 <= x < node.children@.len() ==> bare_leaf((#[trigger] node.children@[x]).1),
        shape_ok(old(children)@),
        cs_wf(root_abs_of(old(children)@)),
    ensures
        root_abs_of(final(children)@) == children_put(
            root_abs_of(old(children)@),
            mk_child_abs(key@, node),
        ),
        shape_ok(final(children)@),
{
    let ghost pre = root_abs_of(old(children)@);
    let ghost c = mk_child_abs(key@, node);
    let hit = find_child_idx(children, key.as_str());
    if let Some(j) = hit {
        proof {
            assert(pre[j as int].key == key@);
        }
        let _prior = children.remove(j);
        children.insert(j, (key, node));
        proof {
            assert(exists|x: int| 0 <= x < pre.len() && (#[trigger] pre[x]).key == c.key);
            let cj = choose|x: int| 0 <= x < pre.len() && (#[trigger] pre[x]).key == c.key;
            assert(cj == j as int) by {
                if cj != j as int {
                    assert(pre[cj].key != pre[j as int].key);
                }
            }
            assert(root_abs_of(children@) =~~= pre.update(j as int, c));
            assert(children_put(pre, c) == pre.update(cj, c));
        }
    } else {
        children.push((key, node));
        proof {
            assert(root_abs_of(children@) =~~= pre.push(c));
            assert(forall|x: int| 0 <= x < pre.len() ==> (#[trigger] pre[x]).key != c.key);
            assert(children_put(pre, c) == pre.push(c));
        }
    }
}

/// Replace or append the leaf entry `(key, node)`.
fn put_kid(children: &mut Vec<(String, SuffixTree)>, key: String, node: SuffixTree)
    requires
        bare_leaf(node),
        forall|x: int| 0 <= x < old(children)@.len() ==> bare_leaf((#[trigger] old(children)@[x]).1),
        forall|x: int, y: int|
            0 <= x < y < leaf_abs_of(old(children)@).len() ==> (#[trigger] leaf_abs_of(
                old(children)@,
            )[x]).key != (#[trigger] leaf_abs_of(old(children)@)[y]).key,
    ensures
        leaf_abs_of(final(children)@) == kids_put(
            leaf_abs_of(old(children)@),
            mk_leaf_abs(key@, node),
        ),
        forall|x: int| 0 <= x < final(children)@.len() ==> bare_leaf((#[trigger] final(children)@[x]).1),
{
    let ghost pre = leaf_abs_of(old(children)@);
    let ghost l = mk_leaf_abs(key@, node);
    let hit = find_child_idx(children, key.as_str());
    if let Some(j) = hit {
        proof {
            assert(pre[j as int].key == key@);
        }
        let _prior = children.remove(j);
        children.insert(j, (key, node));
        proof {
            assert(exists|x: int| 0 <= x < pre.len() && (#[trigger] pre[x]).key == l.key);
            let cj = choose|x: int| 0 <= x < pre.len() && (#[trigger] pre[x]).key == l.key;
            assert(cj == j as int) by {
                if cj != j as int {
                    assert(pre[cj].key != pre[j as int].key);
                }
            }
            assert(leaf_abs_of(children@) =~~= pre.update(j as int, l));
            assert(kids_put(pre, l) == pre.update(cj, l));
        }
    } else {
        children.push((key, node));
        proof {
            assert(leaf_abs_of(children@) =~~= pre.push(l));
            assert(forall|x: int| 0 <= x < pre.len() ==> (#[trigger] pre[x]).key != l.key);
            assert(kids_put(pre, l) == pre.push(l));
        }
    }
}

/// The ordinal table, abstractly.
pub closed spec fn meta_abs_of(meta: Seq<(usize, String)>) -> Seq<(int, Seq<char>)> {
    meta.map(|i: int, e: (usize, String)| (e.0 as int, e.1@))
}

/// Record `v` under ordinal `k` in the table.
fn meta_put_exec(meta: &mut Vec<(usize, String)>, k: usize, v: String)
    requires
        forall|i: int, j: int|
            0 <= i < j < meta_abs_of(old(meta)@).len() ==> (#[trigger] meta_abs_of(old(meta)@)[i]).0
                != (#[trigger] meta_abs_of(old(meta)@)[j]).0,
    ensures
        meta_abs_of(final(meta)@) == meta_put(meta_abs_of(old(meta)@), k as int, v@),
{
    let ghost pre = meta_abs_of(old(meta)@);
    let mut j: usize = 0;
    let n = meta.len();
    let mut hit: Option<usize> = None;
    while j < n
        invariant
            n == meta@.len(),
            j <= n,
            *meta == *old(meta),
            pre == meta_abs_of(meta@),
            hit is None ==> forall|x: int| 0 <= x < j ==> (#[trigger] pre[x]).0 != k as int,
            hit matches Some(h) ==> h < n && pre[h as int].0 == k as int,
        decreases n - j,
    {
        if meta[j].0 == k {
            proof {
                assert(pre[j as int].0 == k as int);
            }
            hit = Some(j);
            j = n;
        } else {
            proof {
                assert(pre[j as int].0 != k as int);
            }
            j = j + 1;
        }
    }
    if let Some(h) = hit {
        let _prior = meta.remove(h);
        meta.insert(h, (k, v));
        proof {
            assert(exists|x: int| 0 <= x < pre.len() && (#[trigger] pre[x]).0 == k as int);
            let cj = choose|x: int| 0 <= x < pre.len() && (#[trigger] pre[x]).0 == k as int;
            assert(cj == h as int) by {
                if cj != h as int {
                    assert(pre[cj].0 != pre[h as int].0);
                }
            }
            assert(meta_abs_of(meta@) =~~= pre.update(h as int, (k as int, v@)));
            assert(meta_put(pre, k as int, v@) == pre.update(cj, (k as int, v@)));
        }
    } else {
        meta.push((k, v));
        proof {
            assert(meta_abs_of(meta@) =~~= pre.push((k as int, v@)));
            assert(forall|x: int| 0 <= x < pre.len() ==> (#[trigger] pre[x]).0 != k as int);
            assert(meta_put(pre, k as int, v@) == pre.push((k as int, v@)));
        }
    }
}

/// The terminator tag `$` + ordinal, as a string.
fn tag_string(cnt: usize) -> (r: String)
    ensures
        r@ == term_tag(cnt as int),
{
    let mut r = String::new();
    push_char(&mut r, '$');
    let d = dec_string(cnt);
    r.append(d.as_str());
    proof {
        assert(r@ =~= term_tag(cnt as int));
    }
    r
}

/// The label of the word-regime leaf for the suffix of `ic@` at `i`.
fn word_label(ic: &Vec<char>, i: usize, cnt: usize) -> (r: String)
    requires
        i <= ic@.len(),
    ensures
        r@ == word_leaf_label(ic@, i as int, cnt as int),
{
    let mut v: Vec<char> = Vec::new();
    let mut x: usize = i;
    while x < ic.len()
        invariant
            i <= x <= ic@.len(),
            v@ == ic@.subrange(i as int, x as int),
        decreases ic@.len() - x,
    {
        v.push(ic[x]);
        proof {
            assert(v@ =~= ic@.subrange(i as int, x + 1));
        }
        x = x + 1;
    }
    let mut r = string_from_chars(&v);
    let t = tag_string(cnt);
    r.append(t.as_str());
    proof {
        assert(ic@.subrange(i as int, ic@.len() as int) =~= ic@.skip(i as int));
        assert(r@ =~= word_leaf_label(ic@, i as int, cnt as int));
    }
    r
}

/// The salted key the word-regime leaf is stored under.
fn word_key(label: &str, cnt: usize, nkids: usize) -> (r: String)
    ensures
        r@ == label@ + seq!['_'] + dec_digits(cnt as int) + seq!['_'] + dec_digits(nkids as int),
{
    let mut r = label.to_owned();
    push_char(&mut r, '_');
    let d1 = dec_string(cnt);
    r.append(d1.as_str());
    push_char(&mut r, '_');
    let d2 = dec_string(nkids);
    r.append(d2.as_str());
    proof {
        assert(r@ =~= label@ + seq!['_'] + dec_digits(cnt as int) + seq!['_'] + dec_digits(
            nkids as int,
        ));
    }
    r
}

/// The built word suffix of the line at start `i`, terminator attached.
fn build_sw(words: &Vec<String>, i: usize, cnt: usize) -> (sw: Vec<String>)
    requires
        i <= words@.len(),
    ensures
        sw.deep_view() == sw_words(words.deep_view(), i as int, cnt as int),
        sw@.len() >= 1,
        (forall|x: int|
            0 <= x < words.deep_view().len() ==> !(#[trigger] words.deep_view()[x]).contains(' '))
            ==> (forall|x: int| 0 <= x < sw.deep_view().len() ==> !(#[trigger] sw.deep_view()[x]).contains(
            ' ')),
{
    let ghost wv = words.deep_view();
    let n = words.len();
    let mut sw: Vec<String> = Vec::new();
    proof {
        assert(wv.len() == words@.len());
        crate::strutil::lemma_dec_digits_no_space(cnt as int);
        assert(!term_tag(cnt as int).contains(' ')) by {
            let t = term_tag(cnt as int);
            assert forall|y: int| 0 <= y < t.len() implies t[y] != ' ' by {
                if y >= 1 {
                    assert(t[y] == dec_digits(cnt as int)[y - 1]);
                    if t[y] == ' ' {
                        assert(dec_digits(cnt as int).contains(' '));
                    }
                }
            }
            if t.contains(' ') {
                let y = choose|y: int| 0 <= y < t.len() && t[y] == ' ';
            }
        }
    }
    if i == n {
        let t = tag_string(cnt);
        sw.push(t);
        proof {
            assert(sw.deep_view() =~= sw_words(wv, i as int, cnt as int));
            assert forall|x: int| 0 <= x < sw.deep_view().len() implies !(
            #[trigger] sw.deep_view()[x]).contains(' ') by {
                assert(sw.deep_view()[x] == term_tag(cnt as int));
            }
        }
        return sw;
    }
    let mut x: usize = i;
    while x + 1 < n
        invariant
            i <= x < n,
            n == wv.len(),
            wv == words.deep_view(),
            sw.deep_view() == wv.subrange(i as int, x as int),
        decreases n - x,
    {
        let ghost prev = sw.deep_view();
        let w = words[x].clone();
        sw.push(w);
        proof {
            assert(w@ == wv[x as int]);
            assert(sw.deep_view() =~= prev.push(w@));
            assert(sw.deep_view() =~= wv.subrange(i as int, x + 1));
        }
        x = x + 1;
    }
    let ghost prev = sw.deep_view();
    let mut lastw = words[n - 1].clone();
    let t = tag_string(cnt);
    lastw.append(t.as_str());
    sw.push(lastw);
    proof {
        assert(x as int == n - 1);
        assert(prev == wv.subrange(i as int, n - 1));
        assert(sw.deep_view() =~= prev.push(wv[n - 1] + term_tag(cnt as int)));
        assert(wv.last() == wv[n - 1]);
        assert(sw.deep_view() =~= sw_words(wv, i as int, cnt as int));
        if forall|y: int| 0 <= y < wv.len() ==> !(#[trigger] wv[y]).contains(' ') {
            assert forall|y: int| 0 <= y < sw.deep_view().len() implies !(
            #[trigger] sw.deep_view()[y]).contains(' ') by {
                let e = sw.deep_view()[y];
                if y < sw.deep_view().len() - 1 {
                    assert(e == wv[i + y]);
                } else {
                    assert(e == wv[n - 1] + term_tag(cnt as int));
                    assert(!wv[n - 1].contains(' '));
                    if e.contains(' ') {
                        let z = choose|z: int| 0 <= z < e.len() && e[z] == ' ';
                        if z < wv[n - 1].len() {
                            assert(wv[n - 1][z] == ' ');
                            assert(wv[n - 1].contains(' '));
                        } else {
                            assert(term_tag(cnt as int)[z - wv[n - 1].len()] == ' ');
                            assert(term_tag(cnt as int).contains(' '));
                        }
                    }
                }
            }
        }
    }
    sw
}

/// The exact longest common prefix length of two word lists.
proof fn lemma_common_len_exact(a: Seq<Seq<char>>, b: Seq<Seq<char>>, k: int)
    requires
        0 <= k <= a.len(),
        k <= b.len(),
        forall|y: int| 0 <= y < k ==> a[y] == b[y],
        k < a.len() && k < b.len() ==> a[k] != b[k],
    ensures
        common_len(a, b) == k,
    decreases a.len(),
{
    if a.len() == 0 || b.len() == 0 || a[0] != b[0] {
    } else {
        assert(forall|y: int| 0 <= y < k - 1 ==> a.skip(1)[y] == b.skip(1)[y]);
        lemma_common_len_exact(a.skip(1), b.skip(1), if k == 0 { 0 } else { k - 1 });
        if k == 0 {
            // first elements agree, so the common prefix cannot be empty
            assert(a[0] == b[0]);
            assert(k < a.len() && k < b.len());
            assert(false);
        }
    }
}

/// The longest common prefix length of the two word lists.
fn common_prefix_exec(a: &Vec<String>, b: &Vec<String>) -> (m: usize)
    ensures
        m as int == common_len(a.deep_view(), b.deep_view()),
        m <= a.deep_view().len(),
        m <= b.deep_view().len(),
{
    let ghost av = a.deep_view();
    let ghost bv = b.deep_view();
    let mut x: usize = 0;
    proof {
        assert(av.len() == a@.len());
        assert(bv.len() == b@.len());
    }
    while x < a.len() && x < b.len()
        invariant
            av == a.deep_view(),
            bv == b.deep_view(),
            av.len() == a@.len(),
            bv.len() == b@.len(),
            x <= av.len(),
            x <= bv.len(),
            forall|y: int| 0 <= y < x ==> av[y] == bv[y],
        decreases av.len() - x,
    {
        if !str_eq(a[x].as_str(), b[x].as_str()) {
            proof {
                assert(av[x as int] != bv[x as int]);
                lemma_common_len_exact(av, bv, x as int);
            }
            return x;
        }
        proof {
            assert(av[x as int] == bv[x as int]);
        }
        x = x + 1;
    }
    proof {
        lemma_common_len_exact(av, bv, x as int);
    }
    x
}

/// Insert one built word suffix at the root, splitting the child it
/// collides with at the longest common word prefix.
#[verifier::spinoff_prover]
#[verifier::rlimit(100)]
fn line_put(children: &mut Vec<(String, SuffixTree)>, sw: &Vec<String>, cnt: usize)
    requires
        sw@.len() >= 1,
        cnt >= 1,
        shape_ok(old(children)@),
        cs_wf(root_abs_of(old(children)@)),
        forall|x: int| 0 <= x < sw.deep_view().len() ==> !(#[trigger] sw.deep_view()[x]).contains(
            ' '),
    ensures
        root_abs_of(final(children)@) == store_line_sw(
            root_abs_of(old(children)@),
            sw.deep_view(),
            cnt as int,
        ),
        shape_ok(final(children)@),
        cs_wf(root_abs_of(final(children)@)),
        cs_line_wf(root_abs_of(old(children)@)) ==> cs_line_wf(root_abs_of(final(children)@)),
{
    let ghost pre = root_abs_of(old(children)@);
    let ghost swv = sw.deep_view();
    proof {
        assert(swv.len() == sw@.len());
        assert(swv[0] == sw@[0]@);
    }
    let hit = find_child_idx(children, sw[0].as_str());
    if let Some(j) = hit {
        proof {
            assert(pre[j as int].key == swv[0]);
            assert(exists|x: int| 0 <= x < pre.len() && (#[trigger] pre[x]).key == swv[0]);
            let cj = choose|x: int| 0 <= x < pre.len() && (#[trigger] pre[x]).key == swv[0];
            assert(cj == j as int) by {
                if cj != j as int {
                    assert(pre[cj].key != pre[j as int].key);
                }
            }
        }
        let mut pair = children.remove(j);
        let ghost child0 = pre[j as int];
        proof {
            assert(mk_child_abs(pair.0@, pair.1) == child0);
            assert(leaf_abs_of(pair.1.children@) == child0.kids);
        }
        let cw: Vec<String> = crate::strutil::split_spaced(pair.1.value.as_str());
        let ghost cwv = cw.deep_view();
        proof {
            assert(cwv == split_sp(child0.value));
            crate::strutil::lemma_split_sp_props(child0.value);
            assert(forall|x: int| 0 <= x < cwv.len() ==> !(#[trigger] cwv[x]).contains(' '));
        }
        let m = common_prefix_exec(sw, &cw);
        let ghost mm = m as int;
        proof {
            lemma_common_len(swv, cwv);
        }
        if m < sw.len() {
            let leafv = join_spaced_range(sw, m, sw.len());
            proof {
                assert(swv.subrange(mm, swv.len() as int) =~= swv.skip(mm));
            }
            let leaf = SuffixTree {
                children: Vec::new(),
                isterminal: true,
                value: leafv,
                count: cnt,
                search_type: SearchScopeSuffix::Lines,
                metadata: Vec::new(),
            };
            let ghost leaf_g = leaf;
            let kid_key = sw[m].clone();
            proof {
                assert(kid_key@ == swv[mm]);
            }
            put_kid(&mut pair.1.children, kid_key, leaf);
        }
        let ghost kids1 = leaf_abs_of(pair.1.children@);
        let crem = join_spaced_range(&cw, m, cw.len());
        proof {
            assert(cwv.subrange(mm, cwv.len() as int) =~= cwv.skip(mm));
            assert(crem@ == join_spaced(cwv.skip(mm)));
        }
        if m < cw.len() && !crem.as_str().is_empty() {
            let kid_key2 = cw[m].clone();
            proof {
                assert(kid_key2@ == cwv[mm]);
            }
            let leaf2 = SuffixTree {
                children: Vec::new(),
                isterminal: true,
                value: crem,
                count: cnt - 1,
                search_type: SearchScopeSuffix::Lines,
                metadata: Vec::new(),
            };
            put_kid(&mut pair.1.children, kid_key2, leaf2);
        }
        let newv = join_spaced_range(sw, 0, m);
        proof {
            assert(swv.subrange(0, mm) =~= swv.take(mm));
        }
        pair.1.value = newv;
        pair.1.isterminal = false;
        let ghost pair_g = pair;
        children.insert(j, pair);
        proof {
            let post = root_abs_of(children@);
            let specr = store_line_sw(pre, swv, cnt as int);
            let newc = mk_child_abs(pair_g.0@, pair_g.1);
            assert(post =~~= pre.update(j as int, newc));
            // the specification's split yields the same child
            let child = pre[j as int];
            let cws = split_sp(child.value);
            let ms = common_len(swv, cws);
            assert(cws == cwv && ms == mm);
            let kids1s = if ms < swv.len() {
                kids_put(
                    child.kids,
                    LeafAbs {
                        key: swv[ms],
                        value: join_spaced(swv.skip(ms)),
                        count: cnt as int,
                        terminal: true,
                        st: SearchScopeSuffix::Lines,
                    },
                )
            } else {
                child.kids
            };
            assert(kids1 == kids1s);
            let crems = join_spaced(cws.skip(ms));
            let kids2s = if ms < cws.len() && crems.len() > 0 {
                kids_put(
                    kids1s,
                    LeafAbs {
                        key: cws[ms],
                        value: crems,
                        count: cnt as int - 1,
                        terminal: true,
                        st: SearchScopeSuffix::Lines,
                    },
                )
            } else {
                kids1s
            };
            assert(leaf_abs_of(pair_g.1.children@) == kids2s);
            assert(newc == ChildAbs {
                key: child.key,
                value: join_spaced(swv.take(ms)),
                count: child.count,
                terminal: false,
                st: child.st,
                kids: kids2s,
            });
            assert(post == specr);
            // keys are unchanged, kids stay distinct
            assert(cs_wf(post)) by {
                if mm < swv.len() {
                    lemma_kids_put_wf(
                        child.kids,
                        LeafAbs {
                            key: swv[mm],
                            value: join_spaced(swv.skip(mm)),
                            count: cnt as int,
                            terminal: true,
                            st: SearchScopeSuffix::Lines,
                        },
                    );
                }
                if mm < cwv.len() && crems.len() > 0 {
                    lemma_kids_put_wf(
                        kids1s,
                        LeafAbs {
                            key: cwv[mm],
                            value: crems,
                            count: cnt as int - 1,
                            terminal: true,
                            st: SearchScopeSuffix::Lines,
                        },
                    );
                }
                assert(forall|i1: int|
                    0 <= i1 < post.len() && i1 != j as int ==> (#[trigger] post[i1]) == pre[i1]);
                assert(post[j as int].key == pre[j as int].key);
            }
            // the line discipline survives the split
            if cs_line_wf(pre) {
                assert(cs_line_wf(post)) by {
                    assert(child.key == first_seg(child.value, ' '));
                    crate::strutil::lemma_split_sp_props(child.value);
                    assert(cws[0] == first_seg(child.value, ' '));
                    assert(cws[0] == swv[0]);
                    assert(mm >= 1) by {
                        assert(swv[0] == cws[0]);
                        assert(common_len(swv, cws) >= 1);
                    }
                    assert(newc.key == first_seg(newc.value, ' ')) by {
                        assert(swv.take(mm).len() >= 1);
                        assert(forall|y: int|
                            0 <= y < swv.take(mm).len() ==> !(#[trigger] swv.take(mm)[y]).contains(
                                ' '));
                        crate::strutil::lemma_first_word_of_join(swv.take(mm));
                        assert(swv.take(mm)[0] == swv[0]);
                    }
                    if mm < swv.len() {
                        assert(forall|y: int|
                            0 <= y < swv.skip(mm).len() ==> !(#[trigger] swv.skip(mm)[y]).contains(
                                ' '));
                        crate::strutil::lemma_first_word_of_join(swv.skip(mm));
                        assert(swv.skip(mm)[0] == swv[mm]);
                    }
                    if mm < cwv.len() && crems.len() > 0 {
                        assert(forall|y: int|
                            0 <= y < cwv.skip(mm).len() ==> !(#[trigger] cwv.skip(mm)[y]).contains(
                                ' '));
                        crate::strutil::lemma_first_word_of_join(cwv.skip(mm));
                        assert(cwv.skip(mm)[0] == cwv[mm]);
                    }
                    assert forall|i1: int, x: int|
                        0 <= i1 < post.len() && 0 <= x < post[i1].kids.len() implies (
                    #[trigger] post[i1].kids[x]).key == first_seg(post[i1].kids[x].value, ' ') by {
                        if i1 != j as int {
                            assert(post[i1] == pre[i1]);
                        } else {
                            assert(post[i1].kids == kids2s);
                        }
                    }
                }
            }
        }
    } else {
        let v = join_spaced_range(sw, 0, sw.len());
        proof {
            assert(swv.subrange(0, swv.len() as int) =~= swv);
        }
        let node = SuffixTree {
            children: Vec::new(),
            isterminal: true,
            value: v,
            count: cnt,
            search_type: SearchScopeSuffix::Lines,
            metadata: Vec::new(),
        };
        let ghost node_g = node;
        let k0 = sw[0].clone();
        children.push((k0, node));
        proof {
            let post = root_abs_of(children@);
            let newc = mk_child_abs(swv[0], node_g);
            assert(post =~~= pre.push(newc));
            assert(forall|x: int| 0 <= x < pre.len() ==> (#[trigger] pre[x]).key != swv[0]);
            assert(store_line_sw(pre, swv, cnt as int) == pre.push(
                ChildAbs {
                    key: swv[0],
                    value: join_spaced(swv),
                    count: cnt as int,
                    terminal: true,
                    st: SearchScopeSuffix::Lines,
                    kids: Seq::empty(),
                },
            ));
            assert(newc.kids =~= Seq::<LeafAbs>::empty());
            assert(cs_wf(post)) by {
                assert(forall|i1: int|
                    0 <= i1 < pre.len() ==> (#[trigger] post[i1]) == pre[i1]);
            }
            if cs_line_wf(pre) {
                assert(cs_line_wf(post)) by {
                    crate::strutil::lemma_first_word_of_join(swv);
                    assert(forall|i1: int|
                        0 <= i1 < pre.len() ==> (#[trigger] post[i1]) == pre[i1]);
                }
            }
        }
    }
}

/// Some table entry carries ordinal `k`.
pub open spec fn meta_has(meta: Seq<(int, Seq<char>)>, k: int) -> bool {
    exists|j: int| 0 <= j < meta.len() && (#[trigger] meta[j]).0 == k
}

/// The token recorded under ordinal `k`.
pub open spec fn meta_val(meta: Seq<(int, Seq<char>)>, k: int) -> Seq<char> {
    let j = choose|j: int| 0 <= j < meta.len() && (#[trigger] meta[j]).0 == k;
    meta[j].1
}

/// The tokens resolved, child by child, from the children whose label
/// (terminator stripped) ends with the term and whose ordinal resolves to
/// a token other than the term itself.
pub open spec fn cand_list(cs: Seq<ChildAbs>, meta: Seq<(int, Seq<char>)>, key: Seq<char>) -> Seq<
    Seq<char>,
>
    decreases cs.len(),
{
    if cs.len() == 0 {
        Seq::empty()
    } else {
        let rest = cand_list(cs.drop_last(), meta, key);
        let c = cs.last();
        if is_suffix_of(key, first_seg(c.value, '$')) && meta_has(meta, c.count) && meta_val(
            meta,
            c.count,
        ) != key {
            rest.push(meta_val(meta, c.count))
        } else {
            rest
        }
    }
}

/// The token recorded under ordinal `k`, if any.
fn meta_get<'a>(meta: &'a Vec<(usize, String)>, k: usize) -> (r: Option<&'a String>)
    requires
        forall|i: int, j: int|
            0 <= i < j < meta_abs_of(meta@).len() ==> (#[trigger] meta_abs_of(meta@)[i]).0 != (
            #[trigger] meta_abs_of(meta@)[j]).0,
    ensures
        r matches Some(v) ==> meta_has(meta_abs_of(meta@), k as int) && v@ == meta_val(
            meta_abs_of(meta@),
            k as int,
        ),
        r is None ==> !meta_has(meta_abs_of(meta@), k as int),
{
    let ghost mv = meta_abs_of(meta@);
    let mut j: usize = 0;
    while j < meta.len()
        invariant
            j <= meta@.len(),
            mv == meta_abs_of(meta@),
            mv.len() == meta@.len(),
            forall|i: int, i2: int|
                0 <= i < i2 < mv.len() ==> (#[trigger] mv[i]).0 != (#[trigger] mv[i2]).0,
            forall|x: int| 0 <= x < j ==> (#[trigger] mv[x]).0 != k as int,
        decreases meta@.len() - j,
    {
        if meta[j].0 == k {
            proof {
                assert(mv[j as int].0 == k as int);
                let cj = choose|x: int| 0 <= x < mv.len() && (#[trigger] mv[x]).0 == k as int;
                assert(cj == j as int) by {
                    if cj != j as int {
                        assert(mv[cj].0 != mv[j as int].0);
                    }
                }
                assert(meta@[j as int].1@ == mv[j as int].1);
            }
            return Some(&meta[j].1);
        }
        proof {
            assert(mv[j as int].0 != k as int);
        }
        j = j + 1;
    }
    proof {
        if meta_has(mv, k as int) {
            let x = choose|x: int| 0 <= x < mv.len() && (#[trigger] mv[x]).0 == k as int;
        }
    }
    None
}

impl SuffixTree {
    /// The children of the root, abstractly.
    pub closed spec fn root_abs(self) -> Seq<ChildAbs> {
        root_abs_of(self.children@)
    }

    /// The ordinal table at the root.
    pub closed spec fn meta_abs(self) -> Seq<(int, Seq<char>)> {
        meta_abs_of(self.metadata@)
    }

    /// The insertion counter.
    pub closed spec fn count_spec(self) -> int {
        self.count as int
    }

    /// The regime the tree stores under.
    pub closed spec fn regime(self) -> SearchScopeSuffix {
        self.search_type
    }

    /// Keys are unique at every level, the tree is at most two levels
    /// deep, only the root carries metadata, every table ordinal lies in
    /// one through the counter, and no node ordinal exceeds the counter.
    /// A node's ordinal can still miss the table: a split hands the
    /// demoted remainder the previous ordinal, which the table may have
    /// overwritten, and such a node resolves to no token.
    pub closed spec fn wf(self) -> bool {
        &&& cs_wf(self.root_abs())
        &&& shape_ok(self.children@)
        &&& (forall|i: int, j: int|
            0 <= i < j < self.meta_abs().len() ==> (#[trigger] self.meta_abs()[i]).0 != (
            #[trigger] self.meta_abs()[j]).0)
        &&& (forall|i: int|
            0 <= i < self.meta_abs().len() ==> 1 <= (#[trigger] self.meta_abs()[i]).0
                <= self.count_spec())
        &&& counts_ok(self.root_abs(), self.count_spec())
    }

    /// In the line regime every key is the first word of its node's label.
    pub closed spec fn line_wf(self) -> bool {
        cs_line_wf(self.root_abs())
    }

    /// The table and the children are exactly the replay of the entries
    /// the table records: the state every tree built by storing one token
    /// at a time keeps, and the state decoding always rebuilds, so
    /// decoding an encoded tree restores its observable state.
    pub closed spec fn replayable(self) -> bool {
        let es = suffix_entries(self.meta_abs(), self.count_spec());
        &&& self.meta_abs() == replay_meta(es, self.count_spec())
        &&& self.root_abs() == replay_children(self.regime(), es, self.count_spec())
    }

    /// An empty tree over word units.
    pub fn new() -> (r: Self)
        ensures
            r.wf(),
            r.line_wf(),
            r.replayable(),
            r.regime() == SearchScopeSuffix::Words,
            r.count_spec() == 0,
            r.root_abs() == Seq::<ChildAbs>::empty(),
            r.meta_abs() == Seq::<(int, Seq<char>)>::empty(),
    {
        let r = SuffixTree {
            count: 0,
            children: Vec::new(),
            value: string_from_chars(&chars_of("root")),
            isterminal: false,
            search_type: SearchScopeSuffix::Words,
            metadata: Vec::new(),
        };
        proof {
            assert(r.root_abs() =~= Seq::<ChildAbs>::empty());
            assert(r.meta_abs() =~= Seq::<(int, Seq<char>)>::empty());
            assert(suffix_entries(r.meta_abs(), 0) =~= Seq::<Option<Seq<char>>>::empty());
            assert(r.replayable());
        }
        r
    }

    /// The regime tokens are stored under.
    pub fn regime_of(&self) -> (r: SearchScopeSuffix)
        ensures
            r == self.regime(),
    {
        match self.search_type {
            SearchScopeSuffix::Words => SearchScopeSuffix::Words,
            SearchScopeSuffix::Lines => SearchScopeSuffix::Lines,
        }
    }

    /// Switch the regime tokens are stored under.
    pub fn set_regime(&mut self, st: SearchScopeSuffix)
        requires
            old(self).wf(),
        ensures
            final(self).wf(),
            final(self).regime() == st,
            final(self).count_spec() == old(self).count_spec(),
            final(self).root_abs() == old(self).root_abs(),
            final(self).meta_abs() == old(self).meta_abs(),
            old(self).line_wf() ==> final(self).line_wf(),
            old(self).count_spec() == 0 && old(self).replayable() ==> final(self).replayable(),
    {
        self.search_type = st;
        proof {
            assert(self.root_abs() =~~= old(self).root_abs());
            assert(self.meta_abs() =~~= old(self).meta_abs());
            if old(self).count_spec() == 0 && old(self).replayable() {
                let es = suffix_entries(self.meta_abs(), 0);
                assert(self.root_abs() == replay_children(old(self).regime(), es, 0));
                assert(self.root_abs() == replay_children(st, es, 0));
                assert(self.replayable());
            }
        }
    }

    /// Store tokens under the current regime. The word regime tags every
    /// character suffix of every item with the fresh ordinal. The line
    /// regime inserts every word suffix of the first item: a suffix whose
    /// first word is no child key becomes a new terminal child, and one
    /// whose first word is already a key splits that child at the longest
    /// common word prefix — possibly empty — demoting it and attaching
    /// the two remainders as its children. The side table remembers the
    /// token under the ordinal.
    #[verifier::spinoff_prover]
    #[verifier::rlimit(100)]
    pub fn store(&mut self, key: Vec<&str>)
        requires
            old(self).wf(),
            old(self).count_spec() < usize::MAX,
            old(self).regime() == SearchScopeSuffix::Lines ==> key@.len() >= 1,
        ensures
            final(self).wf(),
            final(self).regime() == old(self).regime(),
            final(self).count_spec() == old(self).count_spec() + 1,
            match old(self).regime() {
                SearchScopeSuffix::Words => {
                    &&& final(self).root_abs() == store_words_items(
                        old(self).root_abs(),
                        key.deep_view(),
                        0,
                        old(self).count_spec() + 1,
                    )
                    &&& final(self).meta_abs() == (if key@.len() == 0 {
                        old(self).meta_abs()
                    } else {
                        meta_put(
                            old(self).meta_abs(),
                            old(self).count_spec() + 1,
                            key.deep_view().last(),
                        )
                    })
                },
                SearchScopeSuffix::Lines => {
                    &&& final(self).root_abs() == store_line_from(
                        old(self).root_abs(),
                        words_of(key.deep_view()[0]),
                        0,
                        old(self).count_spec() + 1,
                    )
                    &&& final(self).meta_abs() == meta_put(
                        old(self).meta_abs(),
                        old(self).count_spec() + 1,
                        key.deep_view()[0],
                    )
                },
            },
            old(self).regime() == SearchScopeSuffix::Lines && old(self).line_wf()
                ==> final(self).line_wf(),
            old(self).replayable() && (old(self).regime() == SearchScopeSuffix::Words
                ==> key@.len() <= 1) ==> final(self).replayable(),
    {
        self.count = self.count + 1;
        let cnt = self.count;
        let ghost items = key.deep_view();
        let ghost root0 = self.root_abs();
        let ghost meta0 = self.meta_abs();
        proof {
            assert(items.len() == key@.len());
            assert(self.metadata@ == old(self).metadata@);
            assert(self.children@ == old(self).children@);
            assert(meta0 == old(self).meta_abs());
            assert(root0 == old(self).root_abs());
            assert(old(self).wf());
            assert(cs_wf(root0));
            assert(shape_ok(self.children@));
            assert(forall|i: int, j: int|
                0 <= i < j < meta0.len() ==> (#[trigger] meta0[i]).0 != (#[trigger] meta0[j]).0);
        }
        match self.search_type {
            SearchScopeSuffix::Words => {
                let mut idx: usize = 0;
                while idx < key.len()
                    invariant
                        self.search_type == SearchScopeSuffix::Words,
                        self.count == cnt,
                        idx <= key@.len(),
                        items == key.deep_view(),
                        items.len() == key@.len(),
                        cs_wf(self.root_abs()),
                        shape_ok(self.children@),
                        forall|i: int, j: int|
                            0 <= i < j < self.meta_abs().len() ==> (#[trigger] self.meta_abs()[i]).0
                                != (#[trigger] self.meta_abs()[j]).0,
                        store_words_items(root0, items, 0, cnt as int) == store_words_items(
                            self.root_abs(),
                            items,
                            idx as int,
                            cnt as int,
                        ),
                        self.meta_abs() == (if idx == 0 {
                            meta0
                        } else {
                            meta_put(meta0, cnt as int, items[idx - 1])
                        }),
                        forall|i: int, j: int|
                            0 <= i < j < meta0.len() ==> (#[trigger] meta0[i]).0 != (
                            #[trigger] meta0[j]).0,
                    decreases key@.len() - idx,
                {
                    let item: &str = key[idx];
                    let ghost meta_pre = self.meta_abs();
                    meta_put_exec(&mut self.metadata, cnt, item.to_owned());
                    proof {
                        assert(item@ == items[idx as int]);
                        if idx > 0 {
                            lemma_meta_put_wf(meta0, cnt as int, items[idx - 1]);
                        }
                        assert(self.meta_abs() == meta_put(meta0, cnt as int, items[idx as int]));
                        lemma_meta_put_wf(meta0, cnt as int, items[idx as int]);
                    }
                    let ic = chars_of(item);
                    let ghost root_a = self.root_abs();
                    let ghost meta_now = self.meta_abs();
                    let mut i: usize = 0;
                    while i < ic.len()
                        invariant
                            self.search_type == SearchScopeSuffix::Words,
                            self.count == cnt,
                            i <= ic@.len(),
                            ic@ == items[idx as int],
                            idx < items.len(),
                            cs_wf(self.root_abs()),
                            shape_ok(self.children@),
                            self.meta_abs() == meta_now,
                            store_word_suffixes(root_a, ic@, 0, cnt as int) == store_word_suffixes(
                                self.root_abs(),
                                ic@,
                                i as int,
                                cnt as int,
                            ),
                        decreases ic@.len() - i,
                    {
                        let ghost pre = self.root_abs();
                        let label = word_label(&ic, i, cnt);
                        let nkids = self.children.len();
                        let k = word_key(label.as_str(), cnt, nkids);
                        let node = SuffixTree {
                            children: Vec::new(),
                            isterminal: true,
                            value: label,
                            count: cnt,
                            search_type: SearchScopeSuffix::Words,
                            metadata: Vec::new(),
                        };
                        let ghost node_g = node;
                        put_child(&mut self.children, k, node);
                        proof {
                            assert(pre.len() == old(self).children@.len() || true);
                            assert(nkids as int == pre.len());
                            let c = ChildAbs {
                                key: word_leaf_key(ic@, i as int, cnt as int, pre.len() as int),
                                value: word_leaf_label(ic@, i as int, cnt as int),
                                count: cnt as int,
                                terminal: true,
                                st: SearchScopeSuffix::Words,
                                kids: Seq::empty(),
                            };
                            assert(mk_child_abs(k@, node_g).kids =~= Seq::<LeafAbs>::empty());
                            assert(mk_child_abs(k@, node_g) == c);
                            assert(self.root_abs() == children_put(pre, c));
                            lemma_children_put_wf(pre, c);
                            assert(store_word_suffixes(pre, ic@, i as int, cnt as int)
                                == store_word_suffixes(
                                children_put(pre, c),
                                ic@,
                                i + 1,
                                cnt as int,
                            ));
                        }
                        i = i + 1;
                    }
                    proof {
                        assert(store_word_suffixes(self.root_abs(), ic@, ic@.len() as int, cnt as int)
                            == self.root_abs());
                        assert(store_words_items(root0, items, 0, cnt as int) == store_words_items(
                            self.root_abs(),
                            items,
                            idx + 1,
                            cnt as int,
                        ));
                    }
                    idx = idx + 1;
                }
                proof {
                    assert(store_words_items(self.root_abs(), items, items.len() as int, cnt as int)
                        == self.root_abs());
                    assert(counts_ok(root0, cnt as int)) by {
                        assert(counts_ok(root0, cnt - 1));
                    }
                    lemma_words_items_counts(root0, items, 0, cnt as int);
                    assert(counts_ok(self.root_abs(), self.count_spec()));
                    assert forall|i2: int|
                        0 <= i2 < self.meta_abs().len() implies 1 <= (
                    #[trigger] self.meta_abs()[i2]).0 <= self.count_spec() by {
                        if items.len() > 0 {
                            lemma_meta_put_elems(meta0, cnt as int, items.last());
                            assert(self.meta_abs()[i2] == (cnt as int, items.last()) || (i2
                                < meta0.len() && self.meta_abs()[i2] == meta0[i2]));
                        }
                    }
                    if old(self).replayable() && items.len() <= 1 {
                        let n = cnt - 1;
                        let es = suffix_entries(meta0, n);
                        assert(es.len() == n);
                        let es1 = if items.len() == 0 {
                            es.push(None)
                        } else {
                            es.push(Some(items[0]))
                        };
                        lemma_replay_prefix(SearchScopeSuffix::Words, es, es1, n);
                        if items.len() == 0 {
                            assert(self.meta_abs() == meta0);
                            assert(self.meta_abs() == replay_meta(es1, cnt as int));
                            assert(self.root_abs() == root0);
                            assert(self.root_abs() == replay_children(
                                SearchScopeSuffix::Words,
                                es1,
                                cnt as int,
                            ));
                        } else {
                            assert(items.last() == items[0]);
                            assert(self.meta_abs() == meta_put(meta0, cnt as int, items[0]));
                            assert(self.meta_abs() == replay_meta(es1, cnt as int));
                            assert(self.root_abs() == store_words_items(
                                root0,
                                items,
                                0,
                                cnt as int,
                            ));
                            assert(store_words_items(root0, items, 0, cnt as int)
                                == store_words_items(
                                store_word_suffixes(root0, items[0], 0, cnt as int),
                                items,
                                1,
                                cnt as int,
                            ));
                            assert(self.root_abs() == replay_children(
                                SearchScopeSuffix::Words,
                                es1,
                                cnt as int,
                            ));
                        }
                        lemma_suffix_entries_replay(es1);
                        assert(suffix_entries(self.meta_abs(), self.count_spec()) == es1);
                        assert(self.replayable());
                    }
                }
            },
            SearchScopeSuffix::Lines => {
                let first: &str = key[0];
                meta_put_exec(&mut self.metadata, cnt, first.to_owned());
                proof {
                    assert(first@ == items[0]);
                    lemma_meta_put_wf(meta0, cnt as int, items[0]);
                }
                let ghost meta_now = self.meta_abs();
                let words = unicode_words_vec(first);
                let ghost wv = words.deep_view();
                let ghost root_start = self.root_abs();
                let ghost was_line_wf = cs_line_wf(root_start);
                proof {
                    assert(wv == words_of(items[0]));
                    assert(root_start == root0);
                }
                let n = words.len();
                let mut i: usize = 0;
                while i < n
                    invariant
                        self.search_type == SearchScopeSuffix::Lines,
                        self.count == cnt,
                        cnt >= 1,
                        i <= n,
                        n == wv.len(),
                        wv == words.deep_view(),
                        n == words@.len(),
                        forall|x: int| 0 <= x < wv.len() ==> !(#[trigger] wv[x]).contains(' '),
                        cs_wf(self.root_abs()),
                        shape_ok(self.children@),
                        self.meta_abs() == meta_now,
                        store_line_from(root0, wv, 0, cnt as int) == store_line_from(
                            self.root_abs(),
                            wv,
                            i as int,
                            cnt as int,
                        ),
                        was_line_wf ==> cs_line_wf(self.root_abs()),
                        was_line_wf == cs_line_wf(root0),
                    decreases n + 1 - i,
                {
                    let ghost pre = self.root_abs();
                    let sw = build_sw(&words, i, cnt);
                    line_put(&mut self.children, &sw, cnt);
                    proof {
                        assert(self.root_abs() == store_line_sw(pre, sw.deep_view(), cnt as int));
                        assert(sw.deep_view() == sw_words(wv, i as int, cnt as int));
                        assert(store_line_suffix(pre, wv, i as int, cnt as int)
                            == self.root_abs());
                        assert(store_line_from(pre, wv, i as int, cnt as int) == store_line_from(
                            self.root_abs(),
                            wv,
                            i + 1,
                            cnt as int,
                        ));
                    }
                    i = i + 1;
                }
                // the one-past-the-end suffix: the bare terminator tag
                let ghost pre = self.root_abs();
                let sw = build_sw(&words, n, cnt);
                line_put(&mut self.children, &sw, cnt);
                proof {
                    assert(self.root_abs() == store_line_sw(pre, sw.deep_view(), cnt as int));
                    assert(sw.deep_view() == sw_words(wv, n as int, cnt as int));
                    assert(store_line_suffix(pre, wv, n as int, cnt as int) == self.root_abs());
                    assert(store_line_from(pre, wv, n as int, cnt as int) == store_line_from(
                        self.root_abs(),
                        wv,
                        n + 1,
                        cnt as int,
                    ));
                    assert(store_line_from(self.root_abs(), wv, n + 1, cnt as int)
                        == self.root_abs());
                    assert(counts_ok(root0, cnt as int)) by {
                        assert(counts_ok(root0, cnt - 1));
                    }
                    lemma_line_from_counts(root0, wv, 0, cnt as int);
                    assert(counts_ok(self.root_abs(), self.count_spec()));
                    assert forall|i2: int|
                        0 <= i2 < self.meta_abs().len() implies 1 <= (
                    #[trigger] self.meta_abs()[i2]).0 <= self.count_spec() by {
                        lemma_meta_put_elems(meta0, cnt as int, items[0]);
                        assert(self.meta_abs()[i2] == (cnt as int, items[0]) || (i2 < meta0.len()
                            && self.meta_abs()[i2] == meta0[i2]));
                    }
                    if old(self).replayable() {
                        let nn = cnt - 1;
                        let es = suffix_entries(meta0, nn);
                        assert(es.len() == nn);
                        let es1 = es.push(Some(items[0]));
                        lemma_replay_prefix(SearchScopeSuffix::Lines, es, es1, nn);
                        assert(self.meta_abs() == meta_put(meta0, cnt as int, items[0]));
                        assert(self.meta_abs() == replay_meta(es1, cnt as int));
                        assert(self.root_abs() == store_line_from(
                            root0,
                            words_of(items[0]),
                            0,
                            cnt as int,
                        ));
                        assert(self.root_abs() == replay_children(
                            SearchScopeSuffix::Lines,
                            es1,
                            cnt as int,
                        ));
                        lemma_suffix_entries_replay(es1);
                        assert(suffix_entries(self.meta_abs(), self.count_spec()) == es1);
                        assert(self.replayable());
                    }
                }
            },
        }
    }

    /// Every token resolved from a root child whose label, terminator
    /// stripped, ends with the term — the term itself excluded — sorted
    /// lexicographically; the error signals that none qualifies.
    pub fn search<'a>(&'a self, key: &str) -> (r: Result<Vec<&'a str>, &'static str>)
        requires
            self.wf(),
        ensures
            (r is Ok) <==> cand_list(self.root_abs(), self.meta_abs(), key@).len() > 0,
            r matches Ok(v) ==> v.deep_view().to_multiset() == cand_list(
                self.root_abs(),
                self.meta_abs(),
                key@,
            ).to_multiset() && sorted_lex(v.deep_view()),
    {
        let ghost cs = self.root_abs();
        let ghost mv = self.meta_abs();
        let kc = chars_of(key);
        let mut cands: Vec<&'a str> = Vec::new();
        let mut j: usize = 0;
        proof {
            assert(cs.len() == self.children@.len());
            assert(cands.deep_view() =~= cand_list(cs.take(0), mv, key@));
        }
        while j < self.children.len()
            invariant
                self.wf(),
                cs == self.root_abs(),
                mv == self.meta_abs(),
                cs.len() == self.children@.len(),
                kc@ == key@,
                j <= self.children@.len(),
                cands.deep_view() == cand_list(cs.take(j as int), mv, key@),
            decreases self.children@.len() - j,
        {
            let ghost pre_dv = cands.deep_view();
            let child = &self.children[j].1;
            proof {
                assert(cs[j as int].value == child.value@);
                assert(cs[j as int].count == child.count as int);
            }
            let vc = chars_of(child.value.as_str());
            let stripped = first_seg_exec(&vc, '$');
            if chars_end_with(&stripped, &kc) {
                if let Some(tok) = meta_get(&self.metadata, child.count) {
                    if !str_eq(tok.as_str(), key) {
                        cands.push(tok.as_str());
                        proof {
                            assert(cands.deep_view() =~= pre_dv.push(tok@));
                        }
                    }
                }
            }
            proof {
                let t = cs.take(j + 1);
                assert(t.drop_last() =~= cs.take(j as int));
                assert(t.last() == cs[j as int]);
                assert(cands.deep_view() == cand_list(t, mv, key@));
            }
            j = j + 1;
        }
        proof {
            assert(cs.take(cs.len() as int) =~= cs);
        }
        if cands.len() == 0 {
            proof {
                assert(cand_list(cs, mv, key@).len() == cands.deep_view().len() || true);
                assert(cands.deep_view().len() == 0);
            }
            return Result::Err("No results found");
        }
        let ghost pre_sort = cands.deep_view();
        let sorted = sort_lex_strs(cands);
        proof {
            broadcast use vstd::seq_lib::group_to_multiset_ensures;

            assert(pre_sort.len() > 0);
            assert(cand_list(cs, mv, key@).len() > 0);
        }
        Result::Ok(sorted)
    }
}

/// With unique sibling keys that are each the first word of their label,
/// no two siblings share a nonempty common word prefix, at either level.
pub proof fn lemma_no_sibling_common_prefix(t: SuffixTree)
    requires
        t.wf(),
        t.line_wf(),
    ensures
        forall|i: int, j: int|
            0 <= i < j < t.root_abs().len() ==> common_len(
                split_sp((#[trigger] t.root_abs()[i]).value),
                split_sp((#[trigger] t.root_abs()[j]).value),
            ) == 0,
        forall|i: int, x: int, y: int|
            0 <= i < t.root_abs().len() && 0 <= x < y < t.root_abs()[i].kids.len() ==> common_len(
                split_sp((#[trigger] t.root_abs()[i].kids[x]).value),
                split_sp((#[trigger] t.root_abs()[i].kids[y]).value),
            ) == 0,
{
    let cs = t.root_abs();
    assert forall|i: int, j: int| 0 <= i < j < cs.len() implies common_len(
        split_sp((#[trigger] cs[i]).value),
        split_sp((#[trigger] cs[j]).value),
    ) == 0 by {
        crate::strutil::lemma_split_sp_props(cs[i].value);
        crate::strutil::lemma_split_sp_props(cs[j].value);
        assert(split_sp(cs[i].value)[0] == cs[i].key);
        assert(split_sp(cs[j].value)[0] == cs[j].key);
        assert(cs[i].key != cs[j].key);
    }
    assert forall|i: int, x: int, y: int|
        0 <= i < cs.len() && 0 <= x < y < cs[i].kids.len() implies common_len(
        split_sp((#[trigger] cs[i].kids[x]).value),
        split_sp((#[trigger] cs[i].kids[y]).value),
    ) == 0 by {
        crate::strutil::lemma_split_sp_props(cs[i].kids[x].value);
        crate::strutil::lemma_split_sp_props(cs[i].kids[y].value);
        assert(split_sp(cs[i].kids[x].value)[0] == cs[i].kids[x].key);
        assert(split_sp(cs[i].kids[y].value)[0] == cs[i].kids[y].key);
        assert(cs[i].kids[x].key != cs[i].kids[y].key);
    }
}

/// The string form of one replay entry: a marker plus the token, or
/// empty where the ordinal resolves to no token.
pub open spec fn entry_str(e: Option<Seq<char>>) -> Seq<char> {
    match e {
        Some(t) => seq!['+'] + t,
        None => Seq::empty(),
    }
}

/// The string forms of the entries.
pub open spec fn entries_strs(es: Seq<Option<Seq<char>>>) -> Seq<Seq<char>> {
    es.map(|x: int, e: Option<Seq<char>>| entry_str(e))
}

/// A suffix-tree artifact: the regime byte, then one entry per ordinal in
/// store order; the tree is rebuilt on decode by replaying the stores.
pub open spec fn enc_suffix_art(st: SearchScopeSuffix, es: Seq<Option<Seq<char>>>) -> Seq<u8> {
    (match st {
        SearchScopeSuffix::Words => seq![0u8],
        SearchScopeSuffix::Lines => seq![1u8],
    }) + crate::codec::enc_token_list(entries_strs(es))
}

/// The token each ordinal resolves to, in ordinal order.
pub open spec fn suffix_entries(meta: Seq<(int, Seq<char>)>, count: int) -> Seq<
    Option<Seq<char>>,
> {
    Seq::new(
        count as nat,
        |i: int|
            if meta_has(meta, i + 1) {
                Some(meta_val(meta, i + 1))
            } else {
                None
            },
    )
}

/// The root children after replaying the first `upto` entries.
pub open spec fn replay_children(
    st: SearchScopeSuffix,
    es: Seq<Option<Seq<char>>>,
    upto: int,
) -> Seq<ChildAbs>
    decreases upto,
{
    if upto <= 0 {
        Seq::empty()
    } else {
        let prev = replay_children(st, es, upto - 1);
        match es[upto - 1] {
            Some(t) => match st {
                SearchScopeSuffix::Words => store_word_suffixes(prev, t, 0, upto),
                SearchScopeSuffix::Lines => store_line_from(prev, words_of(t), 0, upto),
            },
            None => prev,
        }
    }
}

/// The ordinal table after replaying the first `upto` entries.
pub open spec fn replay_meta(es: Seq<Option<Seq<char>>>, upto: int) -> Seq<(int, Seq<char>)>
    decreases upto,
{
    if upto <= 0 {
        Seq::empty()
    } else {
        let prev = replay_meta(es, upto - 1);
        match es[upto - 1] {
            Some(t) => meta_put(prev, upto, t),
            None => prev,
        }
    }
}

/// Encode a suffix tree as its regime and its ordinal-ordered tokens.
pub fn encode_suffix(t: &SuffixTree) -> (r: Vec<u8>)
    requires
        t.wf(),
    ensures
        r@ == enc_suffix_art(t.regime(), suffix_entries(t.meta_abs(), t.count_spec())),
{
    let ghost es = suffix_entries(t.meta_abs(), t.count_spec());
    let mut strs: Vec<String> = Vec::new();
    let mut k: usize = 0;
    let cnt = t.count;
    proof {
        assert(es.len() == cnt as int);
        assert(strs.deep_view() =~= entries_strs(es).take(0));
    }
    while k < cnt
        invariant
            t.wf(),
            cnt == t.count,
            es == suffix_entries(t.meta_abs(), t.count_spec()),
            es.len() == cnt as int,
            k <= cnt,
            strs.deep_view() == entries_strs(es).take(k as int),
        decreases cnt - k,
    {
        let ghost prev = strs.deep_view();
        match meta_get(&t.metadata, k + 1) {
            Some(v) => {
                let mut e = String::new();
                push_char(&mut e, '+');
                e.append(v.as_str());
                proof {
                    assert(meta_has(t.meta_abs(), k + 1));
                    assert(es[k as int] == Some(meta_val(t.meta_abs(), k + 1)));
                    assert(e@ =~= entry_str(es[k as int]));
                }
                strs.push(e);
            },
            None => {
                let e = String::new();
                proof {
                    assert(!meta_has(t.meta_abs(), k + 1));
                    assert(es[k as int] is None);
                    assert(e@ =~= entry_str(es[k as int]));
                }
                strs.push(e);
            },
        }
        proof {
            let m = entries_strs(es);
            assert(m[k as int] == entry_str(es[k as int]));
            assert(strs.deep_view() =~= prev.push(m[k as int]));
            assert(strs.deep_view() =~= m.take(k + 1));
        }
        k = k + 1;
    }
    proof {
        let m = entries_strs(es);
        assert(m.take(m.len() as int) =~= m);
    }
    let body = crate::codec::encode_token_list(&strs);
    let mut out: Vec<u8> = Vec::new();
    match t.regime_of() {
        SearchScopeSuffix::Words => out.push(0u8),
        SearchScopeSuffix::Lines => out.push(1u8),
    }
    let ghost tagseq = out@;
    let mut i: usize = 0;
    while i < body.len()
        invariant
            i <= body@.len(),
            out@ == tagseq + body@.take(i as int),
            tagseq.len() == 1,
        decreases body@.len() - i,
    {
        out.push(body[i]);
        proof {
            assert(out@ =~= tagseq + body@.take(i + 1));
        }
        i = i + 1;
    }
    proof {
        assert(body@.take(body@.len() as int) =~= body@);
        assert(out@ =~= enc_suffix_art(t.regime(), es));
    }
    out
}

/// Decode a suffix-tree artifact by replaying the recorded stores. Fails
/// on anything that is not an artifact, and on a line-regime artifact
/// with an unresolvable ordinal, which no store sequence produces.
pub fn decode_suffix(b: &Vec<u8>) -> (r: Result<SuffixTree, &'static str>)
    ensures
        r matches Ok(t) ==> t.wf(),
        r matches Ok(t) ==> t.replayable(),
        r matches Ok(t) ==> (t.regime() == SearchScopeSuffix::Lines ==> t.line_wf()),
        forall|st: SearchScopeSuffix, es: Seq<Option<Seq<char>>>|
            b@ == enc_suffix_art(st, es) && (st == SearchScopeSuffix::Lines ==> forall|x: int|
                0 <= x < es.len() ==> (#[trigger] es[x]) is Some) ==> (r matches Ok(t) && {
                &&& t.regime() == st
                &&& t.count_spec() == es.len()
                &&& t.meta_abs() == replay_meta(es, es.len() as int)
                &&& t.root_abs() == replay_children(st, es, es.len() as int)
            }),
        (r is Err) <==> (forall|st: SearchScopeSuffix, es: Seq<Option<Seq<char>>>|
            !(b@ == #[trigger] enc_suffix_art(st, es) && (st == SearchScopeSuffix::Lines
                ==> forall|x: int| 0 <= x < es.len() ==> (#[trigger] es[x]) is Some))),
{
    if b.len() < 1 {
        proof {
            assert forall|st: SearchScopeSuffix, es: Seq<Option<Seq<char>>>|
                b@ != enc_suffix_art(st, es) by {
                if b@ == enc_suffix_art(st, es) {
                    assert(b@.len() >= 1);
                }
            }
        }
        return Result::Err("truncated artifact");
    }
    let tag = b[0];
    if tag > 1 {
        proof {
            assert forall|st: SearchScopeSuffix, es: Seq<Option<Seq<char>>>|
                b@ != enc_suffix_art(st, es) by {
                if b@ == enc_suffix_art(st, es) {
                    assert(b@[0] == 0 || b@[0] == 1);
                }
            }
        }
        return Result::Err("unknown regime tag");
    }
    let st = if tag == 0 {
        SearchScopeSuffix::Words
    } else {
        SearchScopeSuffix::Lines
    };
    let ghost stv = st;
    let mut body: Vec<u8> = Vec::new();
    let mut i: usize = 1;
    proof {
        assert(body@ =~= b@.subrange(1, 1));
    }
    while i < b.len()
        invariant
            1 <= i <= b@.len(),
            body@ == b@.subrange(1, i as int),
        decreases b@.len() - i,
    {
        body.push(b[i]);
        proof {
            assert(body@ =~= b@.subrange(1, i + 1));
        }
        i = i + 1;
    }
    proof {
        assert(body@ == b@.skip(1)) by {
            assert(b@.subrange(1, b@.len() as int) =~= b@.skip(1));
        }
    }
    let strs = match crate::codec::decode_token_list(&body) {
        Result::Ok(v) => v,
        Result::Err(e) => {
            proof {
                assert forall|st2: SearchScopeSuffix, es: Seq<Option<Seq<char>>>|
                    b@ != enc_suffix_art(st2, es) by {
                    if b@ == enc_suffix_art(st2, es) {
                        assert(b@.skip(1) =~= crate::codec::enc_token_list(entries_strs(es)));
                    }
                }
            }
            return Result::Err(e);
        },
    };
    let ghost sv = strs.deep_view();
    // rebuild by replaying each recorded store
    let mut t = SuffixTree::new();
    t.set_regime(st);
    let n = strs.len();
    let mut k: usize = 0;
    let bl = b.len();
    proof {
        crate::codec::lemma_pow256_vals();
        assert(bl as int <= usize::MAX as int);
        assert(b@.len() < crate::codec::pow256(8));
        assert(sv.len() == n <= usize::MAX);
        assert(b@.skip(1) == crate::codec::enc_token_list(sv));
    }
    let ghost hyp: bool = exists|es: Seq<Option<Seq<char>>>|
        sv == #[trigger] entries_strs(es) && (stv == SearchScopeSuffix::Lines ==> forall|x: int|
            0 <= x < es.len() ==> (#[trigger] es[x]) is Some);
    let ghost esv: Seq<Option<Seq<char>>> = if hyp {
        choose|es: Seq<Option<Seq<char>>>|
            sv == #[trigger] entries_strs(es) && (stv == SearchScopeSuffix::Lines ==> forall|
            x: int,
            |
                0 <= x < es.len() ==> (#[trigger] es[x]) is Some)
    } else {
        Seq::empty()
    };
    let mut pes: Ghost<Seq<Option<Seq<char>>>> = Ghost(Seq::empty());
    proof {
        if hyp {
            assert(esv.len() == sv.len());
        }
        assert(entries_strs(pes@) =~= sv.take(0));
    }
    while k < n
        invariant
            t.wf(),
            t.regime() == stv,
            stv == SearchScopeSuffix::Lines ==> t.line_wf(),
            n == strs@.len(),
            k <= n,
            sv == strs.deep_view(),
            sv.len() == n,
            sv.len() <= usize::MAX,
            t.count_spec() == k,
            st == stv,
            b@.len() >= 1,
            b@.len() < crate::codec::pow256(8),
            b@[0] == tag,
            tag == 0 || tag == 1,
            stv == (if tag == 0 {
                SearchScopeSuffix::Words
            } else {
                SearchScopeSuffix::Lines
            }),
            b@.skip(1) == crate::codec::enc_token_list(sv),
            hyp == (exists|es: Seq<Option<Seq<char>>>|
                sv == #[trigger] entries_strs(es) && (stv == SearchScopeSuffix::Lines
                    ==> forall|x: int| 0 <= x < es.len() ==> (#[trigger] es[x]) is Some)),
            hyp ==> esv.len() == n && sv == entries_strs(esv) && (stv
                == SearchScopeSuffix::Lines ==> forall|x: int|
                0 <= x < esv.len() ==> (#[trigger] esv[x]) is Some),
            hyp ==> t.meta_abs() == replay_meta(esv, k as int),
            hyp ==> t.root_abs() == replay_children(stv, esv, k as int),
            pes@.len() == k,
            entries_strs(pes@) == sv.take(k as int),
            stv == SearchScopeSuffix::Lines ==> forall|x: int|
                0 <= x < pes@.len() ==> (#[trigger] pes@[x]) is Some,
        decreases n - k,
    {
        let e = &strs[k];
        let ghost ev = e@;
        proof {
            assert(ev == sv[k as int]);
            assert(hyp ==> ev == entry_str(esv[k as int])) by {
                if hyp {
                    assert(entries_strs(esv)[k as int] == entry_str(esv[k as int]));
                }
            }
        }
        if e.as_str().is_empty() {
            match st {
                SearchScopeSuffix::Words => {
                    let kv: Vec<&str> = Vec::new();
                    proof {
                        assert(kv.deep_view() =~= Seq::<Seq<char>>::empty());
                        pes@ = pes@.push(None);
                        assert(entries_strs(pes@) =~= sv.take(k + 1)) by {
                            assert(entries_strs(pes@).len() == pes@.len());
                            assert(forall|x: int|
                                0 <= x < pes@.len() ==> #[trigger] entries_strs(pes@)[x]
                                    == entry_str(pes@[x]));
                            assert(entry_str(pes@[pes@.len() - 1]) =~= ev);
                        }
                    }
                    t.store(kv);
                    proof {
                        assert(hyp ==> t.meta_abs() == replay_meta(esv, k + 1) && t.root_abs()
                            == replay_children(stv, esv, k + 1)) by {
                            if hyp {
                                assert(esv[k as int] is None) by {
                                    if esv[k as int] is Some {
                                        assert(ev.len() >= 1);
                                    }
                                }
                                assert(t.root_abs() =~~= store_words_items(
                                    replay_children(stv, esv, k as int),
                                    Seq::<Seq<char>>::empty(),
                                    0,
                                    k + 1,
                                ));
                            }
                        }
                    }
                },
                SearchScopeSuffix::Lines => {
                    proof {
                        assert(!hyp) by {
                            if hyp {
                                assert(esv[k as int] is Some);
                                assert(ev.len() >= 1);
                            }
                        }
                        lemma_decode_vacuous(b@, stv, sv, tag);
                    }
                    return Result::Err("line artifact with an unresolvable ordinal");
                },
            }
        } else {
            // strip the marker
            let ec = chars_of(e.as_str());
            if ec[0] != '+' {
                proof {
                    assert(!hyp) by {
                        if hyp {
                            if esv[k as int] is Some {
                                assert(ev[0] == '+');
                            } else {
                                assert(ev.len() == 0);
                            }
                        }
                    }
                    lemma_decode_vacuous(b@, stv, sv, tag);
                }
                return Result::Err("artifact entry holds no marker");
            }
            let mut tokc: Vec<char> = Vec::new();
            let mut x: usize = 1;
            while x < ec.len()
                invariant
                    1 <= x <= ec@.len(),
                    tokc@ == ec@.subrange(1, x as int),
                decreases ec@.len() - x,
            {
                tokc.push(ec[x]);
                proof {
                    assert(tokc@ =~= ec@.subrange(1, x + 1));
                }
                x = x + 1;
            }
            let tok = string_from_chars(&tokc);
            proof {
                assert(ec@.subrange(1, ec@.len() as int) =~= ev.skip(1));
                assert(tok@ =~= ev.skip(1));
                assert(hyp ==> esv[k as int] is Some && tok@ == esv[k as int]->0) by {
                    if hyp {
                        assert(esv[k as int] is Some) by {
                            if esv[k as int] is None {
                                assert(ev.len() == 0);
                            }
                        }
                        assert(ev == seq!['+'] + esv[k as int]->0);
                        assert(tok@ =~= esv[k as int]->0);
                    }
                }
            }
            let mut kv: Vec<&str> = Vec::new();
            kv.push(tok.as_str());
            proof {
                assert(kv@.len() == 1);
                assert(kv.deep_view() =~= seq![tok@]);
                pes@ = pes@.push(Some(tok@));
                assert(entries_strs(pes@) =~= sv.take(k + 1)) by {
                    assert(entries_strs(pes@).len() == pes@.len());
                    assert(forall|x: int|
                        0 <= x < pes@.len() ==> #[trigger] entries_strs(pes@)[x] == entry_str(
                            pes@[x],
                        ));
                    assert(entry_str(pes@[pes@.len() - 1]) =~= seq!['+'] + tok@);
                    assert(seq!['+'] + tok@ =~= ev);
                }
            }
            t.store(kv);
            proof {
                assert(hyp ==> t.meta_abs() == replay_meta(esv, k + 1) && t.root_abs()
                    == replay_children(stv, esv, k + 1)) by {
                    if hyp {
                        let prevc = replay_children(stv, esv, k as int);
                        assert(esv[k as int] is Some && tok@ == esv[k as int]->0);
                        match stv {
                            SearchScopeSuffix::Words => {
                                assert(t.root_abs() == store_words_items(
                                    prevc,
                                    seq![tok@],
                                    0,
                                    k + 1,
                                ));
                                assert(store_words_items(prevc, seq![tok@], 0, k + 1)
                                    == store_words_items(
                                    store_word_suffixes(prevc, tok@, 0, k + 1),
                                    seq![tok@],
                                    1,
                                    k + 1,
                                ));
                                assert(seq![tok@].last() == tok@);
                            },
                            SearchScopeSuffix::Lines => {
                                assert(kv.deep_view()[0] == tok@);
                            },
                        }
                    }
                }
            }
        }
        k = k + 1;
    }
    proof {
        assert forall|st2: SearchScopeSuffix, es: Seq<Option<Seq<char>>>|
            b@ == enc_suffix_art(st2, es) && (st2 == SearchScopeSuffix::Lines ==> forall|x: int|
                0 <= x < es.len() ==> (#[trigger] es[x]) is Some) implies (t.regime() == st2
            && t.count_spec() == es.len() && t.meta_abs() == replay_meta(es, es.len() as int)
            && t.root_abs() == replay_children(st2, es, es.len() as int)) by {
            assert(b@[0] == (match st2 {
                SearchScopeSuffix::Words => 0u8,
                SearchScopeSuffix::Lines => 1u8,
            }));
            assert(st2 == stv);
            assert(b@.skip(1) =~= crate::codec::enc_token_list(entries_strs(es)));
            assert(sv == entries_strs(es));
            assert(hyp);
            lemma_entry_map_inj(es, esv);
            assert(es == esv);
        }
        // the parsed entries witness that the buffer is an artifact
        assert(entries_strs(pes@) == sv) by {
            assert(sv.take(n as int) =~= sv);
        }
        assert(b@ == enc_suffix_art(stv, pes@)) by {
            assert(b@ =~= seq![b@[0]] + b@.skip(1));
            assert((match stv {
                SearchScopeSuffix::Words => seq![0u8],
                SearchScopeSuffix::Lines => seq![1u8],
            }) =~= seq![b@[0]]);
        }
        assert(!(forall|st2: SearchScopeSuffix, es: Seq<Option<Seq<char>>>|
            !(b@ == #[trigger] enc_suffix_art(st2, es) && (st2 == SearchScopeSuffix::Lines
                ==> forall|x: int| 0 <= x < es.len() ==> (#[trigger] es[x]) is Some)))) by {
            assert(b@ == enc_suffix_art(stv, pes@) && (stv == SearchScopeSuffix::Lines
                ==> forall|x: int| 0 <= x < pes@.len() ==> (#[trigger] pes@[x]) is Some));
        }
        // the replayed state is its own record
        assert(hyp) by {
            assert(sv == entries_strs(pes@) && (stv == SearchScopeSuffix::Lines ==> forall|x: int|
                0 <= x < pes@.len() ==> (#[trigger] pes@[x]) is Some));
        }
        assert(t.meta_abs() == replay_meta(esv, n as int));
        assert(t.root_abs() == replay_children(stv, esv, n as int));
        assert(esv.len() == n);
        lemma_suffix_entries_replay(esv);
        assert(suffix_entries(t.meta_abs(), t.count_spec()) == esv);
        assert(t.replayable());
    }
    Result::Ok(t)
}

/// When no entry list explains the parsed strings, the buffer is no
/// artifact under the decodable conditions.
proof fn lemma_decode_vacuous(b: Seq<u8>, stv: SearchScopeSuffix, sv: Seq<Seq<char>>, tag: u8)
    requires
        b.len() >= 1,
        b.len() < crate::codec::pow256(8),
        b[0] == tag,
        tag == 0 || tag == 1,
        stv == (if tag == 0 {
            SearchScopeSuffix::Words
        } else {
            SearchScopeSuffix::Lines
        }),
        b.skip(1) == crate::codec::enc_token_list(sv),
        sv.len() <= usize::MAX,
        !(exists|es: Seq<Option<Seq<char>>>|
            sv == #[trigger] entries_strs(es) && (stv == SearchScopeSuffix::Lines ==> forall|
            x: int,
            |
                0 <= x < es.len() ==> (#[trigger] es[x]) is Some)),
    ensures
        forall|st2: SearchScopeSuffix, es: Seq<Option<Seq<char>>>|
            !(b == enc_suffix_art(st2, es) && (st2 == SearchScopeSuffix::Lines ==> forall|x: int|
                0 <= x < es.len() ==> (#[trigger] es[x]) is Some)),
{
    assert forall|st2: SearchScopeSuffix, es: Seq<Option<Seq<char>>>|
        !(b == enc_suffix_art(st2, es) && (st2 == SearchScopeSuffix::Lines ==> forall|x: int|
            0 <= x < es.len() ==> (#[trigger] es[x]) is Some)) by {
        if b == enc_suffix_art(st2, es) && (st2 == SearchScopeSuffix::Lines ==> forall|x: int|
            0 <= x < es.len() ==> (#[trigger] es[x]) is Some) {
            assert(b[0] == (match st2 {
                SearchScopeSuffix::Words => 0u8,
                SearchScopeSuffix::Lines => 1u8,
            }));
            assert(st2 == stv);
            assert(b.skip(1) =~= crate::codec::enc_token_list(entries_strs(es)));
            crate::codec::lemma_token_list_inj(b.skip(1), entries_strs(es), sv);
            assert(sv == entries_strs(es));
        }
    }
}

/// The replayed table resolves exactly the ordinals stored with a token,
/// each to its token.
pub proof fn lemma_replay_meta_entries(es: Seq<Option<Seq<char>>>, n: int)
    requires
        0 <= n <= es.len(),
    ensures
        forall|k: int|
            1 <= k <= n ==> #[trigger] meta_has(replay_meta(es, n), k) == (es[k - 1] is Some),
        forall|k: int|
            1 <= k <= n && es[k - 1] is Some ==> #[trigger] meta_val(replay_meta(es, n), k)
                == es[k - 1]->0,
        forall|k: int| !(1 <= k <= n) ==> !#[trigger] meta_has(replay_meta(es, n), k),
        forall|i: int, j: int|
            0 <= i < j < replay_meta(es, n).len() ==> (#[trigger] replay_meta(es, n)[i]).0 != (
            #[trigger] replay_meta(es, n)[j]).0,
    decreases n,
{
    if n > 0 {
        lemma_replay_meta_entries(es, n - 1);
        let prev = replay_meta(es, n - 1);
        let cur = replay_meta(es, n);
        match es[n - 1] {
            Some(t) => {
                lemma_meta_put_wf(prev, n, t);
                assert(!meta_has(prev, n));
                assert(cur == prev.push((n, t)));
                assert forall|k: int|
                    1 <= k <= n implies #[trigger] meta_has(cur, k) == (es[k - 1] is Some) by {
                    if k == n {
                        assert(cur[cur.len() - 1].0 == n);
                        assert(meta_has(cur, n));
                    } else {
                        assert(meta_has(cur, k) == meta_has(prev, k)) by {
                            if meta_has(cur, k) {
                                let j = choose|j: int|
                                    0 <= j < cur.len() && (#[trigger] cur[j]).0 == k;
                                assert(j < prev.len());
                                assert(prev[j].0 == k);
                            }
                            if meta_has(prev, k) {
                                let j = choose|j: int|
                                    0 <= j < prev.len() && (#[trigger] prev[j]).0 == k;
                                assert(cur[j].0 == k);
                            }
                        }
                    }
                }
                assert forall|k: int|
                    1 <= k <= n && es[k - 1] is Some implies #[trigger] meta_val(cur, k) == es[k
                    - 1]->0 by {
                    assert(meta_has(cur, k));
                    let j = choose|j: int| 0 <= j < cur.len() && (#[trigger] cur[j]).0 == k;
                    assert forall|j3: int|
                        0 <= j3 < cur.len() && (#[trigger] cur[j3]).0 == k implies j3 == j by {
                        if j3 != j {
                            assert(cur[j3].0 != cur[j].0);
                        }
                    }
                    if k == n {
                        assert(cur[cur.len() - 1].0 == n);
                        assert(j == cur.len() - 1);
                        assert(cur[j] == (n, t));
                        assert(meta_val(cur, k) == t);
                    } else {
                        assert(j != cur.len() - 1) by {
                            if j == cur.len() - 1 {
                                assert(cur[j].0 == n);
                            }
                        }
                        assert(j < prev.len());
                        assert(prev[j] == cur[j]);
                        assert(meta_has(prev, k)) by {
                            assert(prev[j].0 == k);
                        }
                        assert(meta_val(prev, k) == es[k - 1]->0);
                        let j2 = choose|j2: int|
                            0 <= j2 < prev.len() && (#[trigger] prev[j2]).0 == k;
                        assert(j2 == j) by {
                            if j2 != j {
                                assert(prev[j2].0 != prev[j].0);
                            }
                        }
                        assert(meta_val(cur, k) == cur[j].1);
                        assert(meta_val(prev, k) == prev[j2].1);
                    }
                }
                assert forall|k: int| !(1 <= k <= n) implies !#[trigger] meta_has(cur, k) by {
                    if meta_has(cur, k) {
                        let j = choose|j: int| 0 <= j < cur.len() && (#[trigger] cur[j]).0 == k;
                        if j < prev.len() {
                            assert(prev[j].0 == k);
                            assert(meta_has(prev, k));
                        } else {
                            assert(cur[j].0 == n);
                        }
                    }
                }
            },
            None => {
                assert(cur == prev);
            },
        }
    } else {
        assert forall|k: int| !#[trigger] meta_has(replay_meta(es, 0), k) by {
            if meta_has(replay_meta(es, 0), k) {
                let j = choose|j: int|
                    0 <= j < replay_meta(es, 0).len() && (#[trigger] replay_meta(es, 0)[j]).0 == k;
            }
        }
    }
}

/// The extracted entries of a replayed table are the replayed entries.
pub proof fn lemma_suffix_entries_replay(es: Seq<Option<Seq<char>>>)
    ensures
        suffix_entries(replay_meta(es, es.len() as int), es.len() as int) == es,
{
    lemma_replay_meta_entries(es, es.len() as int);
    let got = suffix_entries(replay_meta(es, es.len() as int), es.len() as int);
    assert forall|i: int| 0 <= i < es.len() implies got[i] == es[i] by {
        assert(meta_has(replay_meta(es, es.len() as int), i + 1) == (es[i] is Some));
        if es[i] is Some {
            assert(meta_val(replay_meta(es, es.len() as int), i + 1) == es[i]->0);
        }
    }
    assert(got =~= es);
}

/// The replays differ only through the entries already stored.
pub proof fn lemma_replay_prefix(
    st: SearchScopeSuffix,
    a: Seq<Option<Seq<char>>>,
    b: Seq<Option<Seq<char>>>,
    n: int,
)
    requires
        n <= a.len(),
        n <= b.len(),
        forall|i: int| 0 <= i < n ==> a[i] == b[i],
    ensures
        replay_meta(a, n) == replay_meta(b, n),
        replay_children(st, a, n) == replay_children(st, b, n),
    decreases n,
{
    if n > 0 {
        lemma_replay_prefix(st, a, b, n - 1);
    }
}

/// Two replayable trees over the same regime, counter and table carry the
/// same children, so their observable state agrees; with the codec's
/// contracts this closes the encode/decode round trip.
pub proof fn lemma_replayable_determined(a: SuffixTree, b: SuffixTree)
    requires
        a.replayable(),
        b.replayable(),
        a.regime() == b.regime(),
        a.count_spec() == b.count_spec(),
        a.meta_abs() == b.meta_abs(),
    ensures
        a.root_abs() == b.root_abs(),
{
}

/// Entry strings determine the entries.
proof fn lemma_entry_map_inj(a: Seq<Option<Seq<char>>>, b: Seq<Option<Seq<char>>>)
    requires
        entries_strs(a) == entries_strs(b),
    ensures
        a == b,
{
    let ma = entries_strs(a);
    let mb = entries_strs(b);
    assert(a.len() == ma.len() && b.len() == mb.len());
    assert forall|i: int| 0 <= i < a.len() implies a[i] == b[i] by {
        assert(ma[i] == entry_str(a[i]));
        assert(mb[i] == entry_str(b[i]));
        match (a[i], b[i]) {
            (Some(t1), Some(t2)) => {
                assert(entry_str(a[i]) == entry_str(b[i]));
                assert(seq!['+'] + t1 == seq!['+'] + t2);
                assert(t1 =~= t2) by {
                    assert(forall|y: int| 0 <= y < t1.len() ==> t1[y] == (seq!['+'] + t1)[y + 1]);
                    assert(forall|y: int| 0 <= y < t2.len() ==> t2[y] == (seq!['+'] + t2)[y + 1]);
                }
            },
            (Some(t1), None) => {
                assert(entry_str(a[i]).len() >= 1);
                assert(entry_str(b[i]).len() == 0);
            },
            (None, Some(t2)) => {
                assert(entry_str(a[i]).len() == 0);
                assert(entry_str(b[i]).len() >= 1);
            },
            (None, None) => {},
        }
    }
    assert(a =~= b);
}

} // verus!
