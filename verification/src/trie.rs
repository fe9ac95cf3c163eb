//! Prefix trie over tokens: each stored token is one path of characters
//! from the root to a terminal node, and a search lists every stored token
//! that extends the queried prefix.
use vstd::prelude::*;
use crate::strutil::{is_prefix_of, chars_of, string_from_chars};

verus! {

/// One trie node: a terminal flag and the children keyed by their next
/// character.
pub struct TrieNode {
    terminal: bool,
    children: Vec<(char, TrieNode)>,
}

/// Prefix-indexed token store.
pub struct Trie {
    root: TrieNode,
}

impl TrieNode {
    /// Children are keyed uniquely, recursively.
    pub closed spec fn wf(self) -> bool
        decreases self,
    {
        &&& (forall|i: int, j: int|
            0 <= i < j < self.children@.len() ==> (#[trigger] self.children@[i]).0 != (
            #[trigger] self.children@[j]).0)
        &&& (forall|i: int|
            0 <= i < self.children@.len() ==> (#[trigger] self.children@[i]).1.wf())
    }

    /// The token `t` is stored below this node.
    pub closed spec fn has_token(self, t: Seq<char>) -> bool
        decreases t.len(),
    {
        if t.len() == 0 {
            self.terminal
        } else {
            exists|i: int|
                0 <= i < self.children@.len() && (#[trigger] self.children@[i]).0 == t[0]
                    && self.children@[i].1.has_token(t.skip(1))
        }
    }
}

/// Inserting `t` adds that one token and keeps every other.
pub open spec fn node_insert_effect(pre: TrieNode, post: TrieNode, t: Seq<char>) -> bool {
    forall|s: Seq<char>| post.has_token(s) <==> (pre.has_token(s) || s == t)
}

/// A linear chain holding exactly the token `t@.skip(i)`.
fn make_chain(t: &Vec<char>, i: usize) -> (r: TrieNode)
    requires
        i <= t@.len(),
    ensures
        r.wf(),
        forall|s: Seq<char>| r.has_token(s) <==> s == t@.skip(i as int),
    decreases t@.len() - i,
{
    if i == t.len() {
        let r = TrieNode { terminal: true, children: Vec::new() };
        proof {
            assert(t@.skip(i as int) =~= Seq::<char>::empty());
            assert forall|s: Seq<char>| r.has_token(s) <==> s == t@.skip(i as int) by {
                if s.len() == 0 {
                    assert(s =~= Seq::<char>::empty());
                }
            }
        }
        r
    } else {
        let child = make_chain(t, i + 1);
        let c = t[i];
        let mut kids: Vec<(char, TrieNode)> = Vec::new();
        kids.push((c, child));
        let r = TrieNode { terminal: false, children: kids };
        proof {
            let tail = t@.skip(i as int);
            assert(tail =~= seq![t@[i as int]] + t@.skip(i + 1));
            assert forall|s: Seq<char>| r.has_token(s) <==> s == tail by {
                if s.len() == 0 {
                } else {
                    assert(r.children@[0].0 == c);
                    if s[0] == c && child.has_token(s.skip(1)) {
                        assert(s =~= seq![s[0]] + s.skip(1));
                        assert(s == tail);
                    }
                    if s == tail {
                        assert(s[0] == c);
                        assert(s.skip(1) =~= t@.skip(i + 1));
                        assert(r.children@[0].1.has_token(s.skip(1)));
                    }
                }
            }
        }
        r
    }
}

/// The position of the child keyed by `c`, if any.
fn find_child(children: &Vec<(char, TrieNode)>, c: char) -> (r: Option<usize>)
    ensures
        r matches Some(j) ==> j < children@.len() && children@[j as int].0 == c,
        r is None ==> forall|x: int| 0 <= x < children@.len() ==> (#[trigger] children@[x]).0 != c,
{
    let mut j: usize = 0;
    while j < children.len()
        invariant
            j <= children@.len(),
            forall|x: int| 0 <= x < j ==> (#[trigger] children@[x]).0 != c,
        decreases children@.len() - j,
    {
        if children[j].0 == c {
            return Some(j);
        }
        j = j + 1;
    }
    None
}

/// Insert the token `t@.skip(i)` below `node`.
#[verifier::spinoff_prover]
#[verifier::rlimit(100)]
fn node_insert(node: &mut TrieNode, t: &Vec<char>, i: usize)
    requires
        old(node).wf(),
        i <= t@.len(),
    ensures
        final(node).wf(),
        node_insert_effect(*old(node), *final(node), t@.skip(i as int)),
    decreases t@.len() - i,
{
    if i == t.len() {
        node.terminal = true;
        proof {
            assert(node.children@ == old(node).children@);
            assert(node.wf());
            assert(t@.skip(i as int) =~= Seq::<char>::empty());
            assert forall|s: Seq<char>|
                node.has_token(s) <==> (old(node).has_token(s) || s == t@.skip(i as int)) by {
                if s.len() == 0 {
                    assert(s =~= Seq::<char>::empty());
                }
            }
            assert(node_insert_effect(*old(node), *node, t@.skip(i as int)));
        }
        return ;
    }
    let c = t[i];
    // look for the child keyed by the next character
    let hit = find_child(&node.children, c);
    let ghost pre = *node;
    let ghost tail = t@.skip(i as int);
    proof {
        assert(tail =~= seq![t@[i as int]] + t@.skip(i + 1));
        assert(tail.skip(1) =~= t@.skip(i + 1));
        assert(tail[0] == c);
    }
    if let Some(j) = hit {
        let mut pair = node.children.remove(j);
        let ghost child0 = pair.1;
        node_insert(&mut pair.1, t, i + 1);
        node.children.insert(j, pair);
        proof {
            assert(node.children@ =~= pre.children@.update(
                j as int,
                (c, node.children@[j as int].1),
            ));
            let childn = node.children@[j as int].1;
            assert(node.terminal == pre.terminal);
            // keys are unchanged
            assert(forall|x: int|
                0 <= x < node.children@.len() ==> (#[trigger] node.children@[x]).0
                    == pre.children@[x].0);
            assert forall|s: Seq<char>|
                node.has_token(s) <==> (pre.has_token(s) || s == tail) by {
                if s.len() == 0 {
                } else if s[0] == c {
                    // the only witness on either side is the child at j
                    assert forall|x: int|
                        0 <= x < node.children@.len() && (#[trigger] node.children@[x]).0 == s[0]
                            implies x == j by {
                        if x != j {
                            assert(pre.children@[x].0 != pre.children@[j as int].0);
                        }
                    }
                    assert(node.has_token(s) <==> childn.has_token(s.skip(1)));
                    assert(pre.has_token(s) <==> child0.has_token(s.skip(1)));
                    assert(node_insert_effect(child0, childn, t@.skip(i + 1)));
                    assert(childn.has_token(s.skip(1)) <==> (child0.has_token(s.skip(1)) || s.skip(
                        1,
                    ) == t@.skip(i + 1)));
                    if s.skip(1) == tail.skip(1) && s[0] == tail[0] {
                        assert(s =~= tail);
                    }
                    if s == tail {
                        assert(s.skip(1) == tail.skip(1));
                    }
                } else {
                    assert(s != tail);
                    assert(node.has_token(s) <==> pre.has_token(s)) by {
                        if node.has_token(s) {
                            let x = choose|x: int|
                                0 <= x < node.children@.len() && (#[trigger] node.children@[x]).0
                                    == s[0] && node.children@[x].1.has_token(s.skip(1));
                            assert(x != j);
                            assert(pre.children@[x] == node.children@[x]);
                        }
                        if pre.has_token(s) {
                            let x = choose|x: int|
                                0 <= x < pre.children@.len() && (#[trigger] pre.children@[x]).0
                                    == s[0] && pre.children@[x].1.has_token(s.skip(1));
                            assert(x != j);
                            assert(pre.children@[x] == node.children@[x]);
                        }
                    }
                }
            }
            assert(node_insert_effect(pre, *node, tail));
            assert(node.wf()) by {
                assert(forall|x: int|
                    0 <= x < node.children@.len() && x != j ==> (#[trigger] node.children@[x])
                        == pre.children@[x]);
                assert(forall|x: int, y: int|
                    0 <= x < y < node.children@.len() ==> (#[trigger] node.children@[x]).0 != (
                    #[trigger] node.children@[y]).0);
                assert(forall|x: int|
                    0 <= x < node.children@.len() ==> (#[trigger] node.children@[x]).1.wf());
            }
        }
    } else {
        let chain = make_chain(t, i + 1);
        node.children.push((c, chain));
        proof {
            let ghost m = pre.children@.len() as int;
            assert(node.children@ =~= pre.children@.push((c, chain)));
            assert(node.children@[m].0 == c);
            // the new key is fresh among the old keys
            assert(forall|x: int| 0 <= x < m ==> (#[trigger] node.children@[x]).0 != c);
            assert forall|s: Seq<char>|
                node.has_token(s) <==> (pre.has_token(s) || s == tail) by {
                if s.len() == 0 {
                } else if s[0] == c {
                    assert(!pre.has_token(s)) by {
                        if pre.has_token(s) {
                            let x = choose|x: int|
                                0 <= x < pre.children@.len() && (#[trigger] pre.children@[x]).0
                                    == s[0] && pre.children@[x].1.has_token(s.skip(1));
                        }
                    }
                    assert(node.has_token(s) <==> chain.has_token(s.skip(1))) by {
                        if node.has_token(s) {
                            let x = choose|x: int|
                                0 <= x < node.children@.len() && (#[trigger] node.children@[x]).0
                                    == s[0] && node.children@[x].1.has_token(s.skip(1));
                            assert(x == m);
                        }
                    }
                    if s.skip(1) == tail.skip(1) && s[0] == tail[0] {
                        assert(s =~= tail);
                    }
                    if s == tail {
                        assert(s.skip(1) == tail.skip(1));
                    }
                } else {
                    assert(s != tail);
                    assert(node.has_token(s) <==> pre.has_token(s)) by {
                        if node.has_token(s) {
                            let x = choose|x: int|
                                0 <= x < node.children@.len() && (#[trigger] node.children@[x]).0
                                    == s[0] && node.children@[x].1.has_token(s.skip(1));
                            assert(x < m);
                            assert(pre.children@[x] == node.children@[x]);
                        }
                        if pre.has_token(s) {
                            let x = choose|x: int|
                                0 <= x < pre.children@.len() && (#[trigger] pre.children@[x]).0
                                    == s[0] && pre.children@[x].1.has_token(s.skip(1));
                            assert(pre.children@[x] == node.children@[x]);
                        }
                    }
                }
            }
            assert(node_insert_effect(pre, *node, tail));
            assert(node.wf()) by {
                assert(forall|x: int|
                    0 <= x < m ==> (#[trigger] node.children@[x]) == pre.children@[x]);
                assert(forall|x: int, y: int|
                    0 <= x < y < node.children@.len() ==> (#[trigger] node.children@[x]).0 != (
                    #[trigger] node.children@[y]).0);
                assert(forall|x: int|
                    0 <= x < node.children@.len() ==> (#[trigger] node.children@[x]).1.wf());
            }
        }
    }
}

/// Copy of the characters in `v`.
fn copy_chars(v: &Vec<char>) -> (r: Vec<char>)
    ensures
        r@ == v@,
{
    let mut r: Vec<char> = Vec::new();
    let mut i: usize = 0;
    while i < v.len()
        invariant
            i <= v@.len(),
            r@ == v@.take(i as int),
        decreases v@.len() - i,
    {
        r.push(v[i]);
        proof {
            assert(r@ =~= v@.take(i + 1));
        }
        i = i + 1;
    }
    proof {
        assert(r@ =~= v@);
    }
    r
}

/// `w` is one of the strings a collect below `node` under `prefix` may add.
spec fn entry_sound(node: TrieNode, prefix: Seq<char>, w: Seq<char>) -> bool {
    is_prefix_of(prefix, w) && node.has_token(w.skip(prefix.len() as int))
}

/// Where `w` came from: the terminal word at `prefix` itself, or one of the
/// first `upto` children.
spec fn entry_from(node: TrieNode, prefix: Seq<char>, w: Seq<char>, upto: int) -> bool {
    (w.len() == prefix.len() && node.terminal) || (w.len() > prefix.len() && exists|x: int|
        0 <= x < upto && (#[trigger] node.children@[x]).0 == w[prefix.len() as int])
}

/// `s` is a token found under one of the first `upto` children of `node`.
spec fn token_in_children(node: TrieNode, s: Seq<char>, upto: int) -> bool {
    s.len() > 0 && exists|x: int|
        0 <= x < upto && (#[trigger] node.children@[x]).0 == s[0]
            && node.children@[x].1.has_token(s.skip(1))
}

/// Append to `out` one string `prefix + s` for every token `s` below
/// `node`, each exactly once.
#[verifier::spinoff_prover]
#[verifier::rlimit(100)]
fn node_collect(node: &TrieNode, prefix: &Vec<char>, out: &mut Vec<String>)
    requires
        node.wf(),
    ensures
        final(out)@.len() >= old(out)@.len(),
        forall|k: int| 0 <= k < old(out)@.len() ==> final(out)@[k] == old(out)@[k],
        forall|k: int|
            old(out)@.len() <= k < final(out)@.len() ==> entry_sound(
                *node,
                prefix@,
                (#[trigger] final(out)@[k])@,
            ),
        forall|s: Seq<char>|
            node.has_token(s) ==> exists|k: int|
                old(out)@.len() <= k < final(out)@.len() && (#[trigger] final(out)@[k])@ == prefix@
                    + s,
        forall|k1: int, k2: int|
            old(out)@.len() <= k1 < k2 < final(out)@.len() ==> (#[trigger] final(out)@[k1])@ != (
            #[trigger] final(out)@[k2])@,
    decreases node,
{
    let ghost base = out@.len() as int;
    let ghost plen = prefix@.len() as int;
    if node.terminal {
        let w = string_from_chars(prefix);
        out.push(w);
        proof {
            assert(out@[base]@ =~= prefix@ + Seq::<char>::empty());
            assert(out@[base]@.skip(plen) =~= Seq::<char>::empty());
            assert(entry_sound(*node, prefix@, out@[base]@));
        }
    }
    let mut ci: usize = 0;
    while ci < node.children.len()
        invariant
            node.wf(),
            ci <= node.children@.len(),
            plen == prefix@.len(),
            base == old(out)@.len(),
            base <= out@.len(),
            forall|k: int| 0 <= k < old(out)@.len() ==> out@[k] == old(out)@[k],
            forall|k: int|
                base <= k < out@.len() ==> entry_sound(*node, prefix@, (#[trigger] out@[k])@)
                    && entry_from(*node, prefix@, out@[k]@, ci as int),
            node.terminal ==> exists|k: int|
                base <= k < out@.len() && (#[trigger] out@[k])@ == prefix@,
            forall|s: Seq<char>|
                token_in_children(*node, s, ci as int) ==> exists|k: int|
                    base <= k < out@.len() && (#[trigger] out@[k])@ == prefix@ + s,
            forall|k1: int, k2: int|
                base <= k1 < k2 < out@.len() ==> (#[trigger] out@[k1])@ != (#[trigger] out@[k2])@,
        decreases node.children@.len() - ci,
    {
        let mut p2 = copy_chars(prefix);
        let c = node.children[ci].0;
        p2.push(c);
        let ghost out1 = out@;
        let ghost mark = out@.len() as int;
        proof {
            assert(decreases_to!(node => node.children@[ci as int].1));
            assert(p2@ == prefix@.push(c));
        }
        node_collect(&node.children[ci].1, &p2, out);
        proof {
            let child = node.children@[ci as int].1;
            assert(forall|k: int| 0 <= k < mark ==> out@[k] == #[trigger] out1[k]);
            // new entries come from the child just processed
            assert forall|k: int| mark <= k < out@.len() implies entry_sound(
                *node,
                prefix@,
                (#[trigger] out@[k])@,
            ) && out@[k]@.len() > plen && out@[k]@[plen] == c by {
                let w = out@[k]@;
                assert(entry_sound(child, p2@, w));
                assert(is_prefix_of(p2@, w));
                assert(child.has_token(w.skip(plen + 1)));
                assert(w.len() >= plen + 1);
                assert(w[plen] == p2@[plen]);
                assert(p2@[plen] == c);
                let s = w.skip(plen);
                assert(s =~= seq![w[plen]] + w.skip(plen + 1));
                assert(s[0] == c && s.skip(1) =~= w.skip(plen + 1));
                assert(node.children@[ci as int].0 == s[0]
                    && node.children@[ci as int].1.has_token(s.skip(1)));
                assert(node.has_token(s));
                assert(forall|y: int| 0 <= y < plen ==> w[y] == p2@[y] && p2@[y] == prefix@[y]);
                assert(is_prefix_of(prefix@, w));
            }
            assert forall|k: int| base <= k < out@.len() implies entry_sound(
                *node,
                prefix@,
                (#[trigger] out@[k])@,
            ) && entry_from(*node, prefix@, out@[k]@, ci + 1) by {
                if k < mark {
                    assert(out@[k] == out1[k]);
                    assert(entry_sound(*node, prefix@, out1[k]@));
                    assert(entry_from(*node, prefix@, out1[k]@, ci as int));
                } else {
                    assert(out@[k]@[plen] == c);
                    assert(node.children@[ci as int].0 == c);
                    assert(entry_from(*node, prefix@, out@[k]@, ci + 1));
                }
            }
            assert(node.terminal ==> exists|k: int|
                base <= k < out@.len() && (#[trigger] out@[k])@ == prefix@) by {
                if node.terminal {
                    let k = choose|k: int| base <= k < mark && (#[trigger] out1[k])@ == prefix@;
                    assert(out@[k]@ == prefix@);
                }
            }
            assert forall|s: Seq<char>| #[trigger]
                token_in_children(*node, s, ci + 1) implies exists|k: int|
                base <= k < out@.len() && (#[trigger] out@[k])@ == prefix@ + s by {
                let x = choose|x: int|
                    0 <= x < ci + 1 && (#[trigger] node.children@[x]).0 == s[0]
                        && node.children@[x].1.has_token(s.skip(1));
                if x == ci {
                    assert(child.has_token(s.skip(1)));
                    let k = choose|k: int|
                        mark <= k < out@.len() && (#[trigger] out@[k])@ == p2@ + s.skip(1);
                    assert(p2@ + s.skip(1) =~= prefix@ + (seq![s[0]] + s.skip(1)));
                    assert(seq![s[0]] + s.skip(1) =~= s);
                    assert(out@[k]@ == prefix@ + s);
                } else {
                    assert(token_in_children(*node, s, ci as int));
                    let k = choose|k: int|
                        base <= k < mark && (#[trigger] out1[k])@ == prefix@ + s;
                    assert(out@[k]@ == prefix@ + s);
                }
            }
            assert forall|k1: int, k2: int|
                base <= k1 < k2 < out@.len() implies (#[trigger] out@[k1])@ != (
            #[trigger] out@[k2])@ by {
                if k2 < mark {
                    assert(out@[k1] == out1[k1] && out@[k2] == out1[k2]);
                } else if k1 >= mark {
                } else {
                    // k1 is older, k2 is from the child just processed
                    assert(out@[k1] == out1[k1]);
                    assert(entry_from(*node, prefix@, out1[k1]@, ci as int));
                    let w1 = out@[k1]@;
                    let w2 = out@[k2]@;
                    assert(w2.len() > plen && w2[plen] == c);
                    if w1.len() == plen {
                        assert(w1.len() != w2.len());
                        assert(w1 != w2);
                    } else {
                        let x = choose|x: int|
                            0 <= x < ci && (#[trigger] node.children@[x]).0 == w1[plen];
                        assert(node.children@[x].0 != node.children@[ci as int].0);
                        assert(w1[plen] != w2[plen]);
                    }
                }
            }
        }
        ci = ci + 1;
    }
    proof {
        assert forall|s: Seq<char>| node.has_token(s) implies exists|k: int|
            base <= k < out@.len() && (#[trigger] out@[k])@ == prefix@ + s by {
            if s.len() == 0 {
                assert(s =~= Seq::<char>::empty());
                let k = choose|k: int| base <= k < out@.len() && (#[trigger] out@[k])@ == prefix@;
                assert(prefix@ + s =~= prefix@);
                assert(out@[k]@ == prefix@ + s);
            } else {
                assert(token_in_children(*node, s, node.children@.len() as int));
            }
        }
    }
}

/// Some stored token has `key` as a prefix.
pub open spec fn trie_has_prefix_match(t: Trie, key: Seq<char>) -> bool {
    exists|s: Seq<char>| t.contains_token(s) && #[trigger] is_prefix_of(key, s)
}

/// `v` lists, each exactly once, the stored tokens with prefix `key`.
pub open spec fn trie_search_post(t: Trie, key: Seq<char>, v: Seq<Seq<char>>) -> bool {
    &&& v.len() > 0
    &&& forall|k: int|
        0 <= k < v.len() ==> t.contains_token(#[trigger] v[k]) && is_prefix_of(key, v[k])
    &&& forall|s: Seq<char>| t.contains_token(s) && #[trigger] is_prefix_of(key, s) ==> v.contains(
        s,
    )
    &&& forall|k1: int, k2: int| 0 <= k1 < k2 < v.len() ==> v[k1] != v[k2]
}

impl Trie {
    /// The trie is well formed.
    pub closed spec fn wf(self) -> bool {
        self.root.wf()
    }

    /// The token `t` is stored.
    pub closed spec fn contains_token(self, t: Seq<char>) -> bool {
        self.root.has_token(t)
    }

    /// An empty trie.
    pub fn new() -> (r: Self)
        ensures
            r.wf(),
            forall|t: Seq<char>| !r.contains_token(t),
    {
        Trie { root: TrieNode { terminal: false, children: Vec::new() } }
    }

    /// Store one token; storing it again changes nothing.
    pub fn store(&mut self, key: String)
        requires
            old(self).wf(),
        ensures
            final(self).wf(),
            forall|t: Seq<char>|
                final(self).contains_token(t) <==> (old(self).contains_token(t) || t == key@),
    {
        let kc = chars_of(key.as_str());
        node_insert(&mut self.root, &kc, 0);
        proof {
            assert(kc@.skip(0) =~= key@);
            assert(node_insert_effect(old(self).root, self.root, key@));
        }
    }

    /// Every stored token that `key@` is a prefix of, each once; the error
    /// signals that none qualifies.
    #[verifier::spinoff_prover]
    #[verifier::rlimit(100)]
    pub fn search(&self, key: String) -> (r: Result<Vec<String>, &'static str>)
        requires
            self.wf(),
        ensures
            (r is Ok) <==> trie_has_prefix_match(*self, key@),
            r matches Ok(v) ==> trie_search_post(*self, key@, v.deep_view()),
    {
        let kc = chars_of(key.as_str());
        let mut cur: &TrieNode = &self.root;
        let mut i: usize = 0;
        proof {
            assert forall|s: Seq<char>| cur.has_token(s) <==> self.root.has_token(
                kc@.take(0) + s,
            ) by {
                assert(kc@.take(0) + s =~= s);
            }
        }
        while i < kc.len()
            invariant
                self.wf(),
                kc@ == key@,
                i <= kc@.len(),
                cur.wf(),
                forall|s: Seq<char>| cur.has_token(s) <==> self.root.has_token(
                    #[trigger] (kc@.take(i as int) + s),
                ),
            decreases kc@.len() - i,
        {
            let c = kc[i];
            let hit = find_child(&cur.children, c);
            if hit.is_none() {
                proof {
                    assert forall|t: Seq<char>|
                        self.contains_token(t) implies !is_prefix_of(key@, t) by {
                        if is_prefix_of(key@, t) {
                            let s = t.skip(i as int);
                            assert(kc@.take(i as int) + s =~= t);
                            assert(cur.has_token(s));
                            assert(s.len() > 0 && s[0] == kc@[i as int]);
                            let x = choose|x: int|
                                0 <= x < cur.children@.len() && (#[trigger] cur.children@[x]).0
                                    == s[0] && cur.children@[x].1.has_token(s.skip(1));
                            assert(false);
                        }
                    }
                }
                return Result::Err("no stored token extends the term");
            }
            let j = hit.unwrap();
            let ghost prev = *cur;
            cur = &cur.children[j].1;
            proof {
                assert forall|s: Seq<char>| cur.has_token(s) <==> self.root.has_token(
                    kc@.take(i + 1) + s,
                ) by {
                    let s1 = seq![c] + s;
                    assert(kc@.take(i + 1) + s =~= kc@.take(i as int) + s1);
                    assert(s1.len() > 0 && s1[0] == c && s1.skip(1) =~= s);
                    assert(cur.has_token(s) ==> prev.has_token(s1));
                    if prev.has_token(s1) {
                        let x = choose|x: int|
                            0 <= x < prev.children@.len() && (#[trigger] prev.children@[x]).0
                                == s1[0] && prev.children@[x].1.has_token(s1.skip(1));
                        assert forall|y: int|
                            0 <= y < prev.children@.len() && (#[trigger] prev.children@[y]).0 == c
                                implies y == j by {
                            if y != j {
                                assert(prev.children@[y].0 != prev.children@[j as int].0);
                            }
                        }
                        assert(x == j);
                        assert(cur.has_token(s));
                    }
                }
            }
            i = i + 1;
        }
        let mut out: Vec<String> = Vec::new();
        node_collect(cur, &kc, &mut out);
        proof {
            assert(kc@.take(kc@.len() as int) =~= key@);
            assert forall|k: int|
                0 <= k < out@.len() implies self.contains_token((#[trigger] out@[k])@)
                && is_prefix_of(key@, out@[k]@) by {
                assert(entry_sound(*cur, kc@, out@[k]@));
                let s = out@[k]@.skip(key@.len() as int);
                assert(cur.has_token(s));
                assert(is_prefix_of(key@, out@[k]@));
                assert(key@ + s =~= out@[k]@);
            }
            assert forall|t: Seq<char>|
                self.contains_token(t) && #[trigger] is_prefix_of(key@, t) implies exists|k: int|
                0 <= k < out@.len() && (#[trigger] out@[k])@ == t by {
                let s = t.skip(key@.len() as int);
                assert(key@ + s =~= t);
                assert(cur.has_token(s));
                let k = choose|k: int| 0 <= k < out@.len() && (#[trigger] out@[k])@ == key@ + s;
            }
        }
        if out.len() == 0 {
            proof {
                assert forall|t: Seq<char>|
                    self.contains_token(t) implies !is_prefix_of(key@, t) by {
                    if is_prefix_of(key@, t) {
                        let k = choose|k: int| 0 <= k < out@.len() && (#[trigger] out@[k])@ == t;
                    }
                }
            }
            return Result::Err("no stored token extends the term");
        }
        proof {
            let w = out@[0]@;
            assert(self.contains_token(w) && is_prefix_of(key@, w));
            assert(trie_has_prefix_match(*self, key@));
            let dv = out.deep_view();
            assert(dv.len() == out@.len());
            assert(forall|k: int| 0 <= k < dv.len() ==> #[trigger] dv[k] == out@[k]@);
            assert forall|s: Seq<char>|
                self.contains_token(s) && #[trigger] is_prefix_of(key@, s) implies dv.contains(
                s,
            ) by {
                let k = choose|k: int| 0 <= k < out@.len() && (#[trigger] out@[k])@ == s;
                assert(dv[k] == s);
            }
            assert(trie_search_post(*self, key@, dv));
        }
        Result::Ok(out)
    }
}

/// Prefix completeness: a search for any prefix of a stored token lists
/// that token.
pub proof fn lemma_prefix_completeness(tr: Trie, t: Seq<char>, p: Seq<char>, v: Seq<Seq<char>>)
    requires
        tr.contains_token(t),
        is_prefix_of(p, t),
        trie_search_post(tr, p, v),
    ensures
        v.contains(t),
{
}

/// Idempotent ingestion: storing a token a second time leaves the stored
/// set unchanged.
pub proof fn lemma_store_idempotent(t0: Trie, t1: Trie, t2: Trie, key: Seq<char>)
    requires
        forall|t: Seq<char>| t1.contains_token(t) <==> (t0.contains_token(t) || t == key),
        forall|t: Seq<char>| t2.contains_token(t) <==> (t1.contains_token(t) || t == key),
    ensures
        forall|t: Seq<char>| t2.contains_token(t) <==> t1.contains_token(t),
{
}

} // verus!
