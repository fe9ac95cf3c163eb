//! Character-sequence predicates and small verified string routines that
//! the index structures share: prefix/suffix/containment tests, lexicographic
//! order and sorting, decimal rendering of counters, line splitting, and
//! space-separated joining and splitting of word lists.
use vstd::prelude::*;
use vstd::multiset::Multiset;

verus! {

// --- containment predicates over character sequences ---

/// `p` is a prefix of `s`.
pub open spec fn is_prefix_of(p: Seq<char>, s: Seq<char>) -> bool {
    p.len() <= s.len() && forall|i: int| 0 <= i < p.len() ==> p[i] == s[i]
}

/// `p` is a suffix of `s`.
pub open spec fn is_suffix_of(p: Seq<char>, s: Seq<char>) -> bool {
    p.len() <= s.len() && forall|i: int| 0 <= i < p.len() ==> p[i] == s[s.len() - p.len() + i]
}

/// `p` occurs in `s` starting at position `i`.
pub open spec fn contains_at(s: Seq<char>, p: Seq<char>, i: int) -> bool {
    0 <= i && i + p.len() <= s.len() && forall|j: int| 0 <= j < p.len() ==> p[j] == s[i + j]
}

/// `p` occurs somewhere in `s`.
pub open spec fn contains_seq(s: Seq<char>, p: Seq<char>) -> bool {
    exists|i: int| contains_at(s, p, i)
}

// --- exec conversions between &str and Vec<char> ---

/// The characters of `s`, in order.
pub fn chars_of(s: &str) -> (r: Vec<char>)
    ensures
        r@ == s@,
{
    let n = s.unicode_len();
    let mut r: Vec<char> = Vec::new();
    let mut i: usize = 0;
    while i < n
        invariant
            n == s@.len(),
            i <= n,
            r@ == s@.subrange(0, i as int),
        decreases n - i,
    {
        let c = s.get_char(i);
        r.push(c);
        proof {
            assert(r@ =~= s@.subrange(0, i + 1 as int));
        }
        i = i + 1;
    }
    proof {
        assert(r@ =~= s@);
    }
    r
}

/// Relies on `str::len` from std: the length of the string in UTF-8
/// bytes.
#[verifier::external_body]
pub fn byte_len(s: &str) -> (r: usize)
    ensures
        r == vstd::utf8::encode_utf8(s@).len(),
{
    s.len()
}

/// Relies on `String::push` from std: appends one character to the string.
#[verifier::external_body]
pub fn push_char(s: &mut String, c: char)
    ensures
        final(s)@ == old(s)@.push(c),
{
    s.push(c)
}

/// A `String` holding exactly the characters of `v`.
pub fn string_from_chars(v: &Vec<char>) -> (r: String)
    ensures
        r@ == v@,
{
    let mut r = String::new();
    let mut i: usize = 0;
    while i < v.len()
        invariant
            i <= v@.len(),
            r@ == v@.subrange(0, i as int),
        decreases v@.len() - i,
    {
        push_char(&mut r, v[i]);
        proof {
            assert(r@ =~= v@.subrange(0, i + 1 as int));
        }
        i = i + 1;
    }
    proof {
        assert(r@ =~= v@);
    }
    r
}

// --- exec containment tests ---

/// Whether `p@` is a prefix of `s@`.
pub fn chars_start_with(s: &Vec<char>, p: &Vec<char>) -> (r: bool)
    ensures
        r == is_prefix_of(p@, s@),
{
    if p.len() > s.len() {
        return false;
    }
    let mut i: usize = 0;
    while i < p.len()
        invariant
            p@.len() <= s@.len(),
            i <= p@.len(),
            forall|j: int| 0 <= j < i ==> p@[j] == s@[j],
        decreases p@.len() - i,
    {
        if p[i] != s[i] {
            return false;
        }
        i = i + 1;
    }
    true
}

/// Whether `p@` is a suffix of `s@`.
pub fn chars_end_with(s: &Vec<char>, p: &Vec<char>) -> (r: bool)
    ensures
        r == is_suffix_of(p@, s@),
{
    if p.len() > s.len() {
        return false;
    }
    let n: usize = s.len();
    let m: usize = p.len();
    let off: usize = n - m;
    let mut i: usize = 0;
    while i < m
        invariant
            n == s@.len(),
            m == p@.len(),
            m <= n,
            off == n - m,
            i <= m,
            forall|j: int| 0 <= j < i ==> p@[j] == s@[off + j],
        decreases m - i,
    {
        if p[i] != s[off + i] {
            return false;
        }
        i = i + 1;
    }
    true
}

/// Whether `p@` occurs anywhere in `s@`.
pub fn chars_contain(s: &Vec<char>, p: &Vec<char>) -> (r: bool)
    ensures
        r == contains_seq(s@, p@),
{
    if p.len() > s.len() {
        proof {
            assert(forall|i: int| !contains_at(s@, p@, i));
        }
        return false;
    }
    if p.len() == 0 {
        proof {
            assert(contains_at(s@, p@, 0));
        }
        return true;
    }
    let n: usize = s.len();
    let m: usize = p.len();
    let count: usize = n - m + 1;
    let mut i: usize = 0;
    while i < count
        invariant
            n == s@.len(),
            m == p@.len(),
            0 < m <= n,
            count == n - m + 1,
            i <= count,
            forall|x: int| 0 <= x < i ==> !contains_at(s@, p@, x),
        decreases count - i,
    {
        let mut j: usize = 0;
        let mut hit = true;
        while j < m
            invariant
                n == s@.len(),
                m == p@.len(),
                0 < m <= n,
                count == n - m + 1,
                i < count,
                j <= m,
                hit == (forall|y: int| 0 <= y < j ==> p@[y] == s@[i + y]),
            decreases m - j,
        {
            if p[j] != s[i + j] {
                hit = false;
                proof {
                    assert(!(forall|y: int| 0 <= y < j + 1 ==> p@[y] == s@[i + y]));
                }
                j = m;
            } else {
                proof {
                    if forall|y: int| 0 <= y < j ==> p@[y] == s@[i + y] {
                        assert(forall|y: int| 0 <= y < j + 1 ==> p@[y] == s@[i + y]);
                    }
                }
                j = j + 1;
            }
        }
        if hit {
            proof {
                assert(contains_at(s@, p@, i as int));
            }
            return true;
        }
        proof {
            assert(!contains_at(s@, p@, i as int));
        }
        i = i + 1;
    }
    proof {
        assert(forall|x: int| contains_at(s@, p@, x) ==> 0 <= x < count);
    }
    false
}

/// Whether the two strings hold the same characters.
pub fn str_eq(a: &str, b: &str) -> (r: bool)
    ensures
        r == (a@ == b@),
{
    let va = chars_of(a);
    let vb = chars_of(b);
    if va.len() != vb.len() {
        return false;
    }
    let mut i: usize = 0;
    while i < va.len()
        invariant
            va@ == a@,
            vb@ == b@,
            va@.len() == vb@.len(),
            i <= va@.len(),
            forall|j: int| 0 <= j < i ==> va@[j] == vb@[j],
        decreases va@.len() - i,
    {
        if va[i] != vb[i] {
            return false;
        }
        i = i + 1;
    }
    proof {
        assert(a@ =~= b@);
    }
    true
}

// --- lexicographic order on character sequences ---

/// `a` is lexicographically at most `b`, ordering characters by code point.
pub open spec fn lex_leq(a: Seq<char>, b: Seq<char>) -> bool
    decreases a.len(),
{
    if a.len() == 0 {
        true
    } else if b.len() == 0 {
        false
    } else if (a[0] as u32) < (b[0] as u32) {
        true
    } else if (a[0] as u32) > (b[0] as u32) {
        false
    } else {
        lex_leq(a.skip(1), b.skip(1))
    }
}

/// The lexicographic order is total.
pub proof fn lemma_lex_total(a: Seq<char>, b: Seq<char>)
    ensures
        lex_leq(a, b) || lex_leq(b, a),
    decreases a.len(),
{
    if a.len() != 0 && b.len() != 0 && a[0] as u32 == b[0] as u32 {
        lemma_lex_total(a.skip(1), b.skip(1));
    }
}

/// The lexicographic order is transitive.
pub proof fn lemma_lex_trans(a: Seq<char>, b: Seq<char>, c: Seq<char>)
    requires
        lex_leq(a, b),
        lex_leq(b, c),
    ensures
        lex_leq(a, c),
    decreases a.len(),
{
    if a.len() != 0 && b.len() != 0 && c.len() != 0 {
        if a[0] as u32 == b[0] as u32 && b[0] as u32 == c[0] as u32 {
            lemma_lex_trans(a.skip(1), b.skip(1), c.skip(1));
        }
    }
}

/// Whether `a@` is lexicographically at most `b@`.
pub fn str_lex_leq(a: &str, b: &str) -> (r: bool)
    ensures
        r == lex_leq(a@, b@),
{
    let va = chars_of(a);
    let vb = chars_of(b);
    let mut i: usize = 0;
    proof {
        assert(va@.skip(0) =~= va@);
        assert(vb@.skip(0) =~= vb@);
    }
    loop
        invariant
            va@ == a@,
            vb@ == b@,
            i <= va@.len(),
            i <= vb@.len(),
            lex_leq(a@, b@) == lex_leq(va@.skip(i as int), vb@.skip(i as int)),
        decreases va@.len() - i,
    {
        if i == va.len() {
            return true;
        }
        if i == vb.len() {
            return false;
        }
        let ca = va[i] as u32;
        let cb = vb[i] as u32;
        if ca < cb {
            return true;
        }
        if ca > cb {
            return false;
        }
        proof {
            assert(va@.skip(i as int).skip(1) =~= va@.skip(i + 1 as int));
            assert(vb@.skip(i as int).skip(1) =~= vb@.skip(i + 1 as int));
        }
        i = i + 1;
    }
}

// --- decimal rendering of counters ---

/// The digit character for `d`.
pub open spec fn digit_char(d: int) -> char {
    if d == 0 {
        '0'
    } else if d == 1 {
        '1'
    } else if d == 2 {
        '2'
    } else if d == 3 {
        '3'
    } else if d == 4 {
        '4'
    } else if d == 5 {
        '5'
    } else if d == 6 {
        '6'
    } else if d == 7 {
        '7'
    } else if d == 8 {
        '8'
    } else {
        '9'
    }
}

/// The decimal digits of `n`, most significant first.
pub open spec fn dec_digits(n: int) -> Seq<char>
    decreases n,
{
    if n < 10 {
        seq![digit_char(n)]
    } else {
        dec_digits(n / 10).push(digit_char(n % 10))
    }
}

fn digit_exec(d: usize) -> (r: char)
    requires
        d < 10,
    ensures
        r == digit_char(d as int),
{
    if d == 0 {
        '0'
    } else if d == 1 {
        '1'
    } else if d == 2 {
        '2'
    } else if d == 3 {
        '3'
    } else if d == 4 {
        '4'
    } else if d == 5 {
        '5'
    } else if d == 6 {
        '6'
    } else if d == 7 {
        '7'
    } else if d == 8 {
        '8'
    } else {
        '9'
    }
}

fn dec_chars(n: usize) -> (r: Vec<char>)
    ensures
        r@ == dec_digits(n as int),
    decreases n,
{
    if n < 10 {
        let mut r: Vec<char> = Vec::new();
        r.push(digit_exec(n));
        proof {
            assert(r@ =~= dec_digits(n as int));
        }
        r
    } else {
        let mut r = dec_chars(n / 10);
        r.push(digit_exec(n % 10));
        r
    }
}

/// The decimal rendering of `n`.
pub fn dec_string(n: usize) -> (r: String)
    ensures
        r@ == dec_digits(n as int),
{
    let v = dec_chars(n);
    string_from_chars(&v)
}

// --- space-separated word lists ---

/// The words joined with single spaces.
pub open spec fn join_spaced(ws: Seq<Seq<char>>) -> Seq<char>
    decreases ws.len(),
{
    if ws.len() == 0 {
        Seq::empty()
    } else if ws.len() == 1 {
        ws[0]
    } else {
        ws[0] + seq![' '] + join_spaced(ws.skip(1))
    }
}

/// Joining one more word on the right appends a space and the word.
pub proof fn lemma_join_push(ws: Seq<Seq<char>>, w: Seq<char>)
    requires
        ws.len() >= 1,
    ensures
        join_spaced(ws.push(w)) == join_spaced(ws) + seq![' '] + w,
    decreases ws.len(),
{
    if ws.len() == 1 {
        assert(ws.push(w).skip(1) =~= seq![w]);
        assert(ws.push(w)[0] == ws[0]);
        assert(join_spaced(seq![w]) == w);
        assert(join_spaced(ws.push(w)) =~= ws[0] + seq![' '] + w);
    } else {
        assert(ws.push(w).skip(1) =~= ws.skip(1).push(w));
        lemma_join_push(ws.skip(1), w);
        assert(join_spaced(ws.push(w)) =~= join_spaced(ws) + seq![' '] + w);
    }
}

/// The longest prefix of `s` free of the `stop` character.
pub open spec fn first_seg(s: Seq<char>, stop: char) -> Seq<char>
    decreases s.len(),
{
    if s.len() == 0 || s[0] == stop {
        Seq::empty()
    } else {
        seq![s[0]] + first_seg(s.skip(1), stop)
    }
}

/// `first_seg` gives the prefix of `s` up to the first `stop`.
pub proof fn lemma_first_seg_props(s: Seq<char>, stop: char)
    ensures
        first_seg(s, stop).len() <= s.len(),
        first_seg(s, stop) == s.take(first_seg(s, stop).len() as int),
        forall|j: int| 0 <= j < first_seg(s, stop).len() ==> s[j] != stop,
        first_seg(s, stop).len() < s.len() ==> s[first_seg(s, stop).len() as int] == stop,
    decreases s.len(),
{
    if s.len() == 0 || s[0] == stop {
        assert(first_seg(s, stop) =~= s.take(0));
    } else {
        lemma_first_seg_props(s.skip(1), stop);
        let w = first_seg(s, stop);
        assert(w =~= s.take(w.len() as int));
        assert(forall|j: int| 1 <= j < w.len() ==> s[j] == s.skip(1)[j - 1]);
        assert(forall|j: int| 0 <= j < w.len() ==> s[j] != stop);
    }
}

/// If the first `k` characters of `s` are free of `stop` and position `k`
/// (when inside `s`) holds `stop`, then `first_seg` is exactly `s.take(k)`.
pub proof fn lemma_first_seg_exact(s: Seq<char>, stop: char, k: int)
    requires
        0 <= k <= s.len(),
        forall|j: int| 0 <= j < k ==> s[j] != stop,
        k < s.len() ==> s[k] == stop,
    ensures
        first_seg(s, stop) == s.take(k),
    decreases s.len(),
{
    if s.len() == 0 {
        assert(first_seg(s, stop) =~= s.take(0));
    } else if k == 0 {
        assert(first_seg(s, stop) =~= s.take(0));
    } else {
        assert(forall|j: int| 0 <= j < k - 1 ==> s.skip(1)[j] != stop);
        lemma_first_seg_exact(s.skip(1), stop, k - 1);
        assert(first_seg(s, stop) =~= s.take(k));
    }
}

#[via_fn]
proof fn split_sp_decreases(s: Seq<char>) {
    lemma_first_seg_props(s, ' ');
}

/// The segments of `s` between spaces; the empty sequence gives one
/// empty segment, as splitting on a single separator does.
pub open spec fn split_sp(s: Seq<char>) -> Seq<Seq<char>>
    decreases s.len(),
        via split_sp_decreases
{
    let w = first_seg(s, ' ');
    if w.len() == s.len() {
        seq![w]
    } else {
        seq![w] + split_sp(s.skip(w.len() as int + 1))
    }
}

/// Splitting is left inverse to joining, for space-free words.
pub proof fn lemma_split_join(ws: Seq<Seq<char>>)
    requires
        ws.len() >= 1,
        forall|i: int| 0 <= i < ws.len() ==> !(#[trigger] ws[i]).contains(' '),
    ensures
        split_sp(join_spaced(ws)) == ws,
    decreases ws.len(),
{
    let s = join_spaced(ws);
    if ws.len() == 1 {
        assert(forall|j: int| 0 <= j < s.len() ==> s[j] != ' ') by {
            assert(forall|j: int| 0 <= j < ws[0].len() ==> ws[0][j] != ' ') by {
                assert(!ws[0].contains(' '));
                assert(forall|j: int| 0 <= j < ws[0].len() ==> #[trigger] ws[0][j] == ws[0][j]
                    && ws[0].contains(ws[0][j]));
            }
        }
        lemma_first_seg_exact(s, ' ', s.len() as int);
        assert(first_seg(s, ' ') =~= s);
        assert(split_sp(s) =~= seq![ws[0]]);
        assert(split_sp(s) =~= ws);
    } else {
        let w0 = ws[0];
        let rest = join_spaced(ws.skip(1));
        assert(s == w0 + seq![' '] + rest);
        assert(forall|j: int| 0 <= j < w0.len() ==> s[j] != ' ') by {
            assert(!ws[0].contains(' '));
            assert(forall|j: int| 0 <= j < w0.len() ==> #[trigger] w0[j] == s[j] && w0.contains(
                w0[j]));
        }
        assert(s[w0.len() as int] == ' ');
        lemma_first_seg_exact(s, ' ', w0.len() as int);
        assert(first_seg(s, ' ') =~= s.take(w0.len() as int));
        assert(first_seg(s, ' ') =~= w0);
        assert(s.skip(w0.len() as int + 1) =~= rest);
        assert(forall|i: int| 0 <= i < ws.skip(1).len() ==> !(#[trigger] ws.skip(1)[i]).contains(
            ' '));
        lemma_split_join(ws.skip(1));
        assert(split_sp(s) =~= seq![w0] + split_sp(rest));
        assert(split_sp(s) =~= ws);
    }
}

/// The characters of `v@` before the first `stop`.
pub fn first_seg_exec(v: &Vec<char>, stop: char) -> (r: Vec<char>)
    ensures
        r@ == first_seg(v@, stop),
{
    let mut r: Vec<char> = Vec::new();
    let mut i: usize = 0;
    while i < v.len()
        invariant
            i <= v@.len(),
            r@ == v@.take(i as int),
            forall|j: int| 0 <= j < i ==> v@[j] != stop,
        decreases v@.len() - i,
    {
        if v[i] == stop {
            proof {
                lemma_first_seg_exact(v@, stop, i as int);
            }
            return r;
        }
        r.push(v[i]);
        proof {
            assert(r@ =~= v@.take(i + 1 as int));
        }
        i = i + 1;
    }
    proof {
        lemma_first_seg_exact(v@, stop, v@.len() as int);
        assert(r@ =~= v@.take(v@.len() as int));
    }
    r
}

/// The words of `ws.deep_view().subrange(from, to)` joined with single
/// spaces.
pub fn join_spaced_range(ws: &Vec<String>, from: usize, to: usize) -> (r: String)
    requires
        from <= to <= ws@.len(),
    ensures
        r@ == join_spaced(ws.deep_view().subrange(from as int, to as int)),
{
    let ghost dv = ws.deep_view();
    proof {
        assert(dv.len() == ws@.len());
    }
    if from == to {
        proof {
            assert(dv.subrange(from as int, to as int) =~= Seq::<Seq<char>>::empty());
        }
        return String::new();
    }
    let mut r: String = ws[from].clone();
    let mut i: usize = from + 1;
    proof {
        assert(join_spaced(dv.subrange(from as int, from + 1)) == dv[from as int]) by {
            assert(dv.subrange(from as int, from + 1) =~= seq![dv[from as int]]);
        }
        assert(r@ == ws@[from as int]@);
        assert(dv[from as int] == ws@[from as int]@);
    }
    while i < to
        invariant
            from < i <= to <= ws@.len(),
            dv == ws.deep_view(),
            dv.len() == ws@.len(),
            r@ == join_spaced(dv.subrange(from as int, i as int)),
        decreases to - i,
    {
        push_char(&mut r, ' ');
        let w = &ws[i];
        r.append(w.as_str());
        proof {
            let pre = dv.subrange(from as int, i as int);
            assert(pre.len() >= 1);
            lemma_join_push(pre, dv[i as int]);
            assert(pre.push(dv[i as int]) =~= dv.subrange(from as int, i + 1));
            assert(dv[i as int] == ws@[i as int]@);
            assert(r@ =~= join_spaced(pre) + seq![' '] + dv[i as int]);
        }
        i = i + 1;
    }
    r
}

/// Decimal digits are never spaces.
pub proof fn lemma_dec_digits_no_space(n: int)
    ensures
        !dec_digits(n).contains(' '),
    decreases n,
{
    if n < 10 {
        assert(dec_digits(n) =~= seq![digit_char(n)]);
        assert(forall|j: int| 0 <= j < dec_digits(n).len() ==> dec_digits(n)[j] != ' ');
        assert(!dec_digits(n).contains(' '));
    } else {
        lemma_dec_digits_no_space(n / 10);
        let d = dec_digits(n);
        assert(forall|j: int| 0 <= j < d.len() - 1 ==> d[j] == dec_digits(n / 10)[j]);
        assert forall|j: int| 0 <= j < d.len() implies d[j] != ' ' by {
            if j < d.len() - 1 {
                assert(!dec_digits(n / 10).contains(' '));
                assert(dec_digits(n / 10)[j] != ' ') by {
                    if dec_digits(n / 10)[j] == ' ' {
                        assert(dec_digits(n / 10).contains(' '));
                    }
                }
            }
        }
        assert(!d.contains(' '));
    }
}

/// The segments of a split start with the first segment and are space
/// free.
pub proof fn lemma_split_sp_props(s: Seq<char>)
    ensures
        split_sp(s).len() >= 1,
        split_sp(s)[0] == first_seg(s, ' '),
        forall|i: int| 0 <= i < split_sp(s).len() ==> !(#[trigger] split_sp(s)[i]).contains(' '),
    decreases s.len(),
{
    lemma_first_seg_props(s, ' ');
    let w = first_seg(s, ' ');
    assert(!w.contains(' ')) by {
        if w.contains(' ') {
            let j = choose|j: int| 0 <= j < w.len() && w[j] == ' ';
            assert(s.take(w.len() as int)[j] == ' ');
            assert(s[j] == ' ');
        }
    }
    if w.len() != s.len() {
        lemma_split_sp_props(s.skip(w.len() as int + 1));
        assert(forall|i: int|
            1 <= i < split_sp(s).len() ==> split_sp(s)[i] == split_sp(s.skip(w.len() as int + 1))[i
                - 1]);
    }
}

/// The first word of a join of space-free words is the first word.
pub proof fn lemma_first_word_of_join(ws: Seq<Seq<char>>)
    requires
        ws.len() >= 1,
        forall|i: int| 0 <= i < ws.len() ==> !(#[trigger] ws[i]).contains(' '),
    ensures
        first_seg(join_spaced(ws), ' ') == ws[0],
{
    lemma_split_join(ws);
    lemma_split_sp_props(join_spaced(ws));
}

/// The position of the first `stop` at or after `from`, or the length.
pub fn find_char_from(v: &Vec<char>, from: usize, stop: char) -> (k: usize)
    requires
        from <= v@.len(),
    ensures
        from <= k <= v@.len(),
        forall|j: int| from <= j < k ==> v@[j] != stop,
        k < v@.len() ==> v@[k as int] == stop,
{
    let n = v.len();
    let mut k: usize = from;
    while k < n
        invariant
            n == v@.len(),
            from <= k <= n,
            forall|j: int| from <= j < k ==> v@[j] != stop,
        decreases n - k,
    {
        if v[k] == stop {
            return k;
        }
        k = k + 1;
    }
    k
}

/// The space-separated segments of `s@`.
pub fn split_spaced(s: &str) -> (r: Vec<String>)
    ensures
        r.deep_view() == split_sp(s@),
{
    let v = chars_of(s);
    let n = v.len();
    let mut r: Vec<String> = Vec::new();
    let mut from: usize = 0;
    proof {
        assert(r.deep_view() =~= Seq::<Seq<char>>::empty());
        assert(v@.skip(0) =~= v@);
        assert(split_sp(s@) =~= r.deep_view() + split_sp(v@.skip(0)));
    }
    loop
        invariant
            v@ == s@,
            n == v@.len(),
            from <= n,
            split_sp(s@) == r.deep_view() + split_sp(v@.skip(from as int)),
        decreases n - from,
    {
        // scan the current word
        let k = find_char_from(&v, from, ' ');
        let ghost tail = v@.skip(from as int);
        proof {
            assert(forall|j: int| 0 <= j < k - from ==> tail[j] != ' ');
            if k < n {
                assert(tail[k - from as int] == ' ');
            }
            lemma_first_seg_exact(tail, ' ', k - from as int);
        }
        let mut word: Vec<char> = Vec::new();
        let mut x: usize = from;
        while x < k
            invariant
                v@ == s@,
                from <= x <= k <= n,
                n == v@.len(),
                word@ == v@.subrange(from as int, x as int),
            decreases k - x,
        {
            word.push(v[x]);
            proof {
                assert(word@ =~= v@.subrange(from as int, x + 1));
            }
            x = x + 1;
        }
        proof {
            assert(tail.take(k - from as int) =~= v@.subrange(from as int, k as int));
        }
        let wstr = string_from_chars(&word);
        let ghost old_r = r.deep_view();
        r.push(wstr);
        proof {
            assert(r.deep_view() =~= old_r.push(wstr@));
        }
        if k == n {
            proof {
                assert(first_seg(tail, ' ').len() == tail.len());
                assert(split_sp(tail) =~= seq![first_seg(tail, ' ')]);
                assert(r.deep_view() + Seq::<Seq<char>>::empty() =~= r.deep_view());
                assert(old_r + split_sp(tail) =~= r.deep_view());
            }
            return r;
        }
        proof {
            assert(first_seg(tail, ' ').len() == k - from);
            assert(first_seg(tail, ' ').len() < tail.len());
            assert(split_sp(tail) =~= seq![first_seg(tail, ' ')] + split_sp(
                tail.skip(k - from + 1)));
            assert(tail.skip(k - from + 1) =~= v@.skip(k + 1));
            assert(old_r + split_sp(tail) =~= r.deep_view() + split_sp(v@.skip(k + 1)));
        }
        from = k + 1;
    }
}

/// The sequence is lexicographically non-decreasing.
pub open spec fn sorted_lex(s: Seq<Seq<char>>) -> bool {
    forall|i: int, j: int| 0 <= i < j < s.len() ==> lex_leq(#[trigger] s[i], #[trigger] s[j])
}

/// Sort the strings lexicographically by repeatedly extracting a least
/// remaining element; the multiset of entries is kept.
pub fn sort_lex_strs<'a>(v: Vec<&'a str>) -> (r: Vec<&'a str>)
    ensures
        r.deep_view().to_multiset() == v.deep_view().to_multiset(),
        sorted_lex(r.deep_view()),
        r@.len() == v@.len(),
{
    broadcast use vstd::seq_lib::group_to_multiset_ensures;
    broadcast use vstd::multiset::group_multiset_axioms;

    let ghost orig = v.deep_view();
    let mut src = v;
    let mut out: Vec<&'a str> = Vec::new();
    proof {
        assert(out.deep_view() =~= Seq::<Seq<char>>::empty());
        assert forall|e: Seq<char>| #[trigger] out.deep_view().to_multiset().count(e) == 0 by {
            assert(!out.deep_view().contains(e));
        }
        assert(out.deep_view().to_multiset() =~= Multiset::<Seq<char>>::empty());
        assert(out.deep_view().to_multiset().add(src.deep_view().to_multiset())
            =~= orig.to_multiset());
    }
    while src.len() > 0
        invariant
            out.deep_view().to_multiset().add(src.deep_view().to_multiset()) == orig.to_multiset(),
            out@.len() + src@.len() == orig.len(),
            orig.len() == orig.to_multiset().len(),
            sorted_lex(out.deep_view()),
            forall|i: int, j: int|
                0 <= i < out.deep_view().len() && 0 <= j < src.deep_view().len() ==> lex_leq(
                    #[trigger] out.deep_view()[i],
                    #[trigger] src.deep_view()[j],
                ),
        decreases src@.len(),
    {
        // find a least remaining element
        let mut mi: usize = 0;
        let mut x: usize = 1;
        proof {
            lemma_lex_total(src.deep_view()[0], src.deep_view()[0]);
        }
        while x < src.len()
            invariant
                src@.len() > 0,
                mi < src@.len(),
                x <= src@.len(),
                forall|y: int| 0 <= y < x ==> lex_leq(
                    src.deep_view()[mi as int],
                    #[trigger] src.deep_view()[y],
                ),
            decreases src@.len() - x,
        {
            if str_lex_leq(src[x], src[mi]) {
                proof {
                    let ghost dv = src.deep_view();
                    assert(dv[x as int] == src@[x as int]@);
                    assert(dv[mi as int] == src@[mi as int]@);
                    assert forall|y: int| 0 <= y < x + 1 implies lex_leq(
                        dv[x as int],
                        #[trigger] dv[y],
                    ) by {
                        if y == x {
                            lemma_lex_total(dv[x as int], dv[x as int]);
                        } else {
                            lemma_lex_trans(dv[x as int], dv[mi as int], dv[y]);
                        }
                    }
                }
                mi = x;
            } else {
                proof {
                    let ghost dv = src.deep_view();
                    assert(dv[x as int] == src@[x as int]@);
                    assert(dv[mi as int] == src@[mi as int]@);
                    lemma_lex_total(dv[x as int], dv[mi as int]);
                    assert(lex_leq(dv[mi as int], dv[x as int]));
                }
            }
            x = x + 1;
        }
        let ghost src_dv = src.deep_view();
        let ghost out_dv = out.deep_view();
        let w = src.remove(mi);
        out.push(w);
        proof {
            assert(w@ == src_dv[mi as int]);
            assert(src.deep_view() =~= src_dv.remove(mi as int));
            assert(out.deep_view() =~= out_dv.push(w@));
            vstd::seq_lib::to_multiset_build::<Seq<char>>(out_dv, w@);
            assert(out.deep_view().to_multiset() =~= out_dv.to_multiset().insert(w@));
            vstd::seq_lib::to_multiset_remove::<Seq<char>>(src_dv, mi as int);
            assert(src.deep_view().to_multiset() =~= src_dv.to_multiset().remove(w@));
            assert(src_dv.contains(w@)) by {
                assert(src_dv[mi as int] == w@);
            }
            vstd::seq_lib::to_multiset_contains::<Seq<char>>(src_dv, w@);
            assert(src_dv.to_multiset().count(w@) > 0);
            assert(out.deep_view().to_multiset().add(src.deep_view().to_multiset())
                =~= out_dv.to_multiset().add(src_dv.to_multiset()));
            assert(sorted_lex(out.deep_view())) by {
                assert(forall|i: int|
                    0 <= i < out_dv.len() ==> out.deep_view()[i] == out_dv[i]);
                assert(forall|i: int|
                    0 <= i < out_dv.len() ==> lex_leq(#[trigger] out_dv[i], w@));
            }
            assert forall|i: int, j: int|
                0 <= i < out.deep_view().len() && 0 <= j < src.deep_view().len() implies lex_leq(
                #[trigger] out.deep_view()[i],
                #[trigger] src.deep_view()[j],
            ) by {
                let e = src.deep_view()[j];
                assert(e == src_dv.remove(mi as int)[j]);
                if j < mi {
                    assert(e == src_dv[j]);
                } else {
                    assert(e == src_dv[j + 1]);
                }
                if i < out_dv.len() {
                    assert(out.deep_view()[i] == out_dv[i]);
                } else {
                    assert(out.deep_view()[i] == w@);
                }
            }
        }
    }
    proof {
        assert(src.deep_view().to_multiset() =~= Seq::<Seq<char>>::empty().to_multiset());
        assert(out.deep_view().to_multiset().add(Multiset::empty()) =~= out.deep_view().to_multiset());
        assert(out.deep_view().to_multiset() =~= orig.to_multiset());
    }
    out
}


/// A newline-terminated segment without one trailing carriage return.
pub open spec fn strip_cr_end(l: Seq<char>) -> Seq<char> {
    if l.len() > 0 && l.last() == '\r' {
        l.drop_last()
    } else {
        l
    }
}

#[via_fn]
proof fn lines_of_decreases(s: Seq<char>) {
    lemma_first_seg_props(s, '\n');
}

/// The lines of a character sequence: segments split at a newline, each
/// newline-terminated segment giving up one trailing carriage return; a
/// final segment without a newline stays whole, and a trailing newline
/// adds no empty line.
pub open spec fn lines_of(s: Seq<char>) -> Seq<Seq<char>>
    decreases s.len(),
        via lines_of_decreases
{
    if s.len() == 0 {
        Seq::empty()
    } else {
        let l = first_seg(s, '\n');
        if l.len() == s.len() {
            seq![l]
        } else {
            seq![strip_cr_end(l)] + lines_of(s.skip(l.len() as int + 1))
        }
    }
}

/// The lines of `s@`.
pub fn lines_vec(s: &str) -> (r: Vec<String>)
    ensures
        r.deep_view() == lines_of(s@),
        s@.len() == 0 ==> r@.len() == 0,
{
    let v = chars_of(s);
    let n = v.len();
    let mut r: Vec<String> = Vec::new();
    let mut from: usize = 0;
    proof {
        assert(r.deep_view() =~= Seq::<Seq<char>>::empty());
        assert(v@.skip(0) =~= v@);
        assert(lines_of(s@) =~= r.deep_view() + lines_of(v@.skip(0)));
    }
    loop
        invariant
            v@ == s@,
            n == v@.len(),
            from <= n,
            lines_of(s@) == r.deep_view() + lines_of(v@.skip(from as int)),
        decreases n + 1 - from,
    {
        if from == n {
            proof {
                assert(v@.skip(from as int) =~= Seq::<char>::empty());
                assert(lines_of(v@.skip(from as int)) =~= Seq::<Seq<char>>::empty());
                assert(r.deep_view() =~= r.deep_view() + lines_of(v@.skip(from as int)));
            }
            return r;
        }
        let k = find_char_from(&v, from, '\n');
        let ghost tail = v@.skip(from as int);
        proof {
            assert(forall|j: int| 0 <= j < k - from ==> tail[j] != '\n');
            if k < n {
                assert(tail[k - from as int] == '\n');
            }
            lemma_first_seg_exact(tail, '\n', k - from as int);
        }
        // the segment, with one carriage return dropped when terminated
        let hi: usize = if k < n && k > from && v[k - 1] == '\r' {
            k - 1
        } else {
            k
        };
        let mut word: Vec<char> = Vec::new();
        let mut x: usize = from;
        while x < hi
            invariant
                v@ == s@,
                from <= x <= hi <= n,
                n == v@.len(),
                word@ == v@.subrange(from as int, x as int),
            decreases hi - x,
        {
            word.push(v[x]);
            proof {
                assert(word@ =~= v@.subrange(from as int, x + 1));
            }
            x = x + 1;
        }
        let ghost seg = first_seg(tail, '\n');
        proof {
            assert(seg =~= v@.subrange(from as int, k as int));
            if k < n {
                assert(strip_cr_end(seg) =~= v@.subrange(from as int, hi as int)) by {
                    if k > from && v@[k - 1] == '\r' {
                        assert(seg.len() > 0 && seg.last() == '\r');
                        assert(seg.drop_last() =~= v@.subrange(from as int, k - 1));
                    }
                }
            } else {
                assert(hi == k);
            }
        }
        let wstr = string_from_chars(&word);
        let ghost old_r = r.deep_view();
        r.push(wstr);
        proof {
            assert(r.deep_view() =~= old_r.push(wstr@));
        }
        if k == n {
            proof {
                assert(seg.len() == tail.len());
                assert(lines_of(tail) =~= seq![seg]);
                assert(wstr@ == seg);
                assert(old_r + lines_of(tail) =~= r.deep_view());
                assert(r.deep_view() =~= r.deep_view() + lines_of(v@.skip(n as int))) by {
                    assert(v@.skip(n as int) =~= Seq::<char>::empty());
                }
            }
            return r;
        }
        proof {
            assert(seg.len() == k - from);
            assert(seg.len() < tail.len());
            assert(lines_of(tail) =~= seq![strip_cr_end(seg)] + lines_of(
                tail.skip(k - from + 1)));
            assert(wstr@ == strip_cr_end(seg));
            assert(tail.skip(k - from + 1) =~= v@.skip(k + 1));
            assert(old_r + lines_of(tail) =~= r.deep_view() + lines_of(v@.skip(k + 1)));
        }
        from = k + 1;
    }
}

/// The lexicographic order is antisymmetric.
pub proof fn lemma_lex_antisym(a: Seq<char>, b: Seq<char>)
    requires
        lex_leq(a, b),
        lex_leq(b, a),
    ensures
        a == b,
    decreases a.len(),
{
    if a.len() == 0 {
        assert(b.len() == 0);
        assert(a =~= b);
    } else {
        assert(b.len() != 0);
        assert(a[0] == b[0]) by {
            vstd::utf8::char_u32_cast(a[0], a[0] as u32);
            vstd::utf8::char_u32_cast(b[0], b[0] as u32);
        }
        lemma_lex_antisym(a.skip(1), b.skip(1));
        assert(a =~= b) by {
            assert(forall|i: int| 1 <= i < a.len() ==> a[i] == a.skip(1)[i - 1]);
            assert(forall|i: int| 1 <= i < b.len() ==> b[i] == b.skip(1)[i - 1]);
        }
    }
}

/// A sorted, duplicate-free list of strings is determined by which
/// strings it holds.
pub proof fn lemma_sorted_distinct_unique(a: Seq<Seq<char>>, b: Seq<Seq<char>>)
    requires
        sorted_lex(a),
        sorted_lex(b),
        forall|i: int, j: int| 0 <= i < j < a.len() ==> a[i] != a[j],
        forall|i: int, j: int| 0 <= i < j < b.len() ==> b[i] != b[j],
        forall|w: Seq<char>| a.contains(w) <==> b.contains(w),
    ensures
        a == b,
    decreases a.len(),
{
    if a.len() == 0 {
        assert(b.len() == 0) by {
            if b.len() > 0 {
                assert(b.contains(b[0]));
                assert(a.contains(b[0]));
            }
        }
        assert(a =~= b);
    } else {
        assert(b.len() > 0) by {
            assert(a.contains(a[0]));
        }
        // the heads are both the least element, so they agree
        assert(a.contains(a[0]) && b.contains(b[0]));
        assert(b.contains(a[0]) && a.contains(b[0]));
        let i0 = choose|i0: int| 0 <= i0 < a.len() && a[i0] == b[0];
        let j0 = choose|j0: int| 0 <= j0 < b.len() && b[j0] == a[0];
        assert(lex_leq(a[0], a[i0]) && lex_leq(b[0], b[j0])) by {
            if i0 > 0 {
                assert(lex_leq(a[0], a[i0]));
            } else {
                lemma_lex_total(a[0], a[0]);
            }
            if j0 > 0 {
                assert(lex_leq(b[0], b[j0]));
            } else {
                lemma_lex_total(b[0], b[0]);
            }
        }
        lemma_lex_antisym(a[0], b[0]);
        assert(a[0] == b[0]);
        let at = a.skip(1);
        let bt = b.skip(1);
        assert(sorted_lex(at) && sorted_lex(bt)) by {
            assert(forall|i: int, j: int|
                0 <= i < j < at.len() ==> at[i] == a[i + 1] && at[j] == a[j + 1]);
            assert(forall|i: int, j: int|
                0 <= i < j < bt.len() ==> bt[i] == b[i + 1] && bt[j] == b[j + 1]);
        }
        assert forall|w: Seq<char>| at.contains(w) <==> bt.contains(w) by {
            if at.contains(w) {
                let i1 = choose|i1: int| 0 <= i1 < at.len() && at[i1] == w;
                assert(a[i1 + 1] == w);
                assert(w != a[0]);
                assert(b.contains(w));
                let j1 = choose|j1: int| 0 <= j1 < b.len() && b[j1] == w;
                assert(j1 != 0);
                assert(bt[j1 - 1] == w);
            }
            if bt.contains(w) {
                let j1 = choose|j1: int| 0 <= j1 < bt.len() && bt[j1] == w;
                assert(b[j1 + 1] == w);
                assert(w != b[0]);
                assert(a.contains(w));
                let i1 = choose|i1: int| 0 <= i1 < a.len() && a[i1] == w;
                assert(i1 != 0);
                assert(at[i1 - 1] == w);
            }
        }
        assert(forall|i: int, j: int| 0 <= i < j < at.len() ==> at[i] != at[j]) by {
            assert(forall|i: int, j: int|
                0 <= i < j < at.len() ==> at[i] == a[i + 1] && at[j] == a[j + 1]);
        }
        assert(forall|i: int, j: int| 0 <= i < j < bt.len() ==> bt[i] != bt[j]) by {
            assert(forall|i: int, j: int|
                0 <= i < j < bt.len() ==> bt[i] == b[i + 1] && bt[j] == b[j + 1]);
        }
        lemma_sorted_distinct_unique(at, bt);
        assert(a =~= b) by {
            assert(forall|i: int| 1 <= i < a.len() ==> a[i] == at[i - 1]);
            assert(forall|i: int| 1 <= i < b.len() ==> b[i] == bt[i - 1]);
        }
    }
}

} // verus!
