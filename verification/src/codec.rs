//! Binary codec for the three index structures. Counters are eight
//! little-endian bytes, characters four, strings a counted run of
//! characters. A trie artifact is its token list; the other two artifacts
//! carry their full state. Decoding validates the shape and fails on
//! anything that is not an encoding.
use vstd::prelude::*;
use crate::trie::Trie;
use crate::ngram::{NGramIndex, SearchScope, ngram_replay_grams, lemma_canonical_intro};
use crate::strutil::{string_from_chars, sorted_lex, sort_lex_strs};

verus! {

/// 256 to the `k`.
pub open spec fn pow256(k: nat) -> int
    decreases k,
{
    if k == 0 {
        1
    } else {
        256 * pow256((k - 1) as nat)
    }
}

/// The `k` little-endian base-256 digits of `n`.
pub open spec fn le_bytes(n: int, k: nat) -> Seq<u8>
    decreases k,
{
    if k == 0 {
        Seq::empty()
    } else {
        seq![(n % 256) as u8] + le_bytes(n / 256, (k - 1) as nat)
    }
}

/// The value of little-endian base-256 digits.
pub open spec fn from_le(s: Seq<u8>) -> int
    decreases s.len(),
{
    if s.len() == 0 {
        0
    } else {
        s[0] + 256 * from_le(s.skip(1))
    }
}

/// Reading back the digits of `n` gives `n`, and any digit run is bounded.
pub proof fn lemma_le_round_trip(n: int, k: nat)
    requires
        0 <= n < pow256(k),
    ensures
        le_bytes(n, k).len() == k,
        from_le(le_bytes(n, k)) == n,
    decreases k,
{
    if k > 0 {
        lemma_le_round_trip(n / 256, (k - 1) as nat);
        assert(le_bytes(n, k).skip(1) =~= le_bytes(n / 256, (k - 1) as nat));
        assert(from_le(le_bytes(n, k)) == n % 256 + 256 * (n / 256));
    }
}

/// Digit runs are bounded by the base power.
pub proof fn lemma_from_le_bound(s: Seq<u8>)
    ensures
        0 <= from_le(s) < pow256(s.len()),
    decreases s.len(),
{
    if s.len() > 0 {
        lemma_from_le_bound(s.skip(1));
    }
}

/// The concrete powers the byte readers bound their accumulators with.
pub proof fn lemma_pow256_vals()
    ensures
        pow256(3) == 0x100_0000,
        pow256(4) == 0x1_0000_0000,
        pow256(7) == 0x100_0000_0000_0000,
        pow256(8) == 0x1_0000_0000_0000_0000,
{
    reveal_with_fuel(pow256, 9);
}

/// The eight little-endian bytes of a counter.
pub open spec fn le8(n: int) -> Seq<u8> {
    le_bytes(n, 8)
}

/// The four little-endian bytes of a character.
pub open spec fn le4_char(c: char) -> Seq<u8> {
    le_bytes(c as u32 as int, 4)
}

/// A string: its character count, then four bytes per character.
pub open spec fn enc_chars(s: Seq<char>) -> Seq<u8>
    decreases s.len(),
{
    if s.len() == 0 {
        Seq::empty()
    } else {
        le4_char(s[0]) + enc_chars(s.skip(1))
    }
}

/// Counted string encoding.
pub open spec fn enc_str(s: Seq<char>) -> Seq<u8> {
    le8(s.len() as int) + enc_chars(s)
}

/// A counted list of strings.
pub open spec fn enc_str_seq(ws: Seq<Seq<char>>) -> Seq<u8>
    decreases ws.len(),
{
    if ws.len() == 0 {
        Seq::empty()
    } else {
        enc_str(ws[0]) + enc_str_seq(ws.skip(1))
    }
}

/// String list encodings concatenate.
pub proof fn lemma_enc_str_seq_cat(a: Seq<Seq<char>>, b: Seq<Seq<char>>)
    ensures
        enc_str_seq(a + b) == enc_str_seq(a) + enc_str_seq(b),
    decreases a.len(),
{
    if a.len() == 0 {
        assert(a + b =~= b);
        assert(enc_str_seq(a) =~= Seq::<u8>::empty());
        assert(enc_str_seq(a) + enc_str_seq(b) =~= enc_str_seq(b));
    } else {
        assert((a + b)[0] == a[0]);
        assert((a + b).skip(1) =~= a.skip(1) + b);
        lemma_enc_str_seq_cat(a.skip(1), b);
        assert(enc_str_seq(a + b) == enc_str(a[0]) + enc_str_seq(a.skip(1) + b));
        assert(enc_str(a[0]) + (enc_str_seq(a.skip(1)) + enc_str_seq(b)) =~= (enc_str(a[0])
            + enc_str_seq(a.skip(1))) + enc_str_seq(b));
    }
}

/// A counted token list: the count of tokens, then the tokens.
pub open spec fn enc_token_list(ws: Seq<Seq<char>>) -> Seq<u8> {
    le8(ws.len() as int) + enc_str_seq(ws)
}

/// Append the eight little-endian bytes of `n`.
fn push_le8(out: &mut Vec<u8>, n: usize)
    ensures
        final(out)@ == old(out)@ + le8(n as int),
{
    let mut m: u64 = n as u64;
    let ghost n0 = n as int;
    let mut i: usize = 0;
    proof {
        lemma_pow256_vals();
        assert(le8(n as int) =~= le_bytes(n as int, 8));
        assert(old(out)@ + le_bytes(n0, 8).take(0) =~= old(out)@);
    }
    while i < 8
        invariant
            i <= 8,
            out@ == old(out)@ + le_bytes(n0, 8).take(i as int),
            le_bytes(m as int, (8 - i) as nat) == le_bytes(n0, 8).skip(i as int),
        decreases 8 - i,
    {
        let b: u8 = (m % 256) as u8;
        out.push(b);
        proof {
            lemma_le_bytes_len(n0, 8);
            lemma_le_bytes_len(m as int, (8 - i) as nat);
            let rest = le_bytes(m as int, (8 - i) as nat);
            assert(rest[0] == b);
            assert(rest.skip(1) =~= le_bytes(m as int / 256, (8 - (i + 1)) as nat));
            assert(le_bytes(n0, 8).take(i + 1) =~= le_bytes(n0, 8).take(i as int).push(
                le_bytes(n0, 8)[i as int],
            ));
            assert(le_bytes(n0, 8)[i as int] == le_bytes(n0, 8).skip(i as int)[0]);
            assert(out@ =~= old(out)@ + le_bytes(n0, 8).take(i + 1));
            assert(le_bytes(n0, 8).skip(i + 1) =~= le_bytes(n0, 8).skip(i as int).skip(1));
        }
        m = m / 256;
        i = i + 1;
    }
    proof {
        lemma_le_bytes_len(n0, 8);
        assert(le_bytes(n0, 8).take(8) =~= le_bytes(n0, 8));
    }
}

/// Relies on `char::from_u32` from std: `Some` exactly on Unicode scalar
/// values, returning the character with that code point.
#[verifier::external_body]
fn char_from_u32(v: u32) -> (r: Option<char>)
    ensures
        r matches Some(c) ==> c as u32 == v,
        r is Some <==> (v < 0xD800 || (0xE000 <= v && v <= 0x10FFFF)),
{
    char::from_u32(v)
}

/// Append the four little-endian bytes of a character.
fn push_le4_char(out: &mut Vec<u8>, c: char)
    ensures
        final(out)@ == old(out)@ + le4_char(c),
{
    let mut m: u32 = c as u32;
    let ghost n0 = c as u32 as int;
    let mut i: usize = 0;
    proof {
        assert(old(out)@ + le_bytes(n0, 4).take(0) =~= old(out)@);
    }
    while i < 4
        invariant
            i <= 4,
            out@ == old(out)@ + le_bytes(n0, 4).take(i as int),
            le_bytes(m as int, (4 - i) as nat) == le_bytes(n0, 4).skip(i as int),
        decreases 4 - i,
    {
        let b: u8 = (m % 256) as u8;
        out.push(b);
        proof {
            lemma_le_bytes_len(n0, 4);
            lemma_le_bytes_len(m as int, (4 - i) as nat);
            let rest = le_bytes(m as int, (4 - i) as nat);
            assert(rest[0] == b);
            assert(rest.skip(1) =~= le_bytes(m as int / 256, (4 - (i + 1)) as nat));
            assert(le_bytes(n0, 4).take(i + 1) =~= le_bytes(n0, 4).take(i as int).push(
                le_bytes(n0, 4)[i as int],
            ));
            assert(le_bytes(n0, 4)[i as int] == le_bytes(n0, 4).skip(i as int)[0]);
            assert(out@ =~= old(out)@ + le_bytes(n0, 4).take(i + 1));
            assert(le_bytes(n0, 4).skip(i + 1) =~= le_bytes(n0, 4).skip(i as int).skip(1));
        }
        m = m / 256;
        i = i + 1;
    }
    proof {
        lemma_le_bytes_len(n0, 4);
        assert(le_bytes(n0, 4).take(4) =~= le_bytes(n0, 4));
    }
}

/// Append the counted encoding of a string.
fn push_str_enc(out: &mut Vec<u8>, s: &str)
    ensures
        final(out)@ == old(out)@ + enc_str(s@),
{
    let cs = crate::strutil::chars_of(s);
    push_le8(out, cs.len());
    let mut i: usize = 0;
    proof {
        assert(cs@.skip(0) =~= cs@);
        assert(out@ + enc_chars(cs@) =~= old(out)@ + enc_str(s@));
    }
    while i < cs.len()
        invariant
            i <= cs@.len(),
            out@ + enc_chars(cs@.skip(i as int)) == old(out)@ + enc_str(cs@),
            cs@ == s@,
        decreases cs@.len() - i,
    {
        let ghost tail = cs@.skip(i as int);
        push_le4_char(out, cs[i]);
        proof {
            assert(tail[0] == cs@[i as int]);
            assert(tail.skip(1) =~= cs@.skip(i + 1));
            assert(enc_chars(tail) =~= le4_char(cs@[i as int]) + enc_chars(cs@.skip(i + 1)));
            assert(out@ + enc_chars(cs@.skip(i + 1)) =~= old(out)@ + enc_str(cs@));
        }
        i = i + 1;
    }
    proof {
        assert(enc_chars(cs@.skip(cs@.len() as int)) =~= Seq::<u8>::empty());
        assert(out@ =~= out@ + enc_chars(cs@.skip(cs@.len() as int)));
    }
}

/// Read the eight-byte counter at `pos`.
fn read_le8(b: &Vec<u8>, pos: usize) -> (r: Option<(usize, usize)>)
    ensures
        r matches Some((v, p)) ==> p == pos + 8 && p <= b@.len() && pos <= b@.len() && b@.subrange(
            pos as int,
            p as int,
        ) == le8(v as int),
        r is None ==> pos + 8 > b@.len() || (forall|v: int|
            0 <= v <= usize::MAX ==> b@.subrange(pos as int, pos + 8) != le8(v)),
{
    if pos >= b.len() || b.len() - pos < 8 {
        return None;
    }
    let bl = b.len();
    let mut acc: u64 = 0;
    let mut i: usize = 8;
    let ghost run = b@.subrange(pos as int, pos + 8);
    proof {
        assert(run.skip(8) =~= Seq::<u8>::empty());
    }
    while i > 0
        invariant
            i <= 8,
            bl == b@.len(),
            pos + 8 <= bl,
            run == b@.subrange(pos as int, pos + 8),
            acc as int == from_le(run.skip(i as int)),
            (acc as int) < pow256((8 - i as int) as nat),
        decreases i,
    {
        proof {
            lemma_pow256_vals();
            assert(pow256((8 - (i - 1)) as nat) == 256 * pow256((8 - i) as nat));
            assert(pow256((8 - i) as nat) <= pow256(7)) by {
                lemma_pow256_mono((8 - i) as nat, 7);
            }
        }
        let byte = b[pos + i - 1];
        acc = acc * 256 + (byte as u64);
        proof {
            let tail = run.skip(i - 1);
            assert(tail[0] == run[i - 1]);
            assert(run[i - 1] == byte);
            assert(tail.skip(1) =~= run.skip(i as int));
            assert(acc as int == from_le(tail));
        }
        i = i - 1;
    }
    proof {
        assert(run.skip(0) =~= run);
        lemma_from_le_bound(run);
        lemma_le_round_trip(acc as int, 8);
        assert(from_le(le8(acc as int)) == from_le(run));
        lemma_from_le_inj(le8(acc as int), run);
    }
    if acc > (usize::MAX as u64) {
        proof {
            lemma_pow256_vals();
            assert forall|v: int|
                0 <= v <= usize::MAX implies b@.subrange(pos as int, pos + 8) != le8(v) by {
                if b@.subrange(pos as int, pos + 8) == le8(v) {
                    lemma_le_round_trip(v, 8);
                    assert(from_le(run) == v);
                }
            }
        }
        return None;
    }
    let v: usize = acc as usize;
    proof {
        assert(b@.subrange(pos as int, pos + 8) == le8(v as int));
    }
    Some((v, pos + 8))
}

/// A base-256 digit and its tail are determined by the value.
proof fn lemma_base256_digit(a0: int, b0: int, x: int, y: int)
    requires
        a0 + 256 * x == b0 + 256 * y,
        0 <= a0 < 256,
        0 <= b0 < 256,
    ensures
        a0 == b0,
        x == y,
{
    assert(a0 == b0 && x == y) by (nonlinear_arith)
        requires
            a0 + 256 * x == b0 + 256 * y,
            0 <= a0 < 256,
            0 <= b0 < 256,
    ;
}

/// Equal values read from equal-length digit runs mean equal runs.
pub proof fn lemma_from_le_inj(a: Seq<u8>, b: Seq<u8>)
    requires
        a.len() == b.len(),
        from_le(a) == from_le(b),
    ensures
        a == b,
    decreases a.len(),
{
    if a.len() > 0 {
        assert(from_le(a) == a[0] + 256 * from_le(a.skip(1)));
        assert(from_le(b) == b[0] + 256 * from_le(b.skip(1)));
        lemma_base256_digit(
            a[0] as int,
            b[0] as int,
            from_le(a.skip(1)),
            from_le(b.skip(1)),
        );
        lemma_from_le_inj(a.skip(1), b.skip(1));
        assert(forall|i: int| 1 <= i < a.len() ==> a[i] == a.skip(1)[i - 1]);
        assert(forall|i: int| 1 <= i < b.len() ==> b[i] == b.skip(1)[i - 1]);
        assert(a =~= b);
    } else {
        assert(a =~= b);
    }
}

/// Powers of 256 grow with the exponent.
pub proof fn lemma_pow256_mono(a: nat, b: nat)
    requires
        a <= b,
    ensures
        pow256(a) <= pow256(b),
        pow256(a) >= 1,
    decreases b,
{
    if a < b {
        lemma_pow256_mono(a, (b - 1) as nat);
    } else if b > 0 {
        lemma_pow256_mono((a - 1) as nat, (b - 1) as nat);
    }
}

/// Read the four-byte character at `pos`.
fn read_le4_char(b: &Vec<u8>, pos: usize) -> (r: Option<(char, usize)>)
    ensures
        r matches Some((c, p)) ==> p == pos + 4 && p <= b@.len() && b@.subrange(
            pos as int,
            p as int,
        ) == le4_char(c),
        pos + 4 <= b@.len() && (exists|c2: char|
            b@.subrange(pos as int, pos + 4) == le4_char(c2)) ==> r is Some,
{
    if pos >= b.len() || b.len() - pos < 4 {
        return None;
    }
    let bl = b.len();
    let mut acc: u32 = 0;
    let mut i: usize = 4;
    let ghost run = b@.subrange(pos as int, pos + 4);
    proof {
        assert(run.skip(4) =~= Seq::<u8>::empty());
    }
    while i > 0
        invariant
            i <= 4,
            bl == b@.len(),
            pos + 4 <= bl,
            run == b@.subrange(pos as int, pos + 4),
            acc as int == from_le(run.skip(i as int)),
            (acc as int) < pow256((4 - i as int) as nat),
        decreases i,
    {
        proof {
            lemma_pow256_vals();
            assert(pow256((4 - (i - 1)) as nat) == 256 * pow256((4 - i) as nat));
            assert(pow256((4 - i) as nat) <= pow256(3)) by {
                lemma_pow256_mono((4 - i) as nat, 3);
            }
        }
        let byte = b[pos + i - 1];
        acc = acc * 256 + (byte as u32);
        proof {
            let tail = run.skip(i - 1);
            assert(tail[0] == run[i - 1]);
            assert(run[i - 1] == byte);
            assert(tail.skip(1) =~= run.skip(i as int));
            assert(acc as int == from_le(tail));
        }
        i = i - 1;
    }
    proof {
        assert(run.skip(0) =~= run);
    }
    let copt = char_from_u32(acc);
    match copt {
        Some(c) => {
            proof {
                assert(c as u32 == acc);
                lemma_pow256_vals();
                vstd::utf8::char_is_scalar(c);
                lemma_from_le_bound(run);
                lemma_le_round_trip(c as u32 as int, 4);
                lemma_from_le_inj(le4_char(c), run);
            }
            Some((c, pos + 4))
        },
        None => {
            proof {
                if exists|c2: char| b@.subrange(pos as int, pos + 4) == le4_char(c2) {
                    let c2 = choose|c2: char| b@.subrange(pos as int, pos + 4) == le4_char(c2);
                    vstd::utf8::char_is_scalar(c2);
                    lemma_pow256_vals();
                    lemma_le_round_trip(c2 as u32 as int, 4);
                    assert(from_le(run) == c2 as u32 as int);
                    assert(acc == c2 as u32);
                    assert(false);
                }
            }
            None
        },
    }
}

/// Read the counted string at `pos`.
fn read_str_enc(b: &Vec<u8>, pos: usize) -> (r: Option<(String, usize)>)
    ensures
        r matches Some((s, p)) ==> pos <= p <= b@.len() && b@.subrange(pos as int, p as int)
            == enc_str(s@),
        (exists|s2: Seq<char>, p2: int|
            pos <= p2 <= b@.len() && b@.subrange(pos as int, p2) == enc_str(s2)) ==> r is Some,
{
    let bl = b.len();
    proof {
        lemma_pow256_vals();
        assert(bl as int <= usize::MAX as int);
    }
    let n_p = read_le8(b, pos);
    if n_p.is_none() {
        proof {
            if exists|s2: Seq<char>, p2: int|
                pos <= p2 <= b@.len() && b@.subrange(pos as int, p2) == enc_str(s2) {
                let (s2, p2): (Seq<char>, int) = choose|s2: Seq<char>, p2: int|
                    pos <= p2 <= b@.len() && b@.subrange(pos as int, p2) == enc_str(s2);
                lemma_le_len(s2.len() as int);
                lemma_enc_chars_len(s2);
                assert(b@.subrange(pos as int, p2).len() == p2 - pos);
                assert(enc_str(s2).len() == 8 + 4 * s2.len());
                assert(p2 - pos == 8 + 4 * s2.len());
                assert(b@.subrange(pos as int, pos + 8) =~= le8(s2.len() as int)) by {
                    assert(b@.subrange(pos as int, pos + 8) =~= b@.subrange(pos as int, p2).subrange(
                        0,
                        8,
                    ));
                    assert(enc_str(s2).subrange(0, 8) =~= le8(s2.len() as int));
                }
                assert(4 * s2.len() <= bl);
                assert(s2.len() <= usize::MAX);
                assert(false);
            }
        }
        return None;
    }
    let (n, mut p) = n_p.unwrap();
    let ghost hdr_end = p as int;
    let mut cs: Vec<char> = Vec::new();
    let mut i: usize = 0;
    proof {
        assert(b@.subrange(pos as int, hdr_end) == le8(n as int));
        assert(enc_chars(cs@) =~= Seq::<u8>::empty());
        assert(b@.subrange(hdr_end, p as int) =~= enc_chars(cs@));
    }
    while i < n
        invariant
            bl == b@.len(),
            hdr_end == pos + 8,
            pos <= hdr_end <= p <= b@.len(),
            b@.subrange(pos as int, hdr_end) == le8(n as int),
            cs@.len() == i <= n,
            b@.subrange(hdr_end, p as int) == enc_chars(cs@),
        decreases n - i,
    {
        let cp = read_le4_char(b, p);
        if cp.is_none() {
            proof {
                lemma_pow256_vals();
                if exists|s2: Seq<char>, p2: int|
                    pos <= p2 <= b@.len() && b@.subrange(pos as int, p2) == enc_str(s2) {
                    let (s2, p2): (Seq<char>, int) = choose|s2: Seq<char>, p2: int|
                        pos <= p2 <= b@.len() && b@.subrange(pos as int, p2) == enc_str(s2);
                    lemma_le_len(s2.len() as int);
                    lemma_enc_chars_len(s2);
                    assert(b@.subrange(pos as int, p2).len() == p2 - pos);
                    assert(enc_str(s2).len() == 8 + 4 * s2.len());
                    assert(p2 - pos == 8 + 4 * s2.len());
                    assert(b@.subrange(pos as int, pos + 8) =~= le8(s2.len() as int)) by {
                        assert(b@.subrange(pos as int, pos + 8) =~= b@.subrange(
                            pos as int,
                            p2,
                        ).subrange(0, 8));
                        assert(enc_str(s2).subrange(0, 8) =~= le8(s2.len() as int));
                    }
                    assert(4 * s2.len() <= bl);
                    assert(s2.len() <= usize::MAX);
                    assert(s2.len() < pow256(8));
                    lemma_le_round_trip(s2.len() as int, 8);
                    lemma_le_round_trip(n as int, 8);
                    assert(s2.len() == n as int);
                    // the next four bytes are the bytes of character i
                    assert(i < s2.len());
                    lemma_enc_chars_index(s2, i as int);
                    assert(b@.subrange(hdr_end, p2) =~= b@.subrange(pos as int, p2).subrange(
                        8,
                        p2 - pos,
                    ));
                    assert(enc_str(s2).subrange(8, p2 - pos) =~= enc_chars(s2));
                    assert(b@.subrange(hdr_end, p2) =~= enc_chars(s2));
                    assert(p as int == hdr_end + 4 * i) by {
                        lemma_enc_chars_len(cs@);
                    }
                    assert(p + 4 <= p2);
                    assert(b@.subrange(p as int, p + 4) =~= enc_chars(s2).subrange(
                        4 * i,
                        4 * i + 4,
                    ));
                    assert(false);
                }
            }
            return None;
        }
        let (c, p2) = cp.unwrap();
        proof {
            lemma_enc_chars_push(cs@, c);
            assert(b@.subrange(hdr_end, p2 as int) =~= b@.subrange(hdr_end, p as int)
                + b@.subrange(p as int, p2 as int));
            assert(b@.subrange(hdr_end, p2 as int) == enc_chars(cs@.push(c)));
        }
        cs.push(c);
        p = p2;
        i = i + 1;
    }
    let s = string_from_chars(&cs);
    proof {
        assert(s@.len() == n as int);
        assert(b@.subrange(pos as int, p as int) =~= b@.subrange(pos as int, hdr_end)
            + b@.subrange(hdr_end, p as int));
        assert(b@.subrange(pos as int, p as int) == enc_str(s@));
    }
    Some((s, p))
}

/// Appending one character extends the character run encoding.
pub proof fn lemma_enc_chars_push(s: Seq<char>, c: char)
    ensures
        enc_chars(s.push(c)) == enc_chars(s) + le4_char(c),
    decreases s.len(),
{
    if s.len() == 0 {
        assert(s.push(c)[0] == c);
        assert(s.push(c).skip(1) =~= Seq::<char>::empty());
        assert(enc_chars(Seq::<char>::empty()) =~= Seq::<u8>::empty());
        assert(enc_chars(s.push(c)) == le4_char(c) + enc_chars(s.push(c).skip(1)));
        assert(le4_char(c) + Seq::<u8>::empty() =~= le4_char(c));
        assert(enc_chars(s) =~= Seq::<u8>::empty());
        assert(enc_chars(s) + le4_char(c) =~= le4_char(c));
        assert(enc_chars(s.push(c)) =~= enc_chars(s) + le4_char(c));
    } else {
        assert(s.push(c).skip(1) =~= s.skip(1).push(c));
        lemma_enc_chars_push(s.skip(1), c);
        assert(s.push(c)[0] == s[0]);
        assert(enc_chars(s.push(c)) =~= enc_chars(s) + le4_char(c));
    }
}

/// Appending one string extends the string list encoding.
pub proof fn lemma_enc_str_seq_push(ws: Seq<Seq<char>>, w: Seq<char>)
    ensures
        enc_str_seq(ws.push(w)) == enc_str_seq(ws) + enc_str(w),
    decreases ws.len(),
{
    if ws.len() == 0 {
        assert(ws.push(w)[0] == w);
        assert(ws.push(w).skip(1) =~= Seq::<Seq<char>>::empty());
        assert(enc_str_seq(Seq::<Seq<char>>::empty()) =~= Seq::<u8>::empty());
        assert(enc_str_seq(ws.push(w)) == enc_str(w) + enc_str_seq(ws.push(w).skip(1)));
        assert(enc_str(w) + Seq::<u8>::empty() =~= enc_str(w));
        assert(enc_str_seq(ws) =~= Seq::<u8>::empty());
        assert(enc_str_seq(ws) + enc_str(w) =~= enc_str(w));
        assert(enc_str_seq(ws.push(w)) =~= enc_str_seq(ws) + enc_str(w));
    } else {
        assert(ws.push(w).skip(1) =~= ws.skip(1).push(w));
        lemma_enc_str_seq_push(ws.skip(1), w);
        assert(ws.push(w)[0] == ws[0]);
        assert(enc_str_seq(ws.push(w)) =~= enc_str_seq(ws) + enc_str(w));
    }
}

/// Encode a counted token list.
pub fn encode_token_list(toks: &Vec<String>) -> (r: Vec<u8>)
    ensures
        r@ == enc_token_list(toks.deep_view()),
{
    let mut out: Vec<u8> = Vec::new();
    push_le8(&mut out, toks.len());
    let ghost ws = toks.deep_view();
    let mut i: usize = 0;
    proof {
        assert(out@ =~= le8(ws.len() as int));
        assert(enc_str_seq(ws.take(0)) =~= Seq::<u8>::empty());
        assert(out@ =~= le8(ws.len() as int) + enc_str_seq(ws.take(0)));
    }
    while i < toks.len()
        invariant
            i <= toks@.len(),
            ws == toks.deep_view(),
            ws.len() == toks@.len(),
            out@ == le8(ws.len() as int) + enc_str_seq(ws.take(i as int)),
        decreases toks@.len() - i,
    {
        push_str_enc(&mut out, toks[i].as_str());
        proof {
            lemma_enc_str_seq_push(ws.take(i as int), ws[i as int]);
            assert(ws.take(i as int).push(ws[i as int]) =~= ws.take(i + 1));
            assert(out@ =~= le8(ws.len() as int) + enc_str_seq(ws.take(i + 1)));
        }
        i = i + 1;
    }
    proof {
        assert(ws.take(ws.len() as int) =~= ws);
    }
    out
}

/// Two sorted, duplicate-free token lists holding the same tokens encode
/// to the same bytes: a trie artifact is a function of the stored set.
pub proof fn lemma_token_list_canonical(ws1: Seq<Seq<char>>, ws2: Seq<Seq<char>>)
    requires
        sorted_lex(ws1),
        sorted_lex(ws2),
        forall|i: int, j: int| 0 <= i < j < ws1.len() ==> ws1[i] != ws1[j],
        forall|i: int, j: int| 0 <= i < j < ws2.len() ==> ws2[i] != ws2[j],
        forall|w: Seq<char>| ws1.contains(w) <==> ws2.contains(w),
    ensures
        enc_token_list(ws1) == enc_token_list(ws2),
{
    crate::strutil::lemma_sorted_distinct_unique(ws1, ws2);
}

/// Encode a trie as the counted list of its stored tokens.
pub fn encode_trie(t: &Trie) -> (r: Vec<u8>)
    requires
        t.wf(),
    ensures
        exists|ws: Seq<Seq<char>>|
            {
                &&& r@ == enc_token_list(ws)
                &&& forall|k: int| 0 <= k < ws.len() ==> t.contains_token(#[trigger] ws[k])
                &&& forall|s: Seq<char>| t.contains_token(s) ==> ws.contains(s)
                &&& forall|k1: int, k2: int| 0 <= k1 < k2 < ws.len() ==> ws[k1] != ws[k2]
                &&& sorted_lex(ws)
            },
{
    broadcast use vstd::seq_lib::group_to_multiset_ensures;

    let toks = match t.search(String::new()) {
        Result::Ok(v) => v,
        Result::Err(_) => Vec::new(),
    };
    proof {
        assert(forall|s: Seq<char>| crate::strutil::is_prefix_of(Seq::<char>::empty(), s));
        if toks@.len() == 0 {
            assert(forall|s: Seq<char>| !t.contains_token(s)) by {
                if exists|s: Seq<char>| t.contains_token(s) {
                    let s = choose|s: Seq<char>| t.contains_token(s);
                    assert(crate::strutil::is_prefix_of(Seq::<char>::empty(), s));
                    assert(crate::trie::trie_has_prefix_match(*t, Seq::<char>::empty()));
                }
            }
        }
    }
    // write the tokens sorted, so the artifact is canonical for the set
    let mut refs: Vec<&str> = Vec::new();
    let mut i: usize = 0;
    proof {
        assert(refs.deep_view() =~= toks.deep_view().take(0));
    }
    while i < toks.len()
        invariant
            i <= toks@.len(),
            refs.deep_view() == toks.deep_view().take(i as int),
        decreases toks@.len() - i,
    {
        let ghost prev = refs.deep_view();
        refs.push(toks[i].as_str());
        proof {
            assert(refs.deep_view() =~= prev.push(toks@[i as int]@));
            assert(toks.deep_view()[i as int] == toks@[i as int]@);
            assert(refs.deep_view() =~= toks.deep_view().take(i + 1));
        }
        i = i + 1;
    }
    proof {
        assert(toks.deep_view().take(toks.deep_view().len() as int) =~= toks.deep_view());
    }
    let sorted_refs = sort_lex_strs(refs);
    let mut sorted: Vec<String> = Vec::new();
    let mut j: usize = 0;
    proof {
        assert(sorted.deep_view() =~= sorted_refs.deep_view().take(0));
    }
    while j < sorted_refs.len()
        invariant
            j <= sorted_refs@.len(),
            sorted.deep_view() == sorted_refs.deep_view().take(j as int),
        decreases sorted_refs@.len() - j,
    {
        let ghost prev = sorted.deep_view();
        sorted.push(sorted_refs[j].to_owned());
        proof {
            assert(sorted.deep_view() =~= prev.push(sorted_refs@[j as int]@));
            assert(sorted_refs.deep_view()[j as int] == sorted_refs@[j as int]@);
            assert(sorted.deep_view() =~= sorted_refs.deep_view().take(j + 1));
        }
        j = j + 1;
    }
    let out = encode_token_list(&sorted);
    let ghost tv = toks.deep_view();
    let ghost ws = sorted.deep_view();
    proof {
        assert(sorted_refs.deep_view().take(sorted_refs.deep_view().len() as int)
            =~= sorted_refs.deep_view());
        assert(ws == sorted_refs.deep_view());
        assert(out@ == enc_token_list(ws));
        assert(sorted_lex(ws));
        // sorting permutes the tokens, so membership carries over
        assert(ws.to_multiset() == tv.to_multiset());
        assert forall|w: Seq<char>| ws.contains(w) <==> tv.contains(w) by {
            vstd::seq_lib::to_multiset_contains::<Seq<char>>(ws, w);
            vstd::seq_lib::to_multiset_contains::<Seq<char>>(tv, w);
        }
        // and so does freedom from duplicates
        assert(forall|k1: int, k2: int|
            0 <= k1 < k2 < ws.len() ==> ws[k1] != ws[k2]) by {
            assert(tv.no_duplicates()) by {
                assert(forall|k1: int, k2: int|
                    0 <= k1 < k2 < tv.len() ==> tv[k1] != tv[k2]);
            }
            tv.lemma_multiset_has_no_duplicates();
            assert(forall|x: Seq<char>|
                ws.to_multiset().contains(x) ==> ws.to_multiset().count(x) == 1);
            ws.lemma_multiset_has_no_duplicates_conv();
            assert(ws.no_duplicates());
        }
        assert forall|k: int| 0 <= k < ws.len() implies t.contains_token(#[trigger] ws[k]) by {
            assert(tv.contains(ws[k]));
            let m = choose|m: int| 0 <= m < tv.len() && #[trigger] tv[m] == ws[k];
        }
        assert forall|s: Seq<char>| t.contains_token(s) implies ws.contains(s) by {
            assert(crate::strutil::is_prefix_of(Seq::<char>::empty(), s));
            assert(tv.contains(s));
        }
        assert(exists|ws2: Seq<Seq<char>>|
            {
                &&& out@ == enc_token_list(ws2)
                &&& forall|k: int| 0 <= k < ws2.len() ==> t.contains_token(#[trigger] ws2[k])
                &&& forall|s: Seq<char>| t.contains_token(s) ==> ws2.contains(s)
                &&& forall|k1: int, k2: int| 0 <= k1 < k2 < ws2.len() ==> ws2[k1] != ws2[k2]
                &&& sorted_lex(ws2)
            }) by {
            assert({
                &&& out@ == enc_token_list(ws)
                &&& forall|k: int| 0 <= k < ws.len() ==> t.contains_token(#[trigger] ws[k])
                &&& forall|s: Seq<char>| t.contains_token(s) ==> ws.contains(s)
                &&& forall|k1: int, k2: int| 0 <= k1 < k2 < ws.len() ==> ws[k1] != ws[k2]
                &&& sorted_lex(ws)
            });
        }
    }
    out
}

/// Decode a counted token list, in order.
pub fn decode_token_list(b: &Vec<u8>) -> (r: Result<Vec<String>, &'static str>)
    ensures
        r matches Ok(v) ==> b@ == enc_token_list(v.deep_view()),
        forall|ws: Seq<Seq<char>>|
            b@ == enc_token_list(ws) ==> (r matches Ok(v) && v.deep_view() == ws),
        (r is Err) <==> (forall|ws: Seq<Seq<char>>| b@ != #[trigger] enc_token_list(ws)),
{
    let bl = b.len();
    proof {
        lemma_pow256_vals();
        assert(bl as int <= usize::MAX as int);
    }
    let n_p = read_le8(b, 0);
    if n_p.is_none() {
        proof {
            lemma_no_header_no_tokens(b@);
        }
        return Result::Err("truncated artifact");
    }
    let (n, mut p) = n_p.unwrap();
    let mut toks: Vec<String> = Vec::new();
    let mut i: usize = 0;
    proof {
        assert(toks.deep_view() =~= Seq::<Seq<char>>::empty());
        assert(enc_str_seq(toks.deep_view()) =~= Seq::<u8>::empty());
        assert(b@.subrange(8, p as int) =~= enc_str_seq(toks.deep_view()));
    }
    while i < n
        invariant
            b@.len() < pow256(8),
            8 <= p <= b@.len(),
            b@.subrange(0, 8) == le8(n as int),
            toks.deep_view().len() == i <= n,
            b@.subrange(8, p as int) == enc_str_seq(toks.deep_view()),
        decreases n - i,
    {
        let sp = read_str_enc(b, p);
        if sp.is_none() {
            proof {
                lemma_partial_parse_mismatch(b@, toks.deep_view(), n as int, p as int);
            }
            return Result::Err("truncated artifact");
        }
        let (s, p2) = sp.unwrap();
        let ghost prev = toks.deep_view();
        let ghost sv = s@;
        toks.push(s);
        proof {
            assert(toks.deep_view() =~= prev.push(sv));
            lemma_enc_str_seq_push(prev, sv);
            assert(b@.subrange(8, p2 as int) =~= b@.subrange(8, p as int) + b@.subrange(
                p as int,
                p2 as int,
            ));
            assert(b@.subrange(8, p2 as int) == enc_str_seq(toks.deep_view()));
        }
        p = p2;
        i = i + 1;
    }
    if p != b.len() {
        proof {
            lemma_full_parse_leftover(b@, toks.deep_view(), n as int, p as int);
        }
        return Result::Err("artifact holds trailing bytes");
    }
    proof {
        assert(b@.subrange(8, b@.len() as int) == enc_str_seq(toks.deep_view()));
        assert(b@ =~= b@.subrange(0, 8) + b@.subrange(8, b@.len() as int));
        assert(b@ == enc_token_list(toks.deep_view()));
        assert forall|ws: Seq<Seq<char>>|
            b@ == enc_token_list(ws) implies toks.deep_view() == ws by {
            lemma_token_list_inj(b@, ws, toks.deep_view());
        }
        assert(!(forall|ws: Seq<Seq<char>>| b@ != #[trigger] enc_token_list(ws))) by {
            assert(b@ == enc_token_list(toks.deep_view()));
        }
    }
    Result::Ok(toks)
}

/// A buffer encodes at most one token list.
pub proof fn lemma_token_list_inj(b: Seq<u8>, ws: Seq<Seq<char>>, seen: Seq<Seq<char>>)
    requires
        b.len() < pow256(8),
        b == enc_token_list(ws),
        b == enc_token_list(seen),
        seen.len() <= usize::MAX,
    ensures
        ws == seen,
{
    lemma_le_len(ws.len() as int);
    lemma_le_len(seen.len() as int);
    lemma_enc_str_seq_len_ge(ws);
    lemma_pow256_vals();
    assert(b.subrange(0, 8) =~= le8(ws.len() as int));
    assert(b.subrange(0, 8) =~= le8(seen.len() as int));
    assert(8 * ws.len() <= b.len());
    lemma_from_le_inj_vals(seen.len() as int, ws.len() as int);
    assert(b.subrange(8, b.len() as int) =~= enc_str_seq(ws));
    assert(b.subrange(8, b.len() as int) =~= enc_str_seq(seen));
    assert(enc_str_seq(ws) == enc_str_seq(seen) + Seq::<u8>::empty()) by {
        assert(enc_str_seq(seen) + Seq::<u8>::empty() =~= enc_str_seq(seen));
    }
    assert(enc_str_seq(ws).len() < pow256(8));
    lemma_str_seq_prefix_agree(ws, seen);
    assert(ws =~= seen);
}

/// Decode a trie artifact by storing each listed token into a fresh trie.
pub fn decode_trie(b: &Vec<u8>) -> (r: Result<Trie, &'static str>)
    ensures
        r matches Ok(t) ==> t.wf(),
        forall|ws: Seq<Seq<char>>|
            b@ == enc_token_list(ws) ==> (r matches Ok(t) && (forall|s: Seq<char>|
                t.contains_token(s) <==> ws.contains(s))),
        (r is Err) <==> (forall|ws: Seq<Seq<char>>| b@ != #[trigger] enc_token_list(ws)),
{
    let toks = match decode_token_list(b) {
        Result::Ok(v) => v,
        Result::Err(e) => {
            return Result::Err(e);
        },
    };
    let ghost ws0 = toks.deep_view();
    let mut t = Trie::new();
    let mut i: usize = 0;
    while i < toks.len()
        invariant
            t.wf(),
            i <= toks@.len(),
            ws0 == toks.deep_view(),
            ws0.len() == toks@.len(),
            forall|s: Seq<char>| t.contains_token(s) <==> ws0.take(i as int).contains(s),
        decreases toks@.len() - i,
    {
        let s = toks[i].clone();
        let ghost prev = ws0.take(i as int);
        t.store(s);
        proof {
            assert(s@ == ws0[i as int]);
            assert forall|s2: Seq<char>|
                t.contains_token(s2) <==> ws0.take(i + 1).contains(s2) by {
                if t.contains_token(s2) {
                    if s2 == s@ {
                        assert(ws0.take(i + 1)[i as int] == s2);
                    } else {
                        let x = choose|x: int| 0 <= x < prev.len() && prev[x] == s2;
                        assert(ws0.take(i + 1)[x] == s2);
                    }
                }
                if ws0.take(i + 1).contains(s2) {
                    let t1 = ws0.take(i + 1);
                    let x = choose|x: int| 0 <= x < t1.len() && #[trigger] t1[x] == s2;
                    if x < i {
                        assert(prev[x] == s2);
                    }
                }
            }
        }
        i = i + 1;
    }
    proof {
        assert(ws0.take(ws0.len() as int) =~= ws0);
        assert forall|ws: Seq<Seq<char>>|
            b@ == enc_token_list(ws) implies (forall|s: Seq<char>|
            t.contains_token(s) <==> ws.contains(s)) by {
            assert(ws0 == ws);
        }
    }
    Result::Ok(t)
}

/// When the counter cannot be read, the buffer encodes no token list.
proof fn lemma_no_header_no_tokens(b: Seq<u8>)
    requires
        b.len() <= usize::MAX,
        8 > b.len() || (forall|v: int| 0 <= v <= usize::MAX ==> b.subrange(0, 8) != le8(v)),
    ensures
        forall|ws: Seq<Seq<char>>| b != enc_token_list(ws),
{
    assert forall|ws: Seq<Seq<char>>| b != enc_token_list(ws) by {
        if b == enc_token_list(ws) {
            lemma_le_len(ws.len() as int);
            lemma_enc_str_seq_len_ge(ws);
            assert(b.len() >= 8 + 8 * ws.len());
            assert(ws.len() <= usize::MAX);
            assert(b.subrange(0, 8) =~= le8(ws.len() as int));
        }
    }
}

/// A string list encoding is at least as long as the list.
proof fn lemma_enc_str_seq_len_ge(ws: Seq<Seq<char>>)
    ensures
        enc_str_seq(ws).len() >= 8 * ws.len(),
    decreases ws.len(),
{
    if ws.len() > 0 {
        lemma_enc_str_seq_len_ge(ws.skip(1));
        assert(enc_str(ws[0]).len() >= 8) by {
            lemma_le_len(ws[0].len() as int);
        }
    }
}

/// Digit runs have their requested length.
proof fn lemma_le_len(n: int)
    ensures
        le8(n).len() == 8,
{
    lemma_le_bytes_len(n, 8);
}

/// Digit runs have their requested length.
proof fn lemma_le_bytes_len(n: int, k: nat)
    ensures
        le_bytes(n, k).len() == k,
    decreases k,
{
    if k > 0 {
        lemma_le_bytes_len(n / 256, (k - 1) as nat);
    }
}

/// If a prefix of the buffer parses as `i` of the promised `n` tokens and
/// the next token cannot be read, the buffer encodes no token list.
proof fn lemma_partial_parse_mismatch(b: Seq<u8>, seen: Seq<Seq<char>>, n: int, p: int)
    requires
        b.len() < pow256(8),
        0 <= n <= usize::MAX,
        8 <= p <= b.len(),
        b.subrange(0, 8) == le8(n),
        seen.len() < n,
        b.subrange(8, p) == enc_str_seq(seen),
        forall|s: Seq<char>, p2: int| !(p <= p2 <= b.len() && b.subrange(p, p2) == enc_str(s)),
    ensures
        forall|ws: Seq<Seq<char>>| b != enc_token_list(ws),
{
    assert forall|ws: Seq<Seq<char>>| b != enc_token_list(ws) by {
        if b == enc_token_list(ws) {
            lemma_le_len(ws.len() as int);
            assert(b.subrange(0, 8) =~= le8(ws.len() as int));
            lemma_enc_str_seq_len_ge(ws);
            lemma_pow256_vals();
            assert(8 * ws.len() <= b.len());
            lemma_from_le_inj_vals(n, ws.len() as int);
            lemma_str_seq_parse_next(b, ws, seen, p);
        }
    }
}

/// Equal eight-byte encodings carry equal values.
proof fn lemma_from_le_inj_vals(a: int, c: int)
    requires
        le8(a) == le8(c),
        0 <= a < pow256(8),
        0 <= c < pow256(8),
    ensures
        a == c,
{
    lemma_le_round_trip(a, 8);
    lemma_le_round_trip(c, 8);
}

/// Inside a token list, after `seen` tokens there is either nothing left
/// or a readable next string.
proof fn lemma_str_seq_parse_next(b: Seq<u8>, ws: Seq<Seq<char>>, seen: Seq<Seq<char>>, p: int)
    requires
        b.len() < pow256(8),
        b == enc_token_list(ws),
        8 <= p <= b.len(),
        b.subrange(8, p) == enc_str_seq(seen),
        seen.len() < ws.len(),
    ensures
        exists|s: Seq<char>, p2: int| p <= p2 <= b.len() && b.subrange(p, p2) == enc_str(s),
{
    lemma_le_len(ws.len() as int);
    assert(b.subrange(8, b.len() as int) =~= enc_str_seq(ws));
    assert(enc_str_seq(ws) == enc_str_seq(seen) + b.subrange(p, b.len() as int)) by {
        assert(b.subrange(8, b.len() as int) =~= b.subrange(8, p) + b.subrange(
            p,
            b.len() as int,
        ));
    }
    assert(enc_str_seq(ws).len() < pow256(8)) by {
        assert(enc_str_seq(ws).len() == b.len() - 8);
    }
    lemma_str_seq_prefix_agree(ws, seen);
    assert(ws =~= ws.take(seen.len() as int) + ws.skip(seen.len() as int));
    lemma_enc_str_seq_cat(ws.take(seen.len() as int), ws.skip(seen.len() as int));
    assert(ws.take(seen.len() as int) =~= seen);
    let rest = enc_str_seq(ws.skip(seen.len() as int));
    assert(enc_str_seq(ws) == enc_str_seq(seen) + rest);
    assert(b.subrange(p, b.len() as int) =~= rest) by {
        assert(enc_str_seq(seen).len() == p - 8);
    }
    let tail = ws.skip(seen.len() as int);
    assert(tail.len() > 0);
    assert(rest == enc_str(tail[0]) + enc_str_seq(tail.skip(1)));
    let p2 = p + enc_str(tail[0]).len();
    assert(b.subrange(p, p2) =~= enc_str(tail[0]));
}

/// If a parse of `seen` tokens consumed a strict prefix, the counter in a
/// real encoding would disagree.
proof fn lemma_full_parse_leftover(b: Seq<u8>, seen: Seq<Seq<char>>, n: int, p: int)
    requires
        b.len() < pow256(8),
        0 <= n <= usize::MAX,
        8 <= p <= b.len(),
        p != b.len(),
        b.subrange(0, 8) == le8(n),
        seen.len() == n,
        b.subrange(8, p) == enc_str_seq(seen),
    ensures
        forall|ws: Seq<Seq<char>>| b != enc_token_list(ws),
{
    assert forall|ws: Seq<Seq<char>>| b != enc_token_list(ws) by {
        if b == enc_token_list(ws) {
            lemma_le_len(ws.len() as int);
            assert(b.subrange(0, 8) =~= le8(ws.len() as int));
            lemma_enc_str_seq_len_ge(ws);
            lemma_pow256_vals();
            assert(8 * ws.len() <= b.len());
            lemma_from_le_inj_vals(n, ws.len() as int);
            assert(b.subrange(8, b.len() as int) =~= enc_str_seq(ws));
            assert(enc_str_seq(ws) == enc_str_seq(seen) + b.subrange(p, b.len() as int)) by {
                assert(b.subrange(8, b.len() as int) =~= b.subrange(8, p) + b.subrange(
                    p,
                    b.len() as int,
                ));
            }
            assert(enc_str_seq(ws).len() < pow256(8)) by {
                assert(enc_str_seq(ws).len() == b.len() - 8);
            }
            lemma_str_seq_prefix_agree(ws, seen);
            assert(ws =~= seen);
            assert(enc_str_seq(ws) == enc_str_seq(seen));
            assert(b.subrange(8, p).len() == b.subrange(8, b.len() as int).len());
        }
    }
}

/// The first characters of a string run determine the first character.
proof fn lemma_enc_str_inj(s1: Seq<char>, s2: Seq<char>, r1: Seq<u8>, r2: Seq<u8>)
    requires
        enc_str(s1) + r1 == enc_str(s2) + r2,
        s1.len() < pow256(8),
        s2.len() < pow256(8),
    ensures
        s1 == s2,
        r1 == r2,
{
    lemma_le_len(s1.len() as int);
    lemma_le_len(s2.len() as int);
    let a = enc_str(s1) + r1;
    assert(a.subrange(0, 8) =~= le8(s1.len() as int));
    assert(a.subrange(0, 8) =~= le8(s2.len() as int));
    lemma_from_le_bound_lens(s1.len() as int, s2.len() as int);
    lemma_enc_chars_len(s1);
    lemma_enc_chars_len(s2);
    assert(a.subrange(8, 8 + enc_chars(s1).len() as int) =~= enc_chars(s1));
    assert(a.subrange(8, 8 + enc_chars(s2).len() as int) =~= enc_chars(s2));
    lemma_enc_chars_inj(s1, s2);
    assert(r1 =~= a.subrange(8 + enc_chars(s1).len() as int, a.len() as int));
    assert(r2 =~= a.subrange(8 + enc_chars(s2).len() as int, a.len() as int));
    assert(r1 =~= r2);
}

/// Character counts below the counter range agree when encoded equal.
proof fn lemma_from_le_bound_lens(a: int, c: int)
    requires
        le8(a) == le8(c),
        0 <= a,
        0 <= c,
        a < pow256(8),
        c < pow256(8),
    ensures
        a == c,
{
    lemma_le_round_trip(a, 8);
    lemma_le_round_trip(c, 8);
}

/// A character run is four bytes per character.
proof fn lemma_enc_chars_len(s: Seq<char>)
    ensures
        enc_chars(s).len() == 4 * s.len(),
    decreases s.len(),
{
    if s.len() > 0 {
        lemma_enc_chars_len(s.skip(1));
        lemma_le_bytes_len(s[0] as u32 as int, 4);
    }
}

/// The bytes of character `i` inside a character run.
proof fn lemma_enc_chars_index(s: Seq<char>, i: int)
    requires
        0 <= i < s.len(),
    ensures
        enc_chars(s).len() == 4 * s.len(),
        enc_chars(s).subrange(4 * i, 4 * i + 4) == le4_char(s[i]),
    decreases i,
{
    lemma_enc_chars_len(s);
    lemma_le_bytes_len(s[0] as u32 as int, 4);
    if i == 0 {
        lemma_enc_chars_len(s.skip(1));
        assert(enc_chars(s).subrange(0, 4) =~= le4_char(s[0]));
    } else {
        lemma_enc_chars_index(s.skip(1), i - 1);
        lemma_enc_chars_len(s.skip(1));
        assert(enc_chars(s).subrange(4, enc_chars(s).len() as int) =~= enc_chars(s.skip(1)));
        assert(enc_chars(s).subrange(4 * i, 4 * i + 4) =~= enc_chars(s.skip(1)).subrange(
            4 * (i - 1),
            4 * (i - 1) + 4,
        ));
        assert(s[i] == s.skip(1)[i - 1]);
    }
}

/// Equal-length character runs with equal bytes are equal.
proof fn lemma_enc_chars_inj(s1: Seq<char>, s2: Seq<char>)
    requires
        s1.len() == s2.len(),
        enc_chars(s1) == enc_chars(s2),
    ensures
        s1 == s2,
    decreases s1.len(),
{
    if s1.len() > 0 {
        lemma_le_bytes_len(s1[0] as u32 as int, 4);
        lemma_le_bytes_len(s2[0] as u32 as int, 4);
        let e = enc_chars(s1);
        assert(e.subrange(0, 4) =~= le4_char(s1[0]));
        assert(e.subrange(0, 4) =~= le4_char(s2[0]));
        vstd::utf8::char_is_scalar(s1[0]);
        vstd::utf8::char_is_scalar(s2[0]);
        lemma_pow256_vals();
        lemma_le_round_trip(s1[0] as u32 as int, 4);
        lemma_le_round_trip(s2[0] as u32 as int, 4);
        assert(s1[0] as u32 == s2[0] as u32);
        vstd::utf8::char_u32_cast(s1[0], s1[0] as u32);
        vstd::utf8::char_u32_cast(s2[0], s2[0] as u32);
        assert(s1[0] == s2[0]);
        assert(e.subrange(4, e.len() as int) =~= enc_chars(s1.skip(1)));
        assert(e.subrange(4, e.len() as int) =~= enc_chars(s2.skip(1)));
        lemma_enc_chars_inj(s1.skip(1), s2.skip(1));
        assert(forall|i: int| 1 <= i < s1.len() ==> s1[i] == s1.skip(1)[i - 1]);
        assert(forall|i: int| 1 <= i < s2.len() ==> s2[i] == s2.skip(1)[i - 1]);
        assert(s1 =~= s2);
    } else {
        assert(s1 =~= s2);
    }
}

/// Equal-count string lists with equal encodings are equal.
proof fn lemma_str_seq_prefix_agree(ws: Seq<Seq<char>>, seen: Seq<Seq<char>>)
    requires
        seen.len() <= ws.len(),
        exists|r: Seq<u8>| enc_str_seq(ws) == enc_str_seq(seen) + r,
        enc_str_seq(ws).len() < pow256(8),
    ensures
        forall|i: int| 0 <= i < seen.len() ==> ws[i] == seen[i],
    decreases seen.len(),
{
    if seen.len() > 0 {
        let r = choose|r: Seq<u8>| enc_str_seq(ws) == enc_str_seq(seen) + r;
        assert(ws.len() > 0);
        assert(enc_str_seq(ws) == enc_str(ws[0]) + enc_str_seq(ws.skip(1)));
        assert(enc_str_seq(seen) == enc_str(seen[0]) + enc_str_seq(seen.skip(1)));
        assert(enc_str(ws[0]) + enc_str_seq(ws.skip(1)) == enc_str(seen[0]) + (enc_str_seq(
            seen.skip(1),
        ) + r)) by {
            assert(enc_str(seen[0]) + (enc_str_seq(seen.skip(1)) + r) =~= (enc_str(seen[0])
                + enc_str_seq(seen.skip(1))) + r);
        }
        lemma_enc_chars_len(ws[0]);
        lemma_enc_chars_len(seen[0]);
        lemma_le_len(ws[0].len() as int);
        lemma_le_len(seen[0].len() as int);
        assert(enc_str(ws[0]).len() == 8 + 4 * ws[0].len());
        assert(ws[0].len() < pow256(8));
        assert(enc_str(seen[0]).len() <= enc_str_seq(ws).len()) by {
            assert(enc_str(ws[0]).len() + enc_str_seq(ws.skip(1)).len() == enc_str(seen[0]).len()
                + enc_str_seq(seen.skip(1)).len() + r.len());
        }
        assert(seen[0].len() < pow256(8)) by {
            assert(enc_str(seen[0]).len() == 8 + 4 * seen[0].len());
        }
        lemma_enc_str_inj(ws[0], seen[0], enc_str_seq(ws.skip(1)), enc_str_seq(seen.skip(1)) + r);
        assert(enc_str_seq(ws.skip(1)).len() <= enc_str_seq(ws).len());
        lemma_str_seq_prefix_agree(ws.skip(1), seen.skip(1));
        assert(forall|i: int| 1 <= i < seen.len() ==> ws[i] == ws.skip(1)[i - 1] && seen[i]
            == seen.skip(1)[i - 1]);
    }
}

/// The regime byte of an n-gram artifact.
pub open spec fn enc_ngram_regime(st: SearchScope) -> Seq<u8> {
    match st {
        SearchScope::Words => seq![0u8],
        SearchScope::Lines => seq![1u8],
    }
}

/// An n-gram artifact: the regime, then the stored tokens in order; the
/// posting lists are rebuilt on decode.
pub open spec fn enc_ngram(st: SearchScope, ws: Seq<Seq<char>>) -> Seq<u8> {
    enc_ngram_regime(st) + enc_token_list(ws)
}

/// Encode an n-gram index as its regime and token list.
pub fn encode_ngram(n: &NGramIndex) -> (r: Vec<u8>)
    ensures
        r@ == enc_ngram(n.regime(), n.words_abs()),
{
    let mut out: Vec<u8> = Vec::new();
    match n.regime_of() {
        SearchScope::Words => out.push(0u8),
        SearchScope::Lines => out.push(1u8),
    }
    proof {
        assert(out@ =~= enc_ngram_regime(n.regime()));
    }
    let body = encode_token_list(n.tokens());
    let mut i: usize = 0;
    while i < body.len()
        invariant
            i <= body@.len(),
            out@ == enc_ngram_regime(n.regime()) + body@.take(i as int),
            body@ == enc_token_list(n.words_abs()),
        decreases body@.len() - i,
    {
        out.push(body[i]);
        proof {
            assert(out@ =~= enc_ngram_regime(n.regime()) + body@.take(i + 1));
        }
        i = i + 1;
    }
    proof {
        assert(body@.take(body@.len() as int) =~= body@);
    }
    out
}

/// Decode an n-gram artifact, rebuilding the posting lists by storing the
/// listed tokens in order.
pub fn decode_ngram(b: &Vec<u8>) -> (r: Result<NGramIndex, &'static str>)
    ensures
        r matches Ok(t) ==> {
            &&& t.wf()
            &&& t.canonical()
            &&& t.gram_width() == 2
            &&& b@ == enc_ngram(t.regime(), t.words_abs())
            &&& t.grams_abs() == ngram_replay_grams(
                t.regime(),
                t.words_abs(),
                t.words_abs().len() as int,
            )
        },
        forall|st: SearchScope, ws: Seq<Seq<char>>|
            b@ == enc_ngram(st, ws) ==> (r matches Ok(t) && t.regime() == st && t.words_abs()
                == ws),
        (r is Err) <==> (forall|st: SearchScope, ws: Seq<Seq<char>>|
            b@ != #[trigger] enc_ngram(st, ws)),
{
    if b.len() < 1 {
        proof {
            assert forall|st: SearchScope, ws: Seq<Seq<char>>| b@ != enc_ngram(st, ws) by {
                if b@ == enc_ngram(st, ws) {
                    assert(b@.len() >= 1);
                }
            }
        }
        return Result::Err("truncated artifact");
    }
    let tag = b[0];
    if tag > 1 {
        proof {
            assert forall|st: SearchScope, ws: Seq<Seq<char>>| b@ != enc_ngram(st, ws) by {
                if b@ == enc_ngram(st, ws) {
                    assert(b@[0] == enc_ngram_regime(st)[0]);
                }
            }
        }
        return Result::Err("unknown regime tag");
    }
    let st = if tag == 0 {
        SearchScope::Words
    } else {
        SearchScope::Lines
    };
    let ghost stv = st;
    // the token list body
    let mut body: Vec<u8> = Vec::new();
    let mut i: usize = 1;
    proof {
        assert(body@ =~= b@.subrange(1, 1));
    }
    while i < b.len()
        invariant
            1 <= i <= b@.len(),
            body@ == b@.subrange(1, i as int),
        decreases b@.len() - i,
    {
        body.push(b[i]);
        proof {
            assert(body@ =~= b@.subrange(1, i + 1));
        }
        i = i + 1;
    }
    proof {
        assert(body@ == b@.skip(1)) by {
            assert(b@.subrange(1, b@.len() as int) =~= b@.skip(1));
        }
    }
    let toks = match decode_token_list(&body) {
        Result::Ok(v) => v,
        Result::Err(e) => {
            proof {
                assert forall|st2: SearchScope, ws: Seq<Seq<char>>| b@ != enc_ngram(st2, ws) by {
                    if b@ == enc_ngram(st2, ws) {
                        assert(b@.skip(1) =~= enc_token_list(ws));
                    }
                }
            }
            return Result::Err(e);
        },
    };
    let ghost ws0 = toks.deep_view();
    let mut t = NGramIndex::new();
    t.set_regime(st);
    let mut k: usize = 0;
    let tn = toks.len();
    proof {
        assert(ws0.take(0) =~= Seq::<Seq<char>>::empty());
        assert(t.grams_abs() =~= ngram_replay_grams(stv, ws0, 0));
        assert(t.words_abs() =~= ws0.take(0));
    }
    while k < tn
        invariant
            t.wf(),
            t.regime() == stv,
            t.gram_width() == 2,
            tn == toks@.len(),
            k <= tn,
            ws0 == toks.deep_view(),
            ws0.len() == tn,
            tn <= usize::MAX,
            t.words_abs() == ws0.take(k as int),
            t.grams_abs() == ngram_replay_grams(stv, ws0, k as int),
        decreases tn - k,
    {
        let s = toks[k].clone();
        proof {
            assert(s@ == ws0[k as int]);
            assert(t.words_abs().len() == k < usize::MAX);
        }
        t.store(s);
        proof {
            assert(t.words_abs() =~= ws0.take(k + 1));
            assert(t.grams_abs() == ngram_replay_grams(stv, ws0, k + 1));
        }
        k = k + 1;
    }
    proof {
        assert(ws0.take(ws0.len() as int) =~= ws0);
        assert(b@ =~= enc_ngram_regime(stv) + b@.skip(1));
        assert(b@ == enc_ngram(stv, ws0));
        assert forall|st2: SearchScope, ws: Seq<Seq<char>>|
            b@ == enc_ngram(st2, ws) implies (t.regime() == st2 && t.words_abs() == ws) by {
            assert(b@[0] == enc_ngram_regime(st2)[0]);
            assert(b@.skip(1) =~= enc_token_list(ws));
            assert(ws == ws0);
        }
        assert(!(forall|st2: SearchScope, ws: Seq<Seq<char>>|
            b@ != #[trigger] enc_ngram(st2, ws))) by {
            assert(b@ == enc_ngram(stv, ws0));
        }
        lemma_canonical_intro(t);
    }
    Result::Ok(t)
}

} // verus!
