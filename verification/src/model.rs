//! The mathematical model of the transcoder: what value a byte or word
//! sequence denotes, how a word sequence lays out as little-endian bytes,
//! how a byte sequence groups back into words, and how long the minimal
//! significant prefix of an encoding is.

use vstd::arithmetic::div_mod::{lemma_basic_div, lemma_breakdown, lemma_div_denominator, lemma_fundamental_div_mod};
use vstd::arithmetic::power2::{lemma2_to64, lemma2_to64_rest, lemma_pow2_adds, lemma_pow2_pos, lemma_pow2_strictly_increases, pow2};
use vstd::prelude::*;

verus! {

/// The magnitude denoted by a little-endian byte sequence:
/// the sum of s[i] * 256^i.
pub open spec fn bytes_value_le(s: Seq<u8>) -> nat
    decreases s.len(),
{
    if s.len() == 0 {
        0
    } else {
        (s[0] + 256 * bytes_value_le(s.drop_first())) as nat
    }
}

/// The magnitude denoted by a word sequence, least-significant word first:
/// the sum of ws[i] * 2^(64 i).
pub open spec fn words_value(ws: Seq<u64>) -> nat
    decreases ws.len(),
{
    if ws.len() == 0 {
        0
    } else {
        (ws[0] + pow2(64) * words_value(ws.drop_first())) as nat
    }
}

/// Byte j of a word's little-endian encoding, for 0 <= j < 8.
pub open spec fn word_byte(w: u64, j: int) -> u8 {
    (((w as nat) / pow2((8 * j) as nat)) % 256) as u8
}

/// The eight little-endian bytes of one word.
pub open spec fn word_bytes(w: u64) -> Seq<u8> {
    Seq::new(8, |j: int| word_byte(w, j))
}

/// The little-endian byte layout of a whole word sequence.
pub open spec fn le_bytes_of_words(ws: Seq<u64>) -> Seq<u8>
    decreases ws.len(),
{
    if ws.len() == 0 {
        Seq::empty()
    } else {
        word_bytes(ws[0]) + le_bytes_of_words(ws.drop_first())
    }
}

/// The j-th eight-byte group of a byte sequence; the last group may be
/// shorter when the length is not a multiple of eight.
pub open spec fn word_chunk(s: Seq<u8>, j: int) -> Seq<u8> {
    s.subrange(
        8 * j,
        if 8 * j + 8 <= s.len() {
            8 * j + 8
        } else {
            s.len() as int
        },
    )
}

/// The word sequence reconstructed from a little-endian byte sequence:
/// ceil(len / 8) words, a final partial group zero-extended.
pub open spec fn words_of_le_bytes(s: Seq<u8>) -> Seq<u64> {
    Seq::new((s.len() + 7) / 8, |j: int| bytes_value_le(word_chunk(s, j)) as u64)
}

/// How many bytes the minimal encoding of a word occupies:
/// the least n with w < 256^n.
pub open spec fn word_byte_len(w: u64) -> nat
    decreases w,
{
    if w == 0 {
        0
    } else {
        (1 + word_byte_len((w / 256) as u64)) as nat
    }
}

/// The significant byte length of a word sequence's encoding: all full
/// words but the last, plus the last word's minimal byte length.
pub open spec fn sig_byte_len(ws: Seq<u64>) -> nat {
    if ws.len() == 0 {
        0
    } else {
        (8 * (ws.len() - 1) + word_byte_len(ws.last())) as nat
    }
}

/// What little-endian extraction leaves in a destination: the words'
/// layout in front, the destination's old tail behind it.
pub open spec fn to_bytes_le_result(ws: Seq<u64>, dst: Seq<u8>) -> Seq<u8> {
    le_bytes_of_words(ws) + dst.skip((8 * ws.len()) as int)
}

/// What big-endian extraction leaves in a destination: the little-endian
/// result with exactly its significant prefix reversed in place.
pub open spec fn to_bytes_be_result(ws: Seq<u64>, dst: Seq<u8>) -> Seq<u8> {
    let k = sig_byte_len(ws) as int;
    to_bytes_le_result(ws, dst).take(k).reverse() + to_bytes_le_result(ws, dst).skip(k)
}

/// A byte sequence of length n denotes a value below 256^n.
pub proof fn lemma_bytes_value_bound(s: Seq<u8>)
    ensures
        bytes_value_le(s) < pow2(8 * s.len()),
    decreases s.len(),
{
    lemma2_to64();
    if s.len() > 0 {
        lemma_bytes_value_bound(s.drop_first());
        lemma_pow2_adds(8, (8 * (s.len() - 1)) as nat);
        let rest: nat = bytes_value_le(s.drop_first());
        let p: nat = pow2((8 * (s.len() - 1)) as nat);
        assert(256 * rest <= 256 * (p - 1));
    }
}

/// Denoted values compose over concatenation: the right part is shifted
/// by 256^(length of the left part).
pub proof fn lemma_bytes_value_append(a: Seq<u8>, b: Seq<u8>)
    ensures
        bytes_value_le(a + b) == bytes_value_le(a) + pow2(8 * a.len()) * bytes_value_le(b),
    decreases a.len(),
{
    lemma2_to64();
    if a.len() == 0 {
        assert(a + b =~= b);
        assert(bytes_value_le(a) == 0);
        assert(pow2(8 * a.len()) == 1);
        assert(bytes_value_le(a + b) == bytes_value_le(a) + pow2(8 * a.len()) * bytes_value_le(b));
    } else {
        assert((a + b).drop_first() =~= a.drop_first() + b);
        lemma_bytes_value_append(a.drop_first(), b);
        lemma_pow2_adds(8, (8 * (a.len() - 1)) as nat);
        let rest: nat = bytes_value_le(a.drop_first());
        let bv: nat = bytes_value_le(b);
        let p: nat = pow2((8 * (a.len() - 1)) as nat);
        assert(256 * (rest + p * bv) == 256 * rest + (256 * p) * bv) by (nonlinear_arith);
        assert((a + b)[0] == a[0]);
        assert(bytes_value_le(a + b) == a[0] + 256 * bytes_value_le(a.drop_first() + b));
        assert(bytes_value_le(a.drop_first() + b) == rest + p * bv);
        assert(pow2(8 * a.len()) == 256 * p);
        assert(bytes_value_le(a) == a[0] + 256 * rest);
        assert(bytes_value_le(a + b) == bytes_value_le(a) + pow2(8 * a.len()) * bytes_value_le(b));
    }
}

/// An all-zero byte sequence denotes zero.
pub proof fn lemma_bytes_value_zero(s: Seq<u8>)
    requires
        forall|i: int| 0 <= i < s.len() ==> s[i] == 0,
    ensures
        bytes_value_le(s) == 0,
    decreases s.len(),
{
    if s.len() > 0 {
        lemma_bytes_value_zero(s.drop_first());
    }
}

/// Dropping a suffix of zero bytes keeps the denoted value.
pub proof fn lemma_bytes_value_take(s: Seq<u8>, k: int)
    requires
        0 <= k <= s.len(),
        forall|i: int| k <= i < s.len() ==> s[i] == 0,
    ensures
        bytes_value_le(s.take(k)) == bytes_value_le(s),
{
    assert(s =~= s.take(k) + s.skip(k));
    lemma_bytes_value_append(s.take(k), s.skip(k));
    assert forall|i: int| 0 <= i < s.skip(k).len() implies s.skip(k)[i] == 0 by {
        assert(s.skip(k)[i] == s[i + k]);
    }
    lemma_bytes_value_zero(s.skip(k));
}

/// The base-256 digits of a natural number denote that number, reduced
/// modulo 256^(digit count).
pub proof fn lemma_nat_le_bytes(x: nat, n: nat)
    ensures
        bytes_value_le(Seq::new(n, |j: int| (((x / pow2((8 * j) as nat)) % 256) as u8))) == x % pow2(
            8 * n,
        ),
    decreases n,
{
    let s = Seq::new(n, |j: int| (((x / pow2((8 * j) as nat)) % 256) as u8));
    lemma2_to64();
    if n == 0 {
        assert(x % pow2(0) == 0);
    } else {
        let x2: nat = x / 256;
        let s2 = Seq::new((n - 1) as nat, |j: int| (((x2 / pow2((8 * j) as nat)) % 256) as u8));
        assert forall|j: int| 0 <= j < n - 1 implies s.drop_first()[j] == s2[j] by {
            lemma_pow2_adds(8, (8 * j) as nat);
            lemma_pow2_pos((8 * j) as nat);
            lemma_div_denominator(x as int, 256, pow2((8 * j) as nat) as int);
            assert((8 * (j + 1)) as nat == 8 + (8 * j) as nat);
        }
        assert(s.drop_first() =~= s2);
        lemma_nat_le_bytes(x2, (n - 1) as nat);
        assert(s[0] == (((x / pow2(0)) % 256) as u8));
        assert(x / pow2(0) == x);
        lemma_pow2_adds(8, (8 * (n - 1)) as nat);
        lemma_pow2_pos((8 * (n - 1)) as nat);
        lemma_breakdown(x as int, 256, pow2((8 * (n - 1)) as nat) as int);
    }
}

/// One word's eight little-endian bytes denote exactly that word.
pub proof fn lemma_word_bytes_value(w: u64)
    ensures
        bytes_value_le(word_bytes(w)) == w,
{
    lemma_nat_le_bytes(w as nat, 8);
    assert(word_bytes(w) =~= Seq::new(
        8,
        |j: int| ((((w as nat) / pow2((8 * j) as nat)) % 256) as u8),
    ));
    lemma2_to64();
}

/// The little-endian layout of n words is 8 n bytes long.
pub proof fn lemma_le_bytes_of_words_len(ws: Seq<u64>)
    ensures
        le_bytes_of_words(ws).len() == 8 * ws.len(),
    decreases ws.len(),
{
    if ws.len() > 0 {
        lemma_le_bytes_of_words_len(ws.drop_first());
    }
}

/// The little-endian layout of a word sequence denotes the sequence's value.
pub proof fn lemma_le_bytes_of_words_value(ws: Seq<u64>)
    ensures
        bytes_value_le(le_bytes_of_words(ws)) == words_value(ws),
    decreases ws.len(),
{
    if ws.len() > 0 {
        lemma_bytes_value_append(word_bytes(ws[0]), le_bytes_of_words(ws.drop_first()));
        lemma_word_bytes_value(ws[0]);
        lemma_le_bytes_of_words_value(ws.drop_first());
        assert(8 * word_bytes(ws[0]).len() == 64);
    }
}

/// Indexing into the little-endian layout picks the matching byte of the
/// matching word.
pub proof fn lemma_le_bytes_of_words_index(ws: Seq<u64>, i: int)
    requires
        0 <= i < 8 * ws.len(),
    ensures
        le_bytes_of_words(ws).len() == 8 * ws.len(),
        le_bytes_of_words(ws)[i] == word_byte(ws[i / 8], i % 8),
    decreases ws.len(),
{
    lemma_le_bytes_of_words_len(ws);
    lemma_le_bytes_of_words_len(ws.drop_first());
    if i < 8 {
        assert(le_bytes_of_words(ws)[i] == word_bytes(ws[0])[i]);
    } else {
        lemma_le_bytes_of_words_index(ws.drop_first(), i - 8);
        assert((i - 8) / 8 == i / 8 - 1);
        assert((i - 8) % 8 == i % 8);
        assert(ws.drop_first()[i / 8 - 1] == ws[i / 8]);
    }
}

/// A byte sequence of at most eight bytes denotes a value that fits a word.
pub proof fn lemma_bytes_value_fits_word(s: Seq<u8>)
    requires
        s.len() <= 8,
    ensures
        bytes_value_le(s) < pow2(64),
{
    lemma_bytes_value_bound(s);
    if 8 * s.len() < 64 {
        lemma_pow2_strictly_increases(8 * s.len(), 64);
    }
}

/// Reconstructing words from a little-endian byte sequence keeps the
/// denoted value.
pub proof fn lemma_words_of_le_bytes_value(s: Seq<u8>)
    ensures
        words_value(words_of_le_bytes(s)) == bytes_value_le(s),
    decreases s.len(),
{
    let ws = words_of_le_bytes(s);
    lemma2_to64();
    if s.len() == 0 {
        assert(ws =~= Seq::<u64>::empty());
    } else if s.len() <= 8 {
        assert(word_chunk(s, 0) =~= s);
        lemma_bytes_value_fits_word(s);
        assert(ws.len() == 1);
        assert(ws.drop_first() =~= Seq::<u64>::empty());
        assert(words_value(ws.drop_first()) == 0);
        assert(ws[0] == bytes_value_le(s) as u64);
        assert(words_value(ws) == ws[0] + pow2(64) * words_value(ws.drop_first()));
    } else {
        let tail = s.skip(8);
        lemma_words_of_le_bytes_value(tail);
        assert forall|j: int| 0 <= j < ws.len() - 1 implies ws.drop_first()[j] == words_of_le_bytes(
            tail,
        )[j] by {
            assert(word_chunk(s, j + 1) =~= word_chunk(tail, j));
        }
        assert(ws.drop_first() =~= words_of_le_bytes(tail));
        assert(word_chunk(s, 0) =~= s.take(8));
        assert(s =~= s.take(8) + tail);
        lemma_bytes_value_append(s.take(8), tail);
        lemma_bytes_value_fits_word(s.take(8));
        assert(words_value(ws) == ws[0] + pow2(64) * words_value(ws.drop_first()));
    }
}

/// A value below 256^n with n at most 7, shifted up one byte and extended
/// by any byte, still fits a 64-bit word.
pub proof fn lemma_byte_shift_fits(v: nat, n: nat)
    requires
        n <= 7,
        v < pow2(8 * n),
    ensures
        256 * v + 255 < pow2(64),
        pow2(64) == 0x1_0000_0000_0000_0000,
{
    lemma2_to64();
    lemma2_to64_rest();
    if 8 * n < 56 {
        lemma_pow2_strictly_increases(8 * n, 56);
    }
    lemma_pow2_adds(8, 56);
    assert(v < pow2(56));
    assert(256 * v <= 256 * (pow2(56) - 1));
}

/// A word below 256^n needs at most n bytes.
pub proof fn lemma_word_byte_len_le(w: u64, n: nat)
    requires
        w < pow2(8 * n),
    ensures
        word_byte_len(w) <= n,
    decreases w,
{
    lemma2_to64();
    if w > 0 {
        lemma_pow2_pos(8 * n);
        assert(n > 0);
        let w2: u64 = (w / 256) as u64;
        lemma_fundamental_div_mod(w as int, 256);
        lemma_pow2_adds(8, (8 * (n - 1)) as nat);
        assert(w2 < pow2((8 * (n - 1)) as nat)) by {
            if w2 >= pow2((8 * (n - 1)) as nat) {
                assert(w >= 256 * w2);
                assert(256 * w2 >= 256 * pow2((8 * (n - 1)) as nat));
            }
        }
        lemma_word_byte_len_le(w2, (n - 1) as nat);
    }
}

/// The minimal byte length of a word: at most eight bytes; the word lies
/// below 256^len, and, when nonzero, at or above 256^(len - 1).
pub proof fn lemma_word_byte_len_bounds(w: u64)
    ensures
        word_byte_len(w) <= 8,
        w < pow2(8 * word_byte_len(w)),
        w > 0 ==> w >= pow2((8 * (word_byte_len(w) - 1)) as nat),
    decreases w,
{
    lemma2_to64();
    lemma_word_byte_len_le(w, 8);
    if w > 0 {
        let w2: u64 = (w / 256) as u64;
        let n2: nat = word_byte_len(w2);
        lemma_word_byte_len_bounds(w2);
        lemma_fundamental_div_mod(w as int, 256);
        lemma_pow2_adds(8, 8 * n2);
        assert(w == 256 * w2 + w % 256);
        assert(256 * w2 <= 256 * (pow2(8 * n2) - 1));
        assert(w < pow2(8 * n2 + 8));
        if w2 > 0 {
            assert(256 * w2 >= 256 * pow2((8 * (n2 - 1)) as nat));
            lemma_pow2_adds(8, (8 * (n2 - 1)) as nat);
        }
    }
}

/// The significant length never exceeds the full encoding's length.
pub proof fn lemma_sig_byte_len_bound(ws: Seq<u64>)
    ensures
        sig_byte_len(ws) <= 8 * ws.len(),
{
    if ws.len() > 0 {
        lemma_word_byte_len_bounds(ws.last());
    }
}

/// A word's bytes at or beyond its minimal byte length are zero.
pub proof fn lemma_word_byte_zero_above(w: u64, j: int)
    requires
        word_byte_len(w) <= j,
    ensures
        word_byte(w, j) == 0,
{
    let bl: nat = word_byte_len(w);
    lemma_word_byte_len_bounds(w);
    if 8 * bl < 8 * j {
        lemma_pow2_strictly_increases(8 * bl, (8 * j) as nat);
    }
    lemma_pow2_pos((8 * j) as nat);
    lemma_basic_div(w as int, pow2((8 * j) as nat) as int);
}

/// Every byte of the little-endian layout at or beyond the significant
/// length is zero.
pub proof fn lemma_le_bytes_zero_above_sig(ws: Seq<u64>, i: int)
    requires
        sig_byte_len(ws) <= i < 8 * ws.len(),
    ensures
        le_bytes_of_words(ws)[i] == 0,
{
    lemma_le_bytes_of_words_index(ws, i);
    let last = ws.last();
    lemma_word_byte_len_bounds(last);
    assert(i / 8 == ws.len() - 1);
    assert(i % 8 >= word_byte_len(last));
    lemma_word_byte_zero_above(last, i % 8);
}

} // verus!
