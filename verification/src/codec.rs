//! The executable transcoder: word-count introspection, little/big-endian
//! byte extraction with minimal-length reporting, and byte-to-word
//! reconstruction. The arbitrary-precision integer is handled as its
//! magnitude's word sequence, least-significant word first.

use crate::model::{
    bytes_value_le, lemma_byte_shift_fits, lemma_bytes_value_bound, lemma_le_bytes_of_words_index,
    lemma_le_bytes_of_words_len, lemma_sig_byte_len_bound, lemma_word_byte_len_bounds,
    sig_byte_len, to_bytes_be_result, to_bytes_le_result, word_byte, word_byte_len, word_chunk,
    words_of_le_bytes,
};
use vstd::arithmetic::div_mod::lemma_div_denominator;
use vstd::arithmetic::power2::{lemma2_to64, lemma_pow2_adds, lemma_pow2_pos, pow2};
use vstd::prelude::*;

verus! {

/// How many 64-bit words the integer's magnitude occupies: the length of
/// its word sequence (zero for a zero-valued integer).
pub fn word_length(words: &Vec<u64>) -> (r: u32)
    requires
        words@.len() <= u32::MAX,
    ensures
        r == words@.len(),
{
    words.len() as u32
}

/// The minimal byte length of one word: how many low-order bytes of its
/// little-endian encoding are nonzero-significant.
pub fn word_byte_length(w: u64) -> (r: usize)
    ensures
        r == word_byte_len(w),
{
    proof {
        lemma_word_byte_len_bounds(w);
    }
    let mut x: u64 = w;
    let mut n: usize = 0;
    while x > 0
        invariant
            word_byte_len(w) == n + word_byte_len(x),
            word_byte_len(w) <= 8,
        decreases x,
    {
        x = x / 256;
        n = n + 1;
    }
    n
}

/// The significant byte count of a populated buffer: zero when no word
/// was written, else every full word below the most-significant one plus
/// that word's minimal byte length.
pub fn significant_byte_count(word_count: usize, tail: u64) -> (r: usize)
    requires
        8 * word_count <= usize::MAX,
    ensures
        word_count == 0 ==> r == 0,
        word_count > 0 ==> r == 8 * (word_count - 1) + word_byte_len(tail),
{
    if word_count == 0 {
        0
    } else {
        proof {
            lemma_word_byte_len_bounds(tail);
        }
        let bl = word_byte_length(tail);
        8 * (word_count - 1) + bl
    }
}

/// Writes the word sequence as little-endian bytes into the front of the
/// destination and returns the significant byte count. The destination is
/// word-granular and holds every word; bytes past the words written keep
/// their old values.
pub fn to_bytes_le(words: &Vec<u64>, buf: &mut Vec<u8>) -> (r: u32)
    requires
        old(buf)@.len() % 8 == 0,
        8 * words@.len() <= old(buf)@.len(),
        old(buf)@.len() <= u32::MAX,
    ensures
        final(buf)@ == to_bytes_le_result(words@, old(buf)@),
        r == sig_byte_len(words@),
        r <= 8 * words@.len(),
{
    let word_count = words.len();
    let mut wi: usize = 0;
    while wi < word_count
        invariant
            buf@.len() == old(buf)@.len(),
            8 * word_count <= old(buf)@.len(),
            old(buf)@.len() <= u32::MAX,
            word_count == words@.len(),
            wi <= word_count,
            forall|i: int| 0 <= i < 8 * wi ==> buf@[i] == word_byte(words@[i / 8], i % 8),
            forall|i: int| 8 * wi <= i < old(buf)@.len() ==> buf@[i] == old(buf)@[i],
        decreases word_count - wi,
    {
        let w = words[wi];
        let base = 8 * wi;
        let mut cur: u64 = w;
        let mut j: usize = 0;
        proof {
            lemma2_to64();
            assert((8 * j) as nat == 0);
            assert(pow2(0) == 1);
            assert((w as nat) / 1 == w as nat);
        }
        while j < 8
            invariant
                buf@.len() == old(buf)@.len(),
                base == 8 * wi,
                wi < word_count,
                word_count == words@.len(),
                8 * word_count <= old(buf)@.len(),
                j <= 8,
                cur as nat == (w as nat) / pow2((8 * j) as nat),
                w == words@[wi as int],
                forall|i: int| 0 <= i < 8 * wi ==> buf@[i] == word_byte(words@[i / 8], i % 8),
                forall|i: int| 0 <= i < j ==> buf@[base + i] == word_byte(w, i),
                forall|i: int| 8 * wi + j <= i < old(buf)@.len() ==> buf@[i] == old(buf)@[i],
            decreases 8 - j,
        {
            let b: u8 = (cur % 256) as u8;
            proof {
                lemma2_to64();
                assert(b == word_byte(w, j as int));
                lemma_pow2_adds((8 * j) as nat, 8);
                lemma_pow2_pos((8 * j) as nat);
                lemma_div_denominator(w as int, pow2((8 * j) as nat) as int, 256);
                assert((w as nat) / pow2((8 * j) as nat) / 256 == (w as nat) / pow2(
                    (8 * (j + 1)) as nat,
                ));
            }
            buf.set(base + j, b);
            cur = cur / 256;
            j = j + 1;
        }
        proof {
            assert forall|i: int| 0 <= i < 8 * (wi + 1) implies buf@[i] == word_byte(
                words@[i / 8],
                i % 8,
            ) by {
                if 8 * wi <= i {
                    assert(i / 8 == wi as int);
                    assert(i % 8 == i - 8 * wi);
                    assert(buf@[base + (i - 8 * wi)] == word_byte(w, i - 8 * wi));
                }
            }
        }
        wi = wi + 1;
    }
    proof {
        lemma_le_bytes_of_words_len(words@);
        assert forall|i: int| 0 <= i < buf@.len() implies buf@[i] == to_bytes_le_result(
            words@,
            old(buf)@,
        )[i] by {
            if i < 8 * words@.len() {
                lemma_le_bytes_of_words_index(words@, i);
            }
        }
        assert(buf@ =~= to_bytes_le_result(words@, old(buf)@));
        lemma_sig_byte_len_bound(words@);
    }
    let tail: u64 = if word_count == 0 {
        0
    } else {
        words[word_count - 1]
    };
    let sig = significant_byte_count(word_count, tail);
    proof {
        if word_count > 0 {
            assert(words@.last() == words@[word_count - 1]);
        }
    }
    sig as u32
}

/// Reverses the first k bytes of the buffer in place; bytes at or past k
/// keep their old values.
pub fn reverse_prefix(buf: &mut Vec<u8>, k: usize)
    requires
        k <= old(buf)@.len(),
    ensures
        final(buf)@ == old(buf)@.take(k as int).reverse() + old(buf)@.skip(k as int),
{
    let mut lo: usize = 0;
    let mut hi: usize = k;
    while lo + 1 < hi
        invariant
            lo + hi == k,
            lo <= hi,
            k <= buf@.len(),
            buf@.len() == old(buf)@.len(),
            forall|i: int| 0 <= i < lo ==> buf@[i] == old(buf)@[k - 1 - i],
            forall|i: int| lo <= i < hi ==> buf@[i] == old(buf)@[i],
            forall|i: int| hi <= i < k ==> buf@[i] == old(buf)@[k - 1 - i],
            forall|i: int| k <= i < buf@.len() ==> buf@[i] == old(buf)@[i],
        decreases hi - lo,
    {
        let a = buf[lo];
        let b = buf[hi - 1];
        buf.set(lo, b);
        buf.set(hi - 1, a);
        lo = lo + 1;
        hi = hi - 1;
    }
    proof {
        let want = old(buf)@.take(k as int).reverse() + old(buf)@.skip(k as int);
        assert forall|i: int| 0 <= i < buf@.len() implies buf@[i] == want[i] by {
            if i < k {
                assert(want[i] == old(buf)@[k - 1 - i]);
                if lo <= i < hi {
                    assert(i == lo);
                    assert(k - 1 - i == i);
                }
            } else {
                assert(want[i] == old(buf)@[i]);
            }
        }
        assert(buf@ =~= want);
    }
}

/// Writes the word sequence as big-endian bytes: the little-endian
/// layout with exactly the significant prefix reversed in place. Bytes
/// past the significant count keep little-endian zero-padding order.
pub fn to_bytes_be(words: &Vec<u64>, buf: &mut Vec<u8>) -> (r: u32)
    requires
        old(buf)@.len() % 8 == 0,
        8 * words@.len() <= old(buf)@.len(),
        old(buf)@.len() <= u32::MAX,
    ensures
        final(buf)@ == to_bytes_be_result(words@, old(buf)@),
        r == sig_byte_len(words@),
        r <= 8 * words@.len(),
{
    let r = to_bytes_le(words, buf);
    proof {
        lemma_sig_byte_len_bound(words@);
        lemma_le_bytes_of_words_len(words@);
    }
    reverse_prefix(buf, r as usize);
    r
}

/// Rebuilds the word sequence a little-endian byte buffer denotes:
/// ceil(len / 8) words, any final partial word zero-extended in its
/// high-order bytes. An empty buffer yields the empty (zero) sequence.
pub fn from_bytes_le(buf: &Vec<u8>) -> (r: Vec<u64>)
    ensures
        r@ == words_of_le_bytes(buf@),
{
    let len = buf.len();
    let word_count = len / 8 + if len % 8 != 0 {
        1
    } else {
        0
    };
    proof {
        assert(word_count == (len + 7) / 8);
    }
    let mut words: Vec<u64> = Vec::new();
    let mut wi: usize = 0;
    while wi < word_count
        invariant
            word_count == (buf@.len() + 7) / 8,
            len == buf@.len(),
            wi <= word_count,
            words@.len() == wi,
            forall|j: int|
                0 <= j < wi ==> words@[j] == bytes_value_le(word_chunk(buf@, j)) as u64,
        decreases word_count - wi,
    {
        proof {
            assert(8 * wi <= len - 1);
        }
        let start = 8 * wi;
        let end = if len - start >= 8 {
            start + 8
        } else {
            len
        };
        let mut w: u64 = 0;
        let mut k = end;
        proof {
            assert(buf@.subrange(k as int, end as int) =~= Seq::<u8>::empty());
        }
        while k > start
            invariant
                start < end <= len,
                end - start <= 8,
                len == buf@.len(),
                start <= k <= end,
                w as nat == bytes_value_le(buf@.subrange(k as int, end as int)),
            decreases k,
        {
            let b = buf[k - 1];
            proof {
                let tail_old = buf@.subrange(k as int, end as int);
                let tail_new = buf@.subrange(k - 1, end as int);
                assert(tail_new.drop_first() =~= tail_old);
                assert(tail_new[0] == buf@[k - 1]);
                lemma_bytes_value_bound(tail_old);
                lemma_byte_shift_fits(bytes_value_le(tail_old), (end - k) as nat);
                assert(bytes_value_le(tail_new) == b + 256 * bytes_value_le(tail_old));
            }
            w = w * 256 + b as u64;
            k = k - 1;
        }
        proof {
            assert(word_chunk(buf@, wi as int) =~= buf@.subrange(start as int, end as int));
        }
        words.push(w);
        wi = wi + 1;
    }
    proof {
        assert forall|j: int| 0 <= j < words@.len() implies words@[j] == words_of_le_bytes(
            buf@,
        )[j] by {
        }
        assert(words@ =~= words_of_le_bytes(buf@));
    }
    words
}

/// Rebuilds the word sequence a big-endian byte buffer denotes: the
/// buffer is materialized in reversed byte order and read as
/// little-endian words.
pub fn from_bytes_be(buf: &Vec<u8>) -> (r: Vec<u64>)
    ensures
        r@ == words_of_le_bytes(buf@.reverse()),
{
    let len = buf.len();
    let mut rev: Vec<u8> = Vec::new();
    let mut i: usize = len;
    while i > 0
        invariant
            len == buf@.len(),
            i <= len,
            rev@.len() == len - i,
            forall|j: int| 0 <= j < len - i ==> rev@[j] == buf@[len - 1 - j],
        decreases i,
    {
        i = i - 1;
        rev.push(buf[i]);
    }
    proof {
        assert(rev@ =~= buf@.reverse());
    }
    from_bytes_le(&rev)
}

} // verus!
