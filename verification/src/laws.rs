//! Laws of the transcoder, stated over the model and proved once for all
//! inputs: round trips in both byte orders, cross-endian reversal, zero
//! handling, minimality of the significant length, and idempotence.

use crate::model::{
    bytes_value_le, le_bytes_of_words, lemma_bytes_value_take, lemma_le_bytes_of_words_index,
    lemma_le_bytes_of_words_len, lemma_le_bytes_of_words_value, lemma_le_bytes_zero_above_sig,
    lemma_sig_byte_len_bound, lemma_word_byte_len_bounds, lemma_word_byte_zero_above,
    lemma_word_bytes_value, lemma_words_of_le_bytes_value, sig_byte_len, to_bytes_be_result,
    to_bytes_le_result, word_byte, word_byte_len, word_bytes, word_chunk, words_of_le_bytes,
    words_value,
};
use vstd::arithmetic::mul::lemma_mul_is_distributive_sub;
use vstd::arithmetic::power2::{lemma_pow2_adds, lemma_pow2_pos, pow2};
use vstd::prelude::*;

verus! {

/// Extraction correctness: the significant prefix of a little-endian
/// extraction denotes exactly the extracted words' value — trimming the
/// zero padding loses nothing.
pub proof fn lemma_extraction_value(ws: Seq<u64>, dst: Seq<u8>)
    requires
        8 * ws.len() <= dst.len(),
    ensures
        bytes_value_le(to_bytes_le_result(ws, dst).take(sig_byte_len(ws) as int)) == words_value(
            ws,
        ),
{
    let le = to_bytes_le_result(ws, dst);
    let k = sig_byte_len(ws) as int;
    lemma_le_bytes_of_words_len(ws);
    lemma_sig_byte_len_bound(ws);
    assert(le.take(k) =~= le_bytes_of_words(ws).take(k));
    assert forall|i: int| k <= i < le_bytes_of_words(ws).len() implies le_bytes_of_words(
        ws,
    )[i] == 0 by {
        lemma_le_bytes_zero_above_sig(ws, i);
    }
    lemma_bytes_value_take(le_bytes_of_words(ws), k);
    lemma_le_bytes_of_words_value(ws);
}

/// Round trip, little-endian: reconstructing from the significant prefix
/// of a little-endian extraction denotes the extracted words' value.
pub proof fn lemma_round_trip_le(ws: Seq<u64>, dst: Seq<u8>)
    requires
        8 * ws.len() <= dst.len(),
    ensures
        words_value(
            words_of_le_bytes(to_bytes_le_result(ws, dst).take(sig_byte_len(ws) as int)),
        ) == words_value(ws),
{
    lemma_extraction_value(ws, dst);
    lemma_words_of_le_bytes_value(to_bytes_le_result(ws, dst).take(sig_byte_len(ws) as int));
}

/// Round trip, big-endian: reconstructing big-endian from the significant
/// prefix of a big-endian extraction denotes the extracted words' value.
pub proof fn lemma_round_trip_be(ws: Seq<u64>, dst: Seq<u8>)
    requires
        8 * ws.len() <= dst.len(),
    ensures
        words_value(
            words_of_le_bytes(
                to_bytes_be_result(ws, dst).take(sig_byte_len(ws) as int).reverse(),
            ),
        ) == words_value(ws),
{
    let le = to_bytes_le_result(ws, dst);
    let k = sig_byte_len(ws) as int;
    lemma_le_bytes_of_words_len(ws);
    lemma_sig_byte_len_bound(ws);
    assert(to_bytes_be_result(ws, dst).take(k) =~= le.take(k).reverse());
    assert(le.take(k).reverse().reverse() =~= le.take(k));
    lemma_round_trip_le(ws, dst);
}

/// Round trip, little-endian, exactly: when the most-significant word is
/// nonzero (the host's minimal representation), reconstruction from the
/// significant prefix of a little-endian extraction returns the very
/// same word sequence.
pub proof fn lemma_round_trip_le_exact(ws: Seq<u64>, dst: Seq<u8>)
    requires
        8 * ws.len() <= dst.len(),
        ws.len() > 0 ==> ws.last() != 0,
    ensures
        words_of_le_bytes(to_bytes_le_result(ws, dst).take(sig_byte_len(ws) as int)) == ws,
{
    let le = to_bytes_le_result(ws, dst);
    let k = sig_byte_len(ws) as int;
    let s = le.take(k);
    let n = ws.len() as int;
    lemma_le_bytes_of_words_len(ws);
    lemma_sig_byte_len_bound(ws);
    let r = words_of_le_bytes(s);
    if ws.len() == 0 {
        assert(r =~= ws);
    } else {
        let last = ws.last();
        let bl = word_byte_len(last) as int;
        lemma_word_byte_len_bounds(last);
        assert(bl >= 1);
        assert(r.len() == n);
        assert forall|i: int| 0 <= i < k implies s[i] == word_byte(ws[i / 8], i % 8) by {
            lemma_le_bytes_of_words_index(ws, i);
        }
        assert forall|j: int| 0 <= j < n implies r[j] == ws[j] by {
            if j < n - 1 {
                assert(word_chunk(s, j) =~= word_bytes(ws[j])) by {
                    assert forall|t: int| 0 <= t < 8 implies word_chunk(s, j)[t] == word_bytes(
                        ws[j],
                    )[t] by {
                        assert((8 * j + t) / 8 == j);
                        assert((8 * j + t) % 8 == t);
                        assert(s[8 * j + t] == word_byte(ws[j], t));
                    }
                }
                lemma_word_bytes_value(ws[j]);
                assert(r[j] == bytes_value_le(word_chunk(s, j)) as u64);
            } else {
                assert(word_chunk(s, j) =~= word_bytes(last).take(bl)) by {
                    assert forall|t: int| 0 <= t < bl implies word_chunk(s, j)[t] == word_bytes(
                        last,
                    )[t] by {
                        assert((8 * j + t) / 8 == j);
                        assert((8 * j + t) % 8 == t);
                        assert(s[8 * j + t] == word_byte(last, t));
                    }
                }
                assert forall|t: int| bl <= t < word_bytes(last).len() implies word_bytes(
                    last,
                )[t] == 0 by {
                    lemma_word_byte_zero_above(last, t);
                }
                lemma_bytes_value_take(word_bytes(last), bl);
                lemma_word_bytes_value(last);
                assert(r[j] == bytes_value_le(word_chunk(s, j)) as u64);
            }
        }
        assert(r =~= ws);
    }
}

/// Round trip, big-endian, exactly: the same, end-to-end in big-endian
/// byte order.
pub proof fn lemma_round_trip_be_exact(ws: Seq<u64>, dst: Seq<u8>)
    requires
        8 * ws.len() <= dst.len(),
        ws.len() > 0 ==> ws.last() != 0,
    ensures
        words_of_le_bytes(
            to_bytes_be_result(ws, dst).take(sig_byte_len(ws) as int).reverse(),
        ) == ws,
{
    let le = to_bytes_le_result(ws, dst);
    let k = sig_byte_len(ws) as int;
    lemma_le_bytes_of_words_len(ws);
    lemma_sig_byte_len_bound(ws);
    assert(to_bytes_be_result(ws, dst).take(k) =~= le.take(k).reverse());
    assert(le.take(k).reverse().reverse() =~= le.take(k));
    lemma_round_trip_le_exact(ws, dst);
}

/// Cross-endian reversal: the significant prefix of a big-endian
/// extraction is exactly the reverse of the little-endian one, and the
/// significant count is the same either way by construction.
pub proof fn lemma_cross_endian(ws: Seq<u64>, dst: Seq<u8>)
    requires
        8 * ws.len() <= dst.len(),
    ensures
        to_bytes_be_result(ws, dst).take(sig_byte_len(ws) as int) == to_bytes_le_result(
            ws,
            dst,
        ).take(sig_byte_len(ws) as int).reverse(),
{
    let le = to_bytes_le_result(ws, dst);
    let k = sig_byte_len(ws) as int;
    lemma_le_bytes_of_words_len(ws);
    lemma_sig_byte_len_bound(ws);
    assert(to_bytes_be_result(ws, dst).take(k) =~= le.take(k).reverse());
}

/// Zero handling: the zero-valued integer is the empty word sequence; its
/// extraction has significant count zero and leaves any destination
/// unchanged, and an empty buffer reconstructs it.
pub proof fn lemma_zero(dst: Seq<u8>)
    ensures
        sig_byte_len(Seq::<u64>::empty()) == 0,
        to_bytes_le_result(Seq::<u64>::empty(), dst) == dst,
        words_of_le_bytes(Seq::<u8>::empty()) == Seq::<u64>::empty(),
        words_value(Seq::<u64>::empty()) == 0,
{
    assert(to_bytes_le_result(Seq::<u64>::empty(), dst) =~= dst);
    assert(words_of_le_bytes(Seq::<u8>::empty()) =~= Seq::<u64>::empty());
}

/// A word sequence of length n denotes a value below 2^(64 n).
pub proof fn lemma_words_value_bound(ws: Seq<u64>)
    ensures
        words_value(ws) < pow2(64 * ws.len()),
    decreases ws.len(),
{
    vstd::arithmetic::power2::lemma2_to64();
    if ws.len() == 0 {
    } else {
        lemma_words_value_bound(ws.drop_first());
        lemma_pow2_adds(64, (64 * (ws.len() - 1)) as nat);
        let rest: nat = words_value(ws.drop_first());
        let p: nat = pow2((64 * (ws.len() - 1)) as nat);
        assert(pow2(64) * rest <= pow2(64) * (p - 1)) by (nonlinear_arith)
            requires
                rest <= p - 1,
        ;
        assert(pow2(64) * p == pow2(64 * ws.len()));
        assert(ws[0] < pow2(64));
    }
}

/// A word sequence's value splits at its most-significant word.
pub proof fn lemma_words_value_split_last(ws: Seq<u64>)
    requires
        ws.len() > 0,
    ensures
        words_value(ws) == words_value(ws.drop_last()) + pow2((64 * (ws.len() - 1)) as nat)
            * ws.last(),
    decreases ws.len(),
{
    vstd::arithmetic::power2::lemma2_to64();
    if ws.len() == 1 {
        assert(ws.drop_last() =~= Seq::<u64>::empty());
        assert(ws.drop_first() =~= Seq::<u64>::empty());
        assert(words_value(ws) == ws[0] + pow2(64) * words_value(ws.drop_first()));
        assert(words_value(ws) == ws[0]);
        assert((64 * (ws.len() - 1)) as nat == 0);
        assert(pow2(0) == 1);
        assert(ws.last() == ws[0]);
    } else {
        let tail = ws.drop_first();
        lemma_words_value_split_last(tail);
        assert(tail.drop_last() =~= ws.drop_last().drop_first());
        assert(tail.last() == ws.last());
        lemma_pow2_adds(64, (64 * (ws.len() - 2)) as nat);
        let a: nat = words_value(tail.drop_last());
        let p: nat = pow2((64 * (ws.len() - 2)) as nat);
        let w: nat = ws.last() as nat;
        assert(pow2(64) * (a + p * w) == pow2(64) * a + (pow2(64) * p) * w) by (nonlinear_arith);
        assert(words_value(ws) == ws[0] + pow2(64) * words_value(tail));
        assert(words_value(ws.drop_last()) == ws.drop_last()[0] + pow2(64) * words_value(
            ws.drop_last().drop_first(),
        ));
        assert(ws.drop_last()[0] == ws[0]);
        assert(words_value(ws.drop_last()) == ws[0] + pow2(64) * a);
        assert(words_value(ws) == ws[0] + pow2(64) * a + (pow2(64) * p) * w);
        assert(pow2(64) * p == pow2((64 * (ws.len() - 1)) as nat));
    }
}

/// Minimal length: a word sequence with a nonzero most-significant word
/// denotes a value that the significant byte count is exactly enough
/// for — below 256^count, and at or above 256^(count - 1).
pub proof fn lemma_sig_byte_len_minimal(ws: Seq<u64>)
    requires
        ws.len() > 0,
        ws.last() != 0,
    ensures
        words_value(ws) < pow2(8 * sig_byte_len(ws)),
        words_value(ws) >= pow2((8 * (sig_byte_len(ws) - 1)) as nat),
{
    let n: int = ws.len() as int;
    let last = ws.last();
    let bl: nat = word_byte_len(last);
    lemma_word_byte_len_bounds(last);
    lemma_words_value_split_last(ws);
    lemma_words_value_bound(ws.drop_last());
    let p: nat = pow2((64 * (n - 1)) as nat);
    lemma_pow2_pos((64 * (n - 1)) as nat);
    lemma_pow2_adds((64 * (n - 1)) as nat, 8 * bl);
    assert(8 * sig_byte_len(ws) == 64 * (n - 1) + 8 * bl);
    assert(p * last <= p * (pow2(8 * bl) - 1)) by (nonlinear_arith)
        requires
            p > 0,
            last <= pow2(8 * bl) - 1,
    ;
    lemma_mul_is_distributive_sub(p as int, pow2(8 * bl) as int, 1);
    assert(words_value(ws) < p * pow2(8 * bl));
    lemma_pow2_adds((64 * (n - 1)) as nat, (8 * (bl - 1)) as nat);
    assert(p * pow2((8 * (bl - 1)) as nat) <= p * last) by (nonlinear_arith)
        requires
            p > 0,
            pow2((8 * (bl - 1)) as nat) <= last,
    ;
    assert(8 * (sig_byte_len(ws) - 1) == 64 * (n - 1) + 8 * (bl - 1));
    assert(words_value(ws) >= p * pow2((8 * (bl - 1)) as nat));
}

/// Idempotence: each operation's contract pins its result as a function
/// of the inputs alone, so repeated calls on identical inputs produce
/// bit-identical outputs.
pub proof fn lemma_idempotent(
    ws: Seq<u64>,
    dst: Seq<u8>,
    s: Seq<u8>,
    out1: Seq<u8>,
    out2: Seq<u8>,
    r1: Seq<u64>,
    r2: Seq<u64>,
)
    requires
        out1 == to_bytes_le_result(ws, dst),
        out2 == to_bytes_le_result(ws, dst),
        r1 == words_of_le_bytes(s),
        r2 == words_of_le_bytes(s),
    ensures
        out1 == out2,
        r1 == r2,
{
}

} // verus!
