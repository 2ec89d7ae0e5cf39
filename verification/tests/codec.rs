use bigint_codec::codec::{
    from_bytes_be, from_bytes_le, reverse_prefix, significant_byte_count, to_bytes_be,
    to_bytes_le, word_byte_length, word_length,
};

#[test]
fn round_trip_le_single_word() {
    let words: Vec<u64> = vec![0x0123_4567_89ab_cdef];
    let mut buf: Vec<u8> = vec![0; 8];
    let sig = to_bytes_le(&words, &mut buf);
    assert_eq!(sig, 8);
    let prefix: Vec<u8> = buf[..sig as usize].to_vec();
    assert_eq!(from_bytes_le(&prefix), words);
}

#[test]
fn round_trip_le_multi_word() {
    let words: Vec<u64> = vec![0xdead_beef, 1, 0xff];
    let mut buf: Vec<u8> = vec![0; 24];
    let sig = to_bytes_le(&words, &mut buf);
    assert_eq!(sig, 17);
    let prefix: Vec<u8> = buf[..sig as usize].to_vec();
    assert_eq!(from_bytes_le(&prefix), words);
}

#[test]
fn round_trip_be_multi_word() {
    let words: Vec<u64> = vec![0xdead_beef, 1, 0xff];
    let mut buf: Vec<u8> = vec![0; 24];
    let sig = to_bytes_be(&words, &mut buf);
    assert_eq!(sig, 17);
    let prefix: Vec<u8> = buf[..sig as usize].to_vec();
    assert_eq!(from_bytes_be(&prefix), words);
}

#[test]
fn round_trip_be_partial_word() {
    let words: Vec<u64> = vec![0x030201];
    let mut buf: Vec<u8> = vec![0; 8];
    let sig = to_bytes_be(&words, &mut buf);
    assert_eq!(sig, 3);
    let prefix: Vec<u8> = buf[..sig as usize].to_vec();
    assert_eq!(prefix, vec![0x03, 0x02, 0x01]);
    assert_eq!(from_bytes_be(&prefix), words);
}

#[test]
fn cross_endian_reversal() {
    let words: Vec<u64> = vec![0x1122_3344_5566, 0x99];
    let mut le: Vec<u8> = vec![0; 16];
    let mut be: Vec<u8> = vec![0; 16];
    let sig_le = to_bytes_le(&words, &mut le);
    let sig_be = to_bytes_be(&words, &mut be);
    assert_eq!(sig_le, sig_be);
    let k = sig_le as usize;
    let mut reversed: Vec<u8> = le[..k].to_vec();
    reversed.reverse();
    assert_eq!(&be[..k], &reversed[..]);
    assert_eq!(&be[k..], &le[k..]);
}

#[test]
fn zero_word_length() {
    assert_eq!(word_length(&vec![]), 0);
    assert_eq!(word_length(&vec![1, 2]), 2);
}

#[test]
fn zero_to_bytes_leaves_buffer() {
    let words: Vec<u64> = vec![];
    let mut buf: Vec<u8> = vec![0xaa; 8];
    let sig = to_bytes_le(&words, &mut buf);
    assert_eq!(sig, 0);
    assert_eq!(buf, vec![0xaa; 8]);
}

#[test]
fn zero_from_empty_buffer() {
    let empty: Vec<u8> = vec![];
    assert_eq!(from_bytes_le(&empty), Vec::<u64>::new());
    assert_eq!(from_bytes_be(&empty), Vec::<u64>::new());
}

#[test]
fn minimal_length_of_256() {
    let words: Vec<u64> = vec![0x100];
    let mut buf: Vec<u8> = vec![0xaa; 8];
    let sig = to_bytes_le(&words, &mut buf);
    assert_eq!(sig, 2);
    assert_eq!(buf, vec![0x00, 0x01, 0x00, 0x00, 0x00, 0x00, 0x00, 0x00]);
}

#[test]
fn from_bytes_le_partial_word() {
    let bytes: Vec<u8> = vec![0x01, 0x02, 0x03];
    assert_eq!(from_bytes_le(&bytes), vec![0x030201]);
}

#[test]
fn from_bytes_be_partial_word() {
    let bytes: Vec<u8> = vec![0x01, 0x02, 0x03];
    assert_eq!(from_bytes_be(&bytes), vec![0x010203]);
}

#[test]
fn from_bytes_keeps_nonminimal_words() {
    let bytes: Vec<u8> = vec![0; 8];
    assert_eq!(from_bytes_le(&bytes), vec![0]);
    let bytes: Vec<u8> = vec![5, 0, 0, 0, 0, 0, 0, 0, 0];
    assert_eq!(from_bytes_le(&bytes), vec![5, 0]);
}

#[test]
fn idempotent_extraction() {
    let words: Vec<u64> = vec![7, 0x8000_0000_0000_0000];
    let mut buf1: Vec<u8> = vec![0; 16];
    let mut buf2: Vec<u8> = vec![0; 16];
    let sig1 = to_bytes_be(&words, &mut buf1);
    let sig2 = to_bytes_be(&words, &mut buf2);
    assert_eq!(sig1, sig2);
    assert_eq!(buf1, buf2);
}

#[test]
fn idempotent_reconstruction() {
    let bytes: Vec<u8> = vec![9, 8, 7, 6, 5];
    assert_eq!(from_bytes_le(&bytes), from_bytes_le(&bytes));
    assert_eq!(from_bytes_be(&bytes), from_bytes_be(&bytes));
}

#[test]
fn word_byte_length_values() {
    assert_eq!(word_byte_length(0), 0);
    assert_eq!(word_byte_length(1), 1);
    assert_eq!(word_byte_length(0xff), 1);
    assert_eq!(word_byte_length(0x100), 2);
    assert_eq!(word_byte_length(0x0100_0000_0000_0000), 8);
    assert_eq!(word_byte_length(u64::MAX), 8);
}

#[test]
fn significant_byte_count_values() {
    assert_eq!(significant_byte_count(0, 0), 0);
    assert_eq!(significant_byte_count(1, 0), 0);
    assert_eq!(significant_byte_count(1, 0x1234), 2);
    assert_eq!(significant_byte_count(2, 5), 9);
}

#[test]
fn reverse_prefix_leaves_tail() {
    let mut buf: Vec<u8> = vec![1, 2, 3, 4, 5];
    reverse_prefix(&mut buf, 3);
    assert_eq!(buf, vec![3, 2, 1, 4, 5]);
    reverse_prefix(&mut buf, 0);
    assert_eq!(buf, vec![3, 2, 1, 4, 5]);
    reverse_prefix(&mut buf, 5);
    assert_eq!(buf, vec![5, 4, 1, 2, 3]);
}

#[test]
fn extraction_pads_with_zeros_and_keeps_tail() {
    let words: Vec<u64> = vec![1];
    let mut buf: Vec<u8> = vec![0xaa; 16];
    let sig = to_bytes_le(&words, &mut buf);
    assert_eq!(sig, 1);
    assert_eq!(buf[0], 1);
    assert_eq!(&buf[1..8], &[0; 7]);
    assert_eq!(&buf[8..], &[0xaa; 8]);
}

#[test]
fn be_padding_stays_in_le_zero_order() {
    let words: Vec<u64> = vec![0x100];
    let mut buf: Vec<u8> = vec![0; 8];
    let sig = to_bytes_be(&words, &mut buf);
    assert_eq!(sig, 2);
    assert_eq!(buf, vec![0x01, 0x00, 0x00, 0x00, 0x00, 0x00, 0x00, 0x00]);
}
