use quartz_core::codec::{decode_postings, encode_postings, try_decode_postings};
use quartz_core::codec::{vbyte_decode, vbyte_decode_one, vbyte_encode, vbyte_encode_one, vbyte_prefix_len};

#[test]
fn roundtrip_small() {
    let ids = vec![1u32, 5, 100, 10000, 1_000_000];
    let tfs = vec![1u8, 3, 1, 7, 2];
    let encoded = encode_postings(&ids, &tfs);
    let (decoded_ids, decoded_tfs) = decode_postings(&encoded);
    assert_eq!(decoded_ids, ids);
    assert_eq!(decoded_tfs, tfs);
}

#[test]
fn single_byte_gap() {
    let ids: Vec<u32> = (0..128).collect();
    let tfs = vec![1u8; 128];
    let encoded = encode_postings(&ids, &tfs);
    assert!(encoded.len() < 300);
    let (d, t) = decode_postings(&encoded);
    assert_eq!(d, ids);
    assert_eq!(t, tfs);
}

#[test]
fn large_doc_ids() {
    let ids = vec![0u32, 1_000_000, 2_000_000, u32::MAX - 1];
    let tfs = vec![1u8; 4];
    let (d, _) = decode_postings(&encode_postings(&ids, &tfs));
    assert_eq!(d, ids);
}

#[test]
fn integers_have_one_to_five_bytes() {
    let mut out = Vec::new();
    vbyte_encode_one(127, &mut out);
    assert_eq!(out, vec![0x7F]);
    out.clear();
    vbyte_encode_one(128, &mut out);
    assert_eq!(out, vec![0x80, 0x01]);
    out.clear();
    vbyte_encode_one(300, &mut out);
    assert_eq!(out, vec![0xAC, 0x02]);
    out.clear();
    vbyte_encode_one(u32::MAX, &mut out);
    assert_eq!(out, vec![0xFF, 0xFF, 0xFF, 0xFF, 0x0F]);
}

#[test]
fn integers_are_read_back() {
    let values = vec![0u32, 1, 127, 128, 16383, 16384, 1 << 28, u32::MAX];
    let bytes = vbyte_encode(&values);
    assert_eq!(vbyte_decode(&bytes), values);
    assert_eq!(vbyte_decode_one(&[0xAC, 0x02, 0x07]), (300, 2));
}

#[test]
fn bits_beyond_the_lowest_32_are_lost() {
    assert_eq!(vbyte_decode_one(&[0xFF, 0xFF, 0xFF, 0xFF, 0x7F]), (u32::MAX, 5));
    assert_eq!(vbyte_decode_one(&[0x80, 0x80, 0x80, 0x80, 0x10]), (0, 5));
}

#[test]
fn unfinished_integers_are_told() {
    assert_eq!(vbyte_prefix_len(&[]), None);
    assert_eq!(vbyte_prefix_len(&[0x80, 0x80]), None);
    assert_eq!(vbyte_prefix_len(&[0x80, 0x80, 0x80, 0x80, 0x80, 0x01]), None);
    assert_eq!(vbyte_prefix_len(&[0x80, 0x01, 0x80]), Some(2));
}

#[test]
fn a_postings_list_as_bytes() {
    let bytes = encode_postings(&[3, 131, 131], &[1, 255, 7]);
    assert_eq!(bytes, vec![3, 3, 1, 0x80, 0x01, 0xFF, 0x01, 0, 7]);
    assert_eq!(decode_postings(&bytes), (vec![3, 131, 131], vec![1, 255, 7]));
    assert_eq!(encode_postings(&[0], &[200]), vec![1, 0, 0xC8, 0x01]);
    assert_eq!(encode_postings(&[], &[]), vec![0]);
    assert_eq!(decode_postings(&[0, 9, 9]), (vec![], vec![]));
}

#[test]
fn damaged_postings_are_told() {
    assert_eq!(try_decode_postings(&[]), None);
    assert_eq!(try_decode_postings(&[1]), None);
    assert_eq!(try_decode_postings(&[1, 5]), None);
    assert_eq!(try_decode_postings(&[1, 5, 2]), Some((vec![5], vec![2])));
    // The second gap takes the document number beyond 32 bits.
    let overflow = [2, 0xFF, 0xFF, 0xFF, 0xFF, 0x0F, 1, 1, 1];
    assert_eq!(try_decode_postings(&overflow), None);
    // A frequency has at most eight bits.
    assert_eq!(try_decode_postings(&[1, 5, 0xFF, 0x01]), Some((vec![5], vec![255])));
    assert_eq!(try_decode_postings(&[1, 5, 0x80, 0x02]), None);
}

#[test]
fn cut_postings_are_told() {
    let ids = [7, 7, 300, 70_000];
    let tfs = [1, 128, 255, 0];
    let bytes = encode_postings(&ids, &tfs);
    for cut in 0..bytes.len() {
        assert_eq!(try_decode_postings(&bytes[..cut]), None);
    }
    assert_eq!(try_decode_postings(&bytes), Some((ids.to_vec(), tfs.to_vec())));
}
