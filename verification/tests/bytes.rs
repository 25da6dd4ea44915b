use quartz_core::dict::TermDict;
use quartz_core::le::{get_le, put_le, put_le_u32s};
use quartz_core::segment::docmeta::{get_meta, put_meta, put_metas};
use quartz_core::segment::{DocMeta, DOC_META_SIZE};
use quartz_core::terms::{relate, Relation};

#[test]
fn numbers_are_written_least_significant_byte_first() {
    let mut out = vec![9];
    put_le(0x0102_0304, 4, &mut out);
    assert_eq!(out, vec![9, 4, 3, 2, 1]);
    assert_eq!(get_le(&out, 1, 4), 0x0102_0304);
    assert_eq!(get_le(&out, 3, 2), 0x0102);
    assert_eq!(get_le(&out, 5, 0), 0);
    let mut out = Vec::new();
    put_le(u64::MAX - 1, 8, &mut out);
    assert_eq!(get_le(&out, 0, 8), u64::MAX - 1);
    // Bytes beyond those that are written are lost.
    let mut out = Vec::new();
    put_le(0x1_0002, 2, &mut out);
    assert_eq!(out, vec![2, 0]);
}

#[test]
fn a_table_of_numbers_is_read_by_position() {
    let mut out = Vec::new();
    put_le_u32s(&[7, u32::MAX, 300], &mut out);
    assert_eq!(out.len(), 12);
    assert_eq!(get_le(&out, 4, 4), u32::MAX as u64);
    assert_eq!(get_le(&out, 8, 4), 300);
}

#[test]
fn records_are_found_by_their_number() {
    let a = DocMeta { url_offset: 1, url_len: 2, crawl_ts: 3, content_hash: 4, lang_id: 5 };
    let b = DocMeta {
        url_offset: u64::MAX,
        url_len: u16::MAX,
        crawl_ts: u64::MAX - 1,
        content_hash: u64::MAX - 2,
        lang_id: u16::MAX - 1,
    };
    let mut one = Vec::new();
    put_meta(&b, &mut one);
    assert_eq!(one.len(), DOC_META_SIZE);
    let mut both = Vec::new();
    put_metas(&[a, b], &mut both);
    assert_eq!(get_meta(&both, 0), a);
    assert_eq!(get_meta(&both, DOC_META_SIZE), b);
    assert_eq!(both[DOC_META_SIZE..], one);
}

#[test]
fn terms_are_ordered_byte_by_byte() {
    assert!(matches!(relate(b"a", b"b"), Relation::Before));
    assert!(matches!(relate(b"a", b"ab"), Relation::Before));
    assert!(matches!(relate(b"", b"a"), Relation::Before));
    assert!(matches!(relate(b"b", b"ab"), Relation::After));
    assert!(matches!(relate(b"ab", b"ab"), Relation::Same));
    assert!(matches!(relate(b"", b""), Relation::Same));
    assert!(matches!(relate(b"\xFF", b"z"), Relation::After));
}

#[test]
fn a_dictionary_keeps_the_first_number() {
    let mut dict = TermDict::new();
    assert_eq!(dict.intern(b"m", 0), 0);
    assert_eq!(dict.intern(b"z", 1), 1);
    assert_eq!(dict.intern(b"a", 2), 2);
    assert_eq!(dict.intern(b"m", 3), 0);
    assert_eq!(dict.get(b"a"), Some(2));
    assert_eq!(dict.get(b"z"), Some(1));
    assert_eq!(dict.get(b"b"), None);
    let terms: Vec<&[u8]> = dict.entries.iter().map(|e| e.0.as_slice()).collect();
    assert_eq!(terms, vec![&b"a"[..], b"m", b"z"]);
}
