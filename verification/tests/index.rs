use quartz_core::bm25::{Bm25Scorer, ScoredDoc};
use quartz_core::index::reader::combine;
use quartz_core::order::sort_order;
use quartz_core::query::split_words;
use quartz_core::segment::{Corpus, DiskSegment, MemSegment, SegmentFiles};
use quartz_core::{IndexReader, IndexWriter};

fn max_score(_corpus: Corpus, _doc_freq: u64, _top: u8) -> u32 {
    0
}

fn mean(_total: u64, _num_docs: u64) -> u64 {
    0
}

fn make_segment(docs: &[(&str, &[&str])]) -> SegmentFiles {
    let mut mem = MemSegment::new(usize::MAX);
    for (url, tokens) in docs {
        let toks: Vec<String> = tokens.iter().map(|s| s.to_string()).collect();
        mem.add_doc(url, &toks, 21, 22);
    }
    mem.flush(0, max_score, mean)
}

fn reader(files: &[SegmentFiles]) -> IndexReader<'_> {
    IndexReader { segments: files.iter().map(|f| DiskSegment::open(f.bytes(0)).unwrap()).collect() }
}

fn three_segments() -> Vec<SegmentFiles> {
    vec![
        make_segment(&[("http://a", &["x"]), ("http://b", &["x", "x", "x"])]),
        make_segment(&[("http://c", &["y"])]),
        make_segment(&[("http://d", &["x", "x"]), ("http://e", &["y", "x"])]),
    ]
}

fn search(reader: &IndexReader<'_>, q: &str, k: usize) -> Vec<(u32, u32)> {
    let scorer = Bm25Scorer {
        weigh: |_num_docs: u64, _doc_freq: u64| -> u32 { 10 },
        bound: |weight: u32, top: u8, _avg: u64| -> u32 { weight * top as u32 },
        part: |weight: u32, tf: u8, _len: u32, _avg: u64| -> u32 { weight * tf as u32 },
        plus: |a: u32, b: u32| -> u32 { a + b },
    };
    let results = reader.search(&scorer, q, k);
    assert_eq!(results, reader.search_words(&scorer, &split_words(q), k));
    results.iter().map(|d| (d.score, d.doc_id)).collect()
}

#[test]
fn a_writer_numbers_its_segments() {
    let mut writer = IndexWriter::new(48);
    assert!(writer.flush(max_score, mean).is_none());
    assert!(!writer.add_doc("http://a", &["one".to_string()], 1, 2));
    assert!(writer.add_doc("http://b", &["two".to_string()], 3, 4));
    let files = writer.flush(max_score, mean).unwrap();
    assert_eq!(files.meta.seg_id, 0);
    assert_eq!(files.meta.num_docs, 2);
    // Until the files are written the documents stay.
    assert_eq!(writer.active_segment.next_doc_id, 2);
    writer.finish_flush();
    assert_eq!(writer.next_seg_id, 1);
    assert_eq!(writer.active_segment.next_doc_id, 0);
    assert!(writer.flush(max_score, mean).is_none());
    assert!(!writer.add_doc("http://c", &["three".to_string()], 5, 6));
    assert_eq!(writer.flush(max_score, mean).unwrap().meta.seg_id, 1);
}

#[test]
fn an_index_counts_its_documents() {
    let files = three_segments();
    let index = reader(&files);
    assert_eq!(index.num_docs(), 5);
    assert_eq!(index.num_segments(), 3);
    assert_eq!(reader(&[]).num_docs(), 0);
}

#[test]
fn documents_are_found_by_their_number_in_the_index() {
    let files = three_segments();
    let index = reader(&files);
    let urls = ["http://a", "http://b", "http://c", "http://d", "http://e"];
    for (doc, url) in urls.iter().enumerate() {
        let (meta, bytes) = index.get_doc_meta(doc as u32).unwrap();
        assert_eq!(bytes, url.as_bytes());
        assert_eq!((meta.crawl_ts, meta.content_hash, meta.lang_id), (21, 22, 1));
    }
    assert_eq!(index.locate(4), Some((2, 1)));
    assert_eq!(index.locate(2), Some((1, 0)));
    assert_eq!(index.locate(5), None);
    assert!(index.get_doc_meta(5).is_none());
    assert!(index.get_doc_meta(u32::MAX).is_none());
}

#[test]
fn all_segments_are_searched() {
    let files = three_segments();
    let index = reader(&files);
    assert_eq!(search(&index, "x", 10), vec![(30, 1), (20, 3), (10, 0), (10, 4)]);
    assert_eq!(search(&index, "x", 2), vec![(30, 1), (20, 3)]);
    assert_eq!(search(&index, "y x", 3), vec![(30, 1), (20, 3), (20, 4)]);
    assert_eq!(search(&index, "nowhere", 3), vec![]);
    assert_eq!(search(&index, "x", 0), vec![]);
}

#[test]
fn white_space_in_a_query_only_separates() {
    let files = three_segments();
    let index = reader(&files);
    let results = search(&index, "y x", 3);
    assert_eq!(search(&index, "  y \t\n x ", 3), results);
    assert_eq!(search(&index, "y\u{3000}x", 3), results);
    assert_eq!(search(&index, "", 3), vec![]);
    assert_eq!(search(&index, " \u{a0}\r\n", 3), vec![]);
    assert_eq!(search(&reader(&[]), "x", 3), vec![]);
}

#[test]
fn the_best_of_all_segments_are_found() {
    // The two best stand in one segment, and two more of it beat all of the other.
    let files = vec![
        make_segment(&[("", &["x"; 4]), ("", &["x"; 5]), ("", &["x"; 3]), ("", &["x"; 6])]),
        make_segment(&[("", &["x"; 2]), ("", &["x"])]),
        make_segment(&[("", &["y"])]),
    ];
    let index = reader(&files);
    let all = vec![(60, 3), (50, 1), (40, 0), (30, 2), (20, 4), (10, 5)];
    for k in 0..9 {
        assert_eq!(search(&index, "x", k), all[..k.min(6)].to_vec());
    }
}

#[test]
fn results_are_put_together_best_first() {
    let results = vec![
        ScoredDoc { doc_id: 1, score: 5 },
        ScoredDoc { doc_id: 2, score: 9 },
        ScoredDoc { doc_id: 3, score: 5 },
        // Minus zero and minus one.
        ScoredDoc { doc_id: 4, score: 0x8000_0000 },
        ScoredDoc { doc_id: 5, score: 0xBF80_0000 },
        ScoredDoc { doc_id: 6, score: 0 },
    ];
    let ids = |k: usize| -> Vec<u32> { combine(&results, k).iter().map(|r| r.doc_id).collect() };
    assert_eq!(ids(10), vec![2, 1, 3, 4, 6, 5]);
    assert_eq!(ids(2), vec![2, 1]);
    assert_eq!(ids(0), vec![]);
}

#[test]
fn among_equal_keys_what_stood_first_stays_first() {
    assert_eq!(sort_order(&[3, 1, 3, 0, 1]), vec![3, 1, 4, 0, 2]);
    assert_eq!(sort_order(&[]), vec![]);
    let keys: Vec<u64> = (0..1000).map(|i| i * 7919 % 101).collect();
    let mut expected: Vec<usize> = (0..1000).collect();
    expected.sort_by_key(|&i| keys[i]);
    assert_eq!(sort_order(&keys), expected);
}
