use quartz_core::segment::{Corpus, DiskSegment, DocMeta, MemSegment, SegmentFiles, DOC_META_SIZE};

fn max_score(corpus: Corpus, doc_freq: u64, top: u8) -> u32 {
    let total_docs = corpus.num_docs as f32;
    let avg_dl = corpus.total_len as f64 / total_docs.max(1.0) as f64;
    let doc_freq = doc_freq as f32;
    let idf = ((total_docs - doc_freq + 0.5) / (doc_freq + 0.5)).ln().max(0.0);
    let top = top as f32;
    let min_dl = corpus.min_len as f32;
    let tf_norm = (top * 2.2) / (top + 1.2 * (0.25 + 0.75 * min_dl / avg_dl as f32));
    (idf * tf_norm).to_bits()
}

fn mean(total: u64, num_docs: u64) -> u64 {
    (total as f64 / (num_docs as f32).max(1.0) as f64).to_bits()
}

fn strings(tokens: &[&str]) -> Vec<String> {
    tokens.iter().map(|s| s.to_string()).collect()
}

fn flush(mem: &MemSegment, seg_id: u64) -> SegmentFiles {
    mem.flush(seg_id, max_score, mean)
}

#[test]
fn flush_and_reopen() {
    let mut mem = MemSegment::new(64 * 1024 * 1024);

    let tokens: Vec<String> = vec!["rust".into(), "fast".into(), "rust".into()];
    mem.add_doc("http://example.com", &tokens, 1234567890, 999);

    let files = flush(&mem, 0);
    let seg = DiskSegment::open(files.bytes(0)).unwrap();

    // doc 0 has 3 tokens
    assert_eq!(seg.doc_len(0), 3);

    // "rust" appears with tf=2
    let offset = seg.term_offset("rust").expect("rust must be indexed");
    let (ids, tfs) = seg.read_postings(offset);
    assert_eq!(ids, vec![0]);
    assert_eq!(tfs, vec![2]);

    // "fast" appears with tf=1
    let offset = seg.term_offset("fast").expect("fast must be indexed");
    let (ids, tfs) = seg.read_postings(offset);
    assert_eq!(ids, vec![0]);
    assert_eq!(tfs, vec![1]);

    // segment metadata
    assert_eq!(seg.meta.num_docs, 1);
    assert_eq!(seg.meta.num_terms, 2); // rust, fast
}

#[test]
fn multi_doc_postings() {
    let mut mem = MemSegment::new(64 * 1024 * 1024);

    mem.add_doc("http://a.com", &["rust".into(), "search".into()], 0, 0);
    mem.add_doc("http://b.com", &["rust".into(), "python".into()], 1, 1);
    mem.add_doc("http://c.com", &["python".into(), "search".into()], 2, 2);

    let files = flush(&mem, 1);
    let seg = DiskSegment::open(files.bytes(0)).unwrap();

    // "rust" in docs 0 and 1
    let offset = seg.term_offset("rust").unwrap();
    let (ids, _) = seg.read_postings(offset);
    assert_eq!(ids, vec![0, 1]);

    // "python" in docs 1 and 2
    let offset = seg.term_offset("python").unwrap();
    let (ids, _) = seg.read_postings(offset);
    assert_eq!(ids, vec![1, 2]);

    assert_eq!(seg.meta.num_docs, 3);
}

#[test]
fn adding_numbers_documents_and_terms() {
    let mut mem = MemSegment::new(100);
    assert_eq!(mem.add_doc("u", &strings(&["b", "a", "b"]), 5, 6), (0, false));
    assert_eq!(mem.add_doc("vw", &strings(&["a", "c"]), 7, 8), (1, true));
    assert_eq!(mem.byte_size, 120);
    assert_eq!(mem.next_doc_id, 2);
    assert_eq!(mem.next_term_id, 3);
    assert_eq!(mem.term_dict.get(b"b"), Some(0));
    assert_eq!(mem.term_dict.get(b"a"), Some(1));
    assert_eq!(mem.term_dict.get(b"c"), Some(2));
    assert_eq!(mem.term_dict.get(b"d"), None);
    assert_eq!(mem.postings[&0], vec![(0, 2)]);
    assert_eq!(mem.postings[&1], vec![(0, 1), (1, 1)]);
    assert_eq!(mem.doc_lengths, vec![3, 2]);
    assert_eq!(mem.doc_urls, b"uvw");
    assert_eq!(
        mem.doc_metas[1],
        DocMeta { url_offset: 1, url_len: 2, crawl_ts: 7, content_hash: 8, lang_id: 1 }
    );
}

#[test]
fn term_frequencies_end_at_255() {
    let mut mem = MemSegment::new(usize::MAX);
    mem.add_doc("u", &vec!["x".to_string(); 300], 0, 0);
    mem.add_doc("u", &vec!["x".to_string(); 255], 0, 0);
    mem.add_doc("u", &vec!["x".to_string(); 254], 0, 0);
    assert_eq!(mem.postings[&0], vec![(0, 255), (1, 255), (2, 254)]);
}

#[test]
fn a_document_without_tokens() {
    let mut mem = MemSegment::new(1);
    assert_eq!(mem.add_doc("", &[], 0, 0), (0, false));
    let files = flush(&mem, 3);
    let seg = DiskSegment::open(files.bytes(0)).unwrap();
    assert_eq!(seg.meta.num_docs, 1);
    assert_eq!(seg.meta.num_terms, 0);
    assert_eq!(seg.doc_len(0), 0);
    assert_eq!(seg.term_offset("anything"), None);
    assert!(seg.is_valid());
}

#[test]
fn the_files_of_a_segment() {
    let mut mem = MemSegment::new(usize::MAX);
    mem.add_doc("http://x", &strings(&["b", "a", "b"]), 0x0102, 0x0304);
    mem.add_doc("y", &strings(&["b"]), 1, 2);
    let files = flush(&mem, 7);
    // "a" in document 0, then "b" in documents 0 and 1.
    assert_eq!(files.postings, vec![1, 0, 1, 2, 0, 2, 1, 1]);
    // Lengths of the lists under the numbers of the terms: "b" came first.
    assert_eq!(files.terminfo, Some(vec![2, 0, 0, 0, 1, 0, 0, 0]));
    assert_eq!(files.doclens, vec![3, 0, 0, 0, 1, 0, 0, 0]);
    assert_eq!(files.docurls, b"http://xy");
    assert_eq!(files.docmeta.len(), 2 * DOC_META_SIZE);
    assert_eq!(files.docmeta[0..10], [0, 0, 0, 0, 0, 0, 0, 0, 8, 0]);
    assert_eq!(files.docmeta[10..18], [2, 1, 0, 0, 0, 0, 0, 0]);
    assert_eq!(files.docmeta[18..28], [4, 3, 0, 0, 0, 0, 0, 0, 1, 0]);
    assert_eq!(files.docmeta[28..38], [8, 0, 0, 0, 0, 0, 0, 0, 1, 0]);
    assert_eq!(files.meta.seg_id, 7);
    assert_eq!(files.meta.num_docs, 2);
    assert_eq!(files.meta.num_terms, 2);
    assert_eq!(files.meta.total_postings, 3);
    assert_eq!(files.meta.merge_gen, 0);
    assert_eq!(f64::from_bits(files.meta.avg_doc_len), 2.0);
    // So do the scores.
    assert_eq!(files.maxscores.len(), 8);
    let seg = DiskSegment::open(files.bytes(0)).unwrap();
    let corpus = Corpus { num_docs: 2, total_len: 4, min_len: 1 };
    assert_eq!(seg.max_score(0), max_score(corpus, 2, 2));
    assert_eq!(seg.max_score(1), max_score(corpus, 1, 1));
    assert_eq!(seg.max_score(2), 0);
    assert_eq!(seg.max_score(u32::MAX), 0);
    let total = files.postings.len() + files.terms.len() + 8 + 8 + 56 + 9 + 8;
    assert_eq!(seg.size_bytes, total as u64);
    let with_meta = DiskSegment::open(files.bytes(150)).unwrap();
    assert_eq!(with_meta.size_bytes, total as u64 + 150);
}

#[test]
fn document_frequencies_stand_under_the_numbers_of_the_terms() {
    let mut mem = MemSegment::new(usize::MAX);
    mem.add_doc("", &strings(&["rust", "fast"]), 0, 0);
    mem.add_doc("", &strings(&["rust"]), 0, 0);
    mem.add_doc("", &strings(&["rust", "able"]), 0, 0);
    let files = flush(&mem, 0);
    assert_eq!(files.terminfo, Some(vec![3, 0, 0, 0, 1, 0, 0, 0, 1, 0, 0, 0]));
}

#[test]
fn scores_are_computed_from_the_documents() {
    let mut mem = MemSegment::new(usize::MAX);
    mem.add_doc("", &strings(&["a", "a", "b"]), 0, 0);
    mem.add_doc("", &[], 0, 0);
    let files = mem.flush(
        0,
        |corpus: Corpus, doc_freq: u64, top: u8| {
            assert_eq!(corpus, Corpus { num_docs: 2, total_len: 3, min_len: 1 });
            doc_freq as u32 * 100 + top as u32
        },
        |total: u64, num_docs: u64| total * 10 + num_docs,
    );
    assert_eq!(files.maxscores, vec![102, 0, 0, 0, 101, 0, 0, 0]);
    assert_eq!(files.meta.avg_doc_len, 32);
}

#[test]
fn documents_are_read_back() {
    let mut mem = MemSegment::new(usize::MAX);
    mem.add_doc("http://one", &strings(&["x"]), 11, 12);
    mem.add_doc("http://\u{e9}", &strings(&["x", "\u{e9}"]), 13, 14);
    let files = flush(&mem, 0);
    let seg = DiskSegment::open(files.bytes(0)).unwrap();
    assert!(seg.is_valid());
    for d in 0..2u32 {
        assert!(seg.has_document(d));
        assert_eq!(seg.doc_meta(d), mem.doc_metas[d as usize]);
        assert_eq!(seg.doc_len(d), mem.doc_lengths[d as usize]);
    }
    assert!(!seg.has_document(2));
    assert_eq!(seg.doc_url(&seg.doc_meta(0)), b"http://one");
    assert_eq!(seg.doc_url(&seg.doc_meta(1)), "http://\u{e9}".as_bytes());
    let offset = seg.term_offset("\u{e9}").unwrap();
    assert_eq!(seg.read_postings(offset), (vec![1], vec![1]));
}

#[test]
fn many_terms_are_all_found() {
    let mut mem = MemSegment::new(usize::MAX);
    let tokens: Vec<String> = (0..500).map(|i| format!("term{}", i * 7919 % 500)).collect();
    mem.add_doc("", &tokens, 0, 0);
    mem.add_doc("", &tokens[100..200].to_vec(), 0, 0);
    let files = flush(&mem, 0);
    let seg = DiskSegment::open(files.bytes(0)).unwrap();
    assert!(seg.is_valid());
    for (i, token) in tokens.iter().enumerate() {
        let offset = seg.term_offset(token).unwrap();
        let expected: Vec<u32> = if (100..200).contains(&i) { vec![0, 1] } else { vec![0] };
        assert_eq!(seg.read_postings(offset).0, expected);
    }
    assert_eq!(seg.term_offset("term"), None);
    assert_eq!(seg.term_offset("term500"), None);
}

#[test]
fn a_term_file_that_is_none_is_refused() {
    let mut mem = MemSegment::new(usize::MAX);
    mem.add_doc("", &strings(&["a"]), 0, 0);
    let files = flush(&mem, 0);
    let mut bytes = files.bytes(0);
    bytes.terms = b"";
    assert!(DiskSegment::open(bytes).is_none());
    let short = &files.terms[..35];
    bytes.terms = short;
    assert!(DiskSegment::open(bytes).is_none());
    let mut version = files.terms.clone();
    version[0] = 9;
    bytes.terms = &version;
    assert!(DiskSegment::open(bytes).is_none());
    bytes.terms = &files.terms;
    assert!(DiskSegment::open(bytes).is_some());
}

#[test]
fn files_that_do_not_belong_together_are_told() {
    let mut mem = MemSegment::new(usize::MAX);
    mem.add_doc("http://u", &strings(&["a", "b"]), 0, 0);
    mem.add_doc("http://v", &strings(&["b"]), 0, 0);
    let files = flush(&mem, 0);
    assert!(DiskSegment::open(files.bytes(0)).unwrap().is_valid());

    let mut bytes = files.bytes(0);
    bytes.postings = &files.postings[..4];
    let seg = DiskSegment::open(bytes).unwrap();
    assert!(!seg.is_valid());
    assert_eq!(seg.try_read_postings(seg.term_offset("b").unwrap()), None);
    assert_eq!(seg.try_read_postings(100), None);

    let mut bytes = files.bytes(0);
    bytes.docurls = &files.docurls[..15];
    assert!(!DiskSegment::open(bytes).unwrap().is_valid());

    let mut bytes = files.bytes(0);
    bytes.doclens = &files.doclens[..7];
    assert!(!DiskSegment::open(bytes).unwrap().is_valid());

    let mut bytes = files.bytes(0);
    bytes.docmeta = &files.docmeta[..55];
    assert!(!DiskSegment::open(bytes).unwrap().is_valid());

    let mut bytes = files.bytes(0);
    bytes.meta.num_docs = 1;
    let seg = DiskSegment::open(bytes).unwrap();
    assert!(!seg.is_valid());
    let b = seg.term_offset("b").unwrap();
    assert!(seg.readable_below(b, 2));
    assert!(!seg.readable_below(b, 1));
    assert!(!seg.sound_at(b));
    assert!(seg.sound_at(seg.term_offset("a").unwrap()));
}
