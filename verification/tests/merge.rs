use quartz_core::merge::{is_mergeable, k_way_merge, TieredMergePolicy};
use quartz_core::segment::{Corpus, DiskSegment, MemSegment, SegmentFiles};

fn max_score(corpus: Corpus, doc_freq: u64, top: u8) -> u32 {
    (corpus.num_docs as u32) << 16 | (doc_freq as u32) << 8 | top as u32
}

fn mean(total: u64, num_docs: u64) -> u64 {
    (total as f64 / num_docs as f64).to_bits()
}

fn make_segment(seg_id: u64, docs: &[(&str, Vec<&str>)]) -> SegmentFiles {
    let mut mem = MemSegment::new(64 * 1024 * 1024);
    for (url, tokens) in docs {
        let owned: Vec<String> = tokens.iter().map(|s| s.to_string()).collect();
        mem.add_doc(url, &owned, 0, 0);
    }
    mem.flush(seg_id, max_score, mean)
}

fn open(files: &SegmentFiles) -> DiskSegment<'_> {
    DiskSegment::open(files.bytes(0)).unwrap()
}

fn merge(segments: &[&DiskSegment<'_>], seg_id: u64) -> SegmentFiles {
    assert!(is_mergeable(segments));
    k_way_merge(segments, seg_id, max_score, mean)
}

fn postings(seg: &DiskSegment<'_>, term: &str) -> Vec<(u32, u8)> {
    let (ids, tfs) = seg.read_postings(seg.term_offset(term).unwrap());
    ids.into_iter().zip(tfs).collect()
}

#[test]
fn merge_two_segments() {
    let files_a = make_segment(0, &[("http://a.com", vec!["rust", "fast"])]);
    let files_b = make_segment(1, &[("http://b.com", vec!["rust", "python"])]);
    let seg_a = open(&files_a);
    let seg_b = open(&files_b);

    let files = merge(&[&seg_a, &seg_b], 99);
    let merged = open(&files);

    // "rust" appears in both segments — must have 2 postings entries
    let offset = merged.term_offset("rust").expect("rust must exist");
    let (ids, _) = merged.read_postings(offset);
    assert_eq!(ids.len(), 2, "rust should appear in 2 docs");

    // total docs = 2
    assert_eq!(merged.meta.num_docs, 2);
    // merge_gen incremented
    assert_eq!(merged.meta.merge_gen, 1);
}

#[test]
fn merge_preserves_unique_terms() {
    let files_a = make_segment(0, &[("http://a.com", vec!["alpha", "beta"])]);
    let files_b = make_segment(1, &[("http://b.com", vec!["gamma", "delta"])]);
    let seg_a = open(&files_a);
    let seg_b = open(&files_b);

    let files = merge(&[&seg_a, &seg_b], 99);
    let merged = open(&files);

    // All 4 unique terms must survive the merge
    assert!(merged.term_offset("alpha").is_some());
    assert!(merged.term_offset("beta").is_some());
    assert!(merged.term_offset("gamma").is_some());
    assert!(merged.term_offset("delta").is_some());
    assert_eq!(merged.meta.num_terms, 4);
}

#[test]
fn tiered_policy_triggers_on_overflow() {
    // Build 12 segments (> max_per_tier=10)
    let files: Vec<SegmentFiles> = (0..12)
        .map(|i| make_segment(i, &[(&format!("http://{}.com", i), vec!["term"])]))
        .collect();
    let segs: Vec<DiskSegment<'_>> = files.iter().map(open).collect();

    let policy = TieredMergePolicy::default();
    let candidates = policy.find_merge(&segs);
    assert!(candidates.is_some(), "policy must trigger with 12 segments");
    assert_eq!(candidates.unwrap().len(), policy.merge_factor);
}

#[test]
fn tiered_policy_no_merge_when_under_limit() {
    // Build only 5 segments (< max_per_tier=10)
    let files: Vec<SegmentFiles> = (0..5)
        .map(|i| make_segment(i, &[(&format!("http://{}.com", i), vec!["term"])]))
        .collect();
    let segs: Vec<DiskSegment<'_>> = files.iter().map(open).collect();

    let policy = TieredMergePolicy::default();
    assert!(policy.find_merge(&segs).is_none());
}

#[test]
fn the_default_policy() {
    let policy = TieredMergePolicy::default();
    assert_eq!(policy.max_per_tier, 10);
    assert_eq!(policy.merge_factor, 10);
    assert_eq!(policy.floor_size, 2 * 1024 * 1024);
}

/// Looks for segments to merge among segments of these sizes.
fn chosen(policy: TieredMergePolicy, sizes: &[u64]) -> Option<Vec<usize>> {
    let files = make_segment(0, &[("http://a.com", vec!["term"])]);
    let mut segs: Vec<DiskSegment<'_>> = sizes.iter().map(|_| open(&files)).collect();
    for (seg, size) in segs.iter_mut().zip(sizes) {
        seg.size_bytes = *size;
    }
    policy.find_merge(&segs)
}

#[test]
fn the_smallest_of_a_tier_are_chosen() {
    let sizes = [50, 20, 40, 20, 10];
    let policy = |max_per_tier: usize, merge_factor: usize, floor_size: u64| TieredMergePolicy {
        max_per_tier,
        merge_factor,
        floor_size,
    };
    // 10, 20 and 20 are a tier, 40 and 50 are another. By size, and among equals by position.
    assert_eq!(chosen(policy(2, 3, 100), &sizes), Some(vec![4, 1, 3]));
    assert_eq!(chosen(policy(3, 3, 100), &sizes), None);
    // All are in one tier.
    assert_eq!(chosen(policy(4, 5, 141), &sizes), Some(vec![4, 1, 3, 2, 0]));
    assert_eq!(chosen(policy(5, 5, 141), &sizes), None);
}

#[test]
fn segments_are_merged_below_the_floor() {
    let policy = |floor_size: u64| TieredMergePolicy { max_per_tier: 2, merge_factor: 2, floor_size };
    assert_eq!(chosen(policy(201), &[100, 100, 100]), Some(vec![0, 1]));
    assert_eq!(chosen(policy(200), &[100, 100, 100]), None);
    assert_eq!(chosen(policy(0), &[0, 0, 0]), None);
}

#[test]
fn a_large_segment_stands_alone() {
    let policy = || TieredMergePolicy { max_per_tier: 2, merge_factor: 3, floor_size: 10_000 };
    // Too few of a size for a merge.
    assert_eq!(chosen(policy(), &[1, 10, 100, 1_000]), None);
    // The tier that overflows need not be the first.
    assert_eq!(chosen(policy(), &[700, 10, 500, 600]), Some(vec![2, 3, 0]));
}

#[test]
fn merging_raises_document_numbers() {
    let files_a = make_segment(0, &[("http://a", vec!["x", "y"]), ("http://bb", vec!["x", "x"])]);
    let files_b = make_segment(1, &[("http://ccc", vec!["z", "x"])]);
    let seg_a = open(&files_a);
    let seg_b = open(&files_b);
    let files = merge(&[&seg_a, &seg_b], 5);
    let merged = open(&files);
    assert!(merged.is_valid());
    assert_eq!(postings(&merged, "x"), vec![(0, 1), (1, 2), (2, 1)]);
    assert_eq!(postings(&merged, "y"), vec![(0, 1)]);
    assert_eq!(postings(&merged, "z"), vec![(2, 1)]);
    assert_eq!(merged.term_offset("w"), None);
    assert_eq!((0..3).map(|d| merged.doc_len(d)).collect::<Vec<u32>>(), vec![2, 2, 2]);
    let urls: Vec<&[u8]> = (0..3).map(|d| merged.doc_url(&merged.doc_meta(d))).collect();
    assert_eq!(urls, vec![&b"http://a"[..], b"http://bb", b"http://ccc"]);
    assert_eq!(merged.meta.seg_id, 5);
    assert_eq!(merged.meta.num_docs, 3);
    assert_eq!(merged.meta.num_terms, 3);
    // Counted by terms, unlike after a flush.
    assert_eq!(merged.meta.total_postings, 3);
    assert_eq!((files_a.meta.total_postings, files_b.meta.total_postings), (3, 2));
    assert_eq!(f64::from_bits(merged.meta.avg_doc_len), 2.0);
    assert_eq!(files.terminfo, None);
    // Scores in the order of the terms.
    let corpus = Corpus { num_docs: 3, total_len: 6, min_len: 2 };
    assert_eq!(merged.max_score(0), max_score(corpus, 3, 2));
    assert_eq!(merged.max_score(1), max_score(corpus, 1, 1));
    assert_eq!(merged.max_score(2), max_score(corpus, 1, 1));
}

#[test]
fn merging_again_counts_on() {
    let a = make_segment(0, &[("u", vec!["m"])]);
    let b = make_segment(1, &[("v", vec!["m"])]);
    let c = make_segment(2, &[("w", vec!["n", "m"])]);
    let (a, b, c) = (open(&a), open(&b), open(&c));
    let ab = merge(&[&a, &b], 3);
    let ab = open(&ab);
    let abc = merge(&[&ab, &c], 4);
    let abc = open(&abc);
    assert_eq!(abc.meta.merge_gen, 2);
    let at_once = merge(&[&a, &b, &c], 4);
    let at_once = open(&at_once);
    assert_eq!(at_once.meta.merge_gen, 1);
    for term in ["m", "n"] {
        assert_eq!(postings(&abc, term), postings(&at_once, term));
    }
    assert_eq!(abc.docurls, at_once.docurls);
    assert_eq!(abc.docmeta, at_once.docmeta);
}

#[test]
fn merging_in_steps_makes_what_merging_at_once_makes() {
    let a = make_segment(0, &[("u", vec!["m", "k"])]);
    let b = make_segment(1, &[("v", vec!["m"]), ("vv", vec!["n", "n", "m"])]);
    let c = make_segment(2, &[("w", vec!["k", "m"])]);
    let d = make_segment(3, &[("x", vec!["z"])]);
    let (a, b, c, d) = (open(&a), open(&b), open(&c), open(&d));
    let bc = merge(&[&b, &c], 4);
    let bc = open(&bc);
    let in_steps = merge(&[&a, &bc, &d], 5);
    let at_once = merge(&[&a, &b, &c, &d], 5);
    assert_eq!(in_steps.postings, at_once.postings);
    assert_eq!(in_steps.terms, at_once.terms);
    assert_eq!(in_steps.doclens, at_once.doclens);
    assert_eq!(in_steps.docmeta, at_once.docmeta);
    assert_eq!(in_steps.docurls, at_once.docurls);
    assert_eq!(in_steps.maxscores, at_once.maxscores);
    assert_eq!(in_steps.meta.num_docs, 5);
    assert_eq!(at_once.meta.num_docs, 5);
    assert_eq!(in_steps.meta.num_terms, at_once.meta.num_terms);
    assert_eq!(in_steps.meta.total_postings, at_once.meta.total_postings);
    assert_eq!(in_steps.meta.avg_doc_len, at_once.meta.avg_doc_len);
}

#[test]
fn merging_one_segment_keeps_it() {
    let files = make_segment(0, &[("u", vec!["b", "a"]), ("v", vec!["a"])]);
    let seg = open(&files);
    let again = merge(&[&seg], 1);
    assert_eq!(again.postings, files.postings);
    assert_eq!(again.terms, files.terms);
    assert_eq!(again.doclens, files.doclens);
    assert_eq!(again.docmeta, files.docmeta);
    assert_eq!(again.docurls, files.docurls);
}

#[test]
fn merging_nothing() {
    let files = merge(&[], 1);
    assert_eq!(files.meta.num_docs, 0);
    assert_eq!(files.meta.merge_gen, 1);
    assert!(f64::from_bits(files.meta.avg_doc_len).is_nan());
    assert!(files.postings.is_empty());
    assert_eq!(open(&files).term_offset("a"), None);
}

#[test]
fn lists_out_of_range_are_sorted() {
    // Documents of the first segment that lie beyond its count overlap those of the second.
    let files_a = make_segment(0, &[("", vec!["p"]), ("", vec!["t"]), ("", vec!["t"])]);
    let files_b = make_segment(1, &[("", vec!["t", "t"])]);
    let mut seg_a = open(&files_a);
    seg_a.meta.num_docs = 1;
    let seg_b = open(&files_b);
    let files = merge(&[&seg_a, &seg_b], 2);
    assert_eq!(postings(&open(&files), "t"), vec![(1, 1), (1, 2), (2, 1)]);
}

#[test]
fn segments_that_cannot_be_merged_are_told() {
    let files = make_segment(0, &[("u", vec!["a"])]);
    let mut seg = open(&files);
    assert!(is_mergeable(&[&seg]));
    seg.meta.merge_gen = u32::MAX;
    assert!(!is_mergeable(&[&seg]));
    seg.meta.merge_gen = 0;
    seg.meta.num_docs = 2;
    assert!(!is_mergeable(&[&seg]));
    seg.meta.num_docs = 1;
    seg.postings = b"";
    assert!(!is_mergeable(&[&seg]));
}
