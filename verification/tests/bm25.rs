use quartz_core::bm25::search::is_searchable;
use quartz_core::bm25::{Bm25Scorer, ScoredDoc};
use quartz_core::segment::{Corpus, DiskSegment, MemSegment, SegmentFiles};

fn max_score(_corpus: Corpus, _doc_freq: u64, _top: u8) -> u32 {
    0
}

fn mean(total: u64, num_docs: u64) -> u64 {
    (total as f64 / (num_docs as f32).max(1.0) as f64).to_bits()
}

/// Build the files of a tiny segment from a hand-crafted set of documents.
fn make_segment(docs: &[(&str, &[&str])]) -> SegmentFiles {
    let mut mem = MemSegment::new(usize::MAX); // never auto-flush
    for (url, tokens) in docs {
        let toks: Vec<String> = tokens.iter().map(|s| s.to_string()).collect();
        mem.add_doc(url, &toks, 0, 0);
    }
    mem.flush(0, max_score, mean)
}

/// A result whose score is a number.
struct Hit {
    doc_id: u32,
    score: f32,
}

/// Searches with the BM25 arithmetic.
fn search(files: &SegmentFiles, k1: f32, b: f32, terms: &[String], k: usize) -> Vec<Hit> {
    let scorer = Bm25Scorer {
        weigh: |num_docs: u64, doc_freq: u64| -> u32 {
            let (n, df) = (num_docs as f32, doc_freq as f32);
            ((n - df + 0.5) / (df + 0.5)).ln().max(0.0).to_bits()
        },
        bound: |weight: u32, top: u8, avg: u64| -> u32 {
            let (tf, avg_dl) = (top as f32, f64::from_bits(avg) as f32);
            let tf_norm = (tf * (k1 + 1.0)) / (tf + k1 * (1.0 - b + b * 1.0 / avg_dl));
            (f32::from_bits(weight) * tf_norm).to_bits()
        },
        part: |weight: u32, tf: u8, len: u32, avg: u64| -> u32 {
            let (tf, dl, avg_dl) = (tf as f32, len as f32, f64::from_bits(avg) as f32);
            let tf_norm = (tf * (k1 + 1.0)) / (tf + k1 * (1.0 - b + b * dl / avg_dl));
            (f32::from_bits(weight) * tf_norm).to_bits()
        },
        plus: |a: u32, b: u32| -> u32 { (f32::from_bits(a) + f32::from_bits(b)).to_bits() },
    };
    let seg = DiskSegment::open(files.bytes(0)).unwrap();
    assert!(is_searchable(&seg, terms));
    scorer
        .search(&seg, terms, k)
        .iter()
        .map(|d| Hit { doc_id: d.doc_id, score: f32::from_bits(d.score) })
        .collect()
}

/// Searches with the default parameters.
fn search_default(files: &SegmentFiles, terms: &[String], k: usize) -> Vec<Hit> {
    search(files, 1.2, 0.75, terms, k)
}

#[test]
fn empty_query_returns_empty() {
    let seg = make_segment(&[("http://a.com", &["hello", "world"])]);
    let results = search_default(&seg, &[], 10);
    assert!(results.is_empty());
}

#[test]
fn unknown_term_returns_empty() {
    let seg = make_segment(&[("http://a.com", &["hello", "world"])]);
    let results = search_default(&seg, &[String::from("zzznomatch")], 10);
    assert!(results.is_empty());
}

// N=4, df=1 → IDF = ln(3.5/1.5) ≈ 0.85 > 0
#[test]
fn single_term_hits_correct_doc() {
    let seg = make_segment(&[
        ("http://a.com", &["rust", "programming", "language"]),
        ("http://b.com", &["python", "scripting", "web"]),
        ("http://c.com", &["java", "enterprise", "spring"]),
        ("http://d.com", &["go", "concurrency", "channels"]),
    ]);
    let results = search_default(&seg, &[String::from("rust")], 10);
    assert_eq!(results.len(), 1);
    assert_eq!(results[0].doc_id, 0);
    assert!(results[0].score > 0.0);
}

// N=6, df=2 → IDF = ln(4.5/2.5) ≈ 0.59 > 0
#[test]
fn higher_tf_scores_higher() {
    let seg = make_segment(&[
        ("http://a.com", &["rust", "foo", "bar"]), // tf=1, dl=3
        ("http://b.com", &["rust", "rust", "rust"]), // tf=3, dl=3
        ("http://c.com", &["java", "spring", "boot"]),
        ("http://d.com", &["python", "django", "web"]),
        ("http://e.com", &["go", "grpc", "micro"]),
        ("http://f.com", &["cpp", "memory", "pointer"]),
    ]);
    let results = search_default(&seg, &[String::from("rust")], 10);
    assert_eq!(results.len(), 2);
    assert_eq!(results[0].doc_id, 1, "doc with tf=3 should rank first");
    assert!(results[0].score > results[1].score);
}

#[test]
fn top_k_truncates_results() {
    let urls: Vec<String> = (0..10).map(|i| format!("http://doc{}.com", i)).collect();
    let docs: Vec<(&str, &[&str])> = urls.iter().map(|u| (u.as_str(), &["common"][..])).collect();
    let seg = make_segment(&docs);

    let results = search_default(&seg, &[String::from("common")], 3);
    assert_eq!(results.len(), 3);
}

#[test]
fn results_sorted_descending() {
    // Mix of tf values so scores differ.
    let seg = make_segment(&[
        ("http://a.com", &["alpha", "beta", "alpha"]), // tf(alpha)=2
        ("http://b.com", &["alpha"]),                  // tf(alpha)=1
        ("http://c.com", &["alpha", "alpha", "alpha"]), // tf(alpha)=3
    ]);
    let results = search_default(&seg, &[String::from("alpha")], 10);
    assert_eq!(results.len(), 3);
    for w in results.windows(2) {
        assert!(
            w[0].score >= w[1].score,
            "scores out of order: {} < {}",
            w[0].score,
            w[1].score
        );
    }
}

// N=5, df(search)=2 → IDF=ln(1.4)>0; df(engine)=1 → IDF=ln(3)>0
#[test]
fn multi_term_both_matches_rank_higher() {
    let seg = make_segment(&[
        ("http://a.com", &["search", "engine", "fast"]),
        ("http://b.com", &["search", "tutorial", "guide"]),
        ("http://c.com", &["database", "storage", "btree"]),
        ("http://d.com", &["network", "protocol", "tcp"]),
        ("http://e.com", &["compiler", "parser", "ast"]),
    ]);
    let results = search_default(&seg, &[String::from("search"), String::from("engine")], 10);
    assert_eq!(results.len(), 2);
    assert_eq!(results[0].doc_id, 0, "doc with both terms should rank first");
    assert!(results[0].score > results[1].score);
}

#[test]
fn wand_results_match_naive_full_scan() {
    let seg = make_segment(&[
        ("http://a.com", &["index", "search", "query"]),
        ("http://b.com", &["search", "query", "result"]),
        ("http://c.com", &["index", "store", "disk"]),
        ("http://d.com", &["query", "planner", "cost"]),
        ("http://e.com", &["search", "index", "engine", "query"]),
    ]);

    let terms: Vec<String> = vec!["search".into(), "index".into(), "query".into()];

    // Normal search with WAND pruning active (k=3)
    let wand_results = search_default(&seg, &terms, 3);

    // Naive: ask for all 5 docs (k = num_docs) — WAND has nothing to prune
    let naive_results = search_default(&seg, &terms, 5);

    // The top-3 from naive must equal the top-3 from WAND (same order)
    assert_eq!(wand_results.len(), 3);
    for (wand, naive) in wand_results.iter().zip(naive_results.iter()) {
        assert_eq!(wand.doc_id, naive.doc_id, "WAND returned wrong doc");
        let diff = (wand.score - naive.score).abs();
        assert!(diff < 1e-5, "score mismatch: {} vs {}", wand.score, naive.score);
    }
}

// N=5, df(neural)=2 → IDF = ln(3.5/2.5) ≈ 0.34 > 0
#[test]
fn scores_are_positive() {
    let seg = make_segment(&[
        ("http://a.com", &["neural", "network", "training"]),
        ("http://b.com", &["neural", "architecture", "layers"]),
        ("http://c.com", &["symbolic", "ai", "logic"]),
        ("http://d.com", &["classical", "planning", "search"]),
        ("http://e.com", &["expert", "system", "rules"]),
    ]);
    let results = search_default(&seg, &[String::from("neural")], 10);
    for r in &results {
        assert!(r.score > 0.0, "doc {} has non-positive score {}", r.doc_id, r.score);
    }
}

#[test]
fn custom_k1_b_changes_scores_not_set() {
    let seg = make_segment(&[
        // dl=10 — long doc, penalised heavily by high b
        ("http://a.com", &["vector", "space", "model", "dim", "embed",
                           "norm", "dot", "cosine", "angle", "proj"]),
        // dl=2 — short doc, benefits from length normalisation
        ("http://b.com", &["vector", "index"]),
        ("http://c.com", &["scalar", "tensor", "matrix"]),
        ("http://d.com", &["graph", "traversal", "bfs"]),
        ("http://e.com", &["hash", "table", "collision"]),
    ]);

    let default_results = search(&seg, 1.2, 0.75, &[String::from("vector")], 10);
    let custom_results = search(&seg, 0.5, 0.3, &[String::from("vector")], 10); // softer length norm

    // Same set of documents returned (order may differ under ties — compare sorted)
    let mut default_ids: Vec<u32> = default_results.iter().map(|r| r.doc_id).collect();
    let mut custom_ids: Vec<u32> = custom_results.iter().map(|r| r.doc_id).collect();
    default_ids.sort();
    custom_ids.sort();
    assert_eq!(default_ids, custom_ids, "different document sets returned");

    // Scores must differ — b=0.75 penalises the long doc much more than b=0.3
    let scores_differ = default_results
        .iter()
        .zip(custom_results.iter())
        .any(|(d, c)| (d.score - c.score).abs() > 1e-6);
    assert!(scores_differ, "expected custom k1/b to produce different scores");
}

#[test]
fn an_exact_score() {
    let seg = make_segment(&[
        ("http://a.com", &["x", "y"]),
        ("http://b.com", &["y", "z"]),
        ("http://c.com", &["z", "w"]),
        ("http://d.com", &["v", "u"]),
    ]);
    let results = search_default(&seg, &[String::from("x")], 1);
    // The document is as long as the mean, so that the length does not count.
    let idf = (3.5f32 / 1.5).ln();
    assert!((results[0].score - idf).abs() < 1e-6);
}

/// Searches with whole numbers for scores: a term adds ten times its frequency, and the bound of a
/// term is `slack` more than ten times its greatest frequency.
fn search_whole(files: &SegmentFiles, terms: &[&str], k: usize, slack: u32) -> Vec<(u32, u32)> {
    let scorer = Bm25Scorer {
        weigh: |_num_docs: u64, _doc_freq: u64| -> u32 { 10 },
        bound: |weight: u32, top: u8, _avg: u64| -> u32 { weight * top as u32 + slack },
        part: |weight: u32, tf: u8, _len: u32, _avg: u64| -> u32 { weight * tf as u32 },
        plus: |a: u32, b: u32| -> u32 { a + b },
    };
    let seg = DiskSegment::open(files.bytes(0)).unwrap();
    let terms: Vec<String> = terms.iter().map(|s| s.to_string()).collect();
    assert!(is_searchable(&seg, &terms));
    let results: Vec<ScoredDoc> = scorer.search(&seg, &terms, k);
    results.iter().map(|d| (d.score, d.doc_id)).collect()
}

fn six_documents() -> SegmentFiles {
    make_segment(&[
        ("", &["a"]),
        ("", &["b"]),
        ("", &["a", "a", "b"]),
        ("", &["c"]),
        ("", &["a", "b", "b", "b"]),
        ("", &["a", "a"]),
    ])
}

#[test]
fn scores_add_up_over_terms() {
    let files = six_documents();
    assert_eq!(search_whole(&files, &["a"], 10, 0), vec![(20, 2), (20, 5), (10, 0), (10, 4)]);
    assert_eq!(
        search_whole(&files, &["b", "a", "nowhere"], 10, 0),
        vec![(40, 4), (30, 2), (20, 5), (10, 0), (10, 1)]
    );
    // A word that stands twice counts twice.
    assert_eq!(search_whole(&files, &["c", "c"], 10, 0), vec![(20, 3)]);
}

#[test]
fn the_best_are_kept() {
    let files = six_documents();
    assert_eq!(search_whole(&files, &["a", "b"], 1, 0), vec![(40, 4)]);
    assert_eq!(search_whole(&files, &["a", "b"], 2, 0), vec![(40, 4), (30, 2)]);
    assert_eq!(search_whole(&files, &["a", "b"], 3, 0), vec![(40, 4), (30, 2), (20, 5)]);
}

#[test]
fn looser_bounds_keep_the_same() {
    let files = six_documents();
    for k in 1..7 {
        let tight = search_whole(&files, &["a", "b"], k, 0);
        assert_eq!(search_whole(&files, &["a", "b"], k, 1000), tight);
    }
}

#[test]
fn bounds_that_do_not_hold_end_the_scan() {
    let files = make_segment(&[("", &["a"]), ("", &["a", "a"])]);
    let scorer = Bm25Scorer {
        weigh: |_n: u64, _df: u64| -> u32 { 10 },
        bound: |_w: u32, _top: u8, _avg: u64| -> u32 { 10 },
        part: |w: u32, tf: u8, _len: u32, _avg: u64| -> u32 { w * tf as u32 },
        plus: |a: u32, b: u32| -> u32 { a + b },
    };
    let seg = DiskSegment::open(files.bytes(0)).unwrap();
    let terms = vec!["a".to_string()];
    assert_eq!(scorer.search(&seg, &terms, 1), vec![ScoredDoc { doc_id: 0, score: 10 }]);
    assert_eq!(
        scorer.search(&seg, &terms, 2),
        vec![ScoredDoc { doc_id: 1, score: 20 }, ScoredDoc { doc_id: 0, score: 10 }]
    );
}

#[test]
fn among_equals_the_lowest_number_is_given_up() {
    let files = make_segment(&[("", &["a"]), ("", &["a"]), ("", &["a", "a"])]);
    assert_eq!(search_whole(&files, &["a"], 2, 0), vec![(20, 2), (10, 1)]);
}

#[test]
fn no_results_are_asked_for() {
    let files = six_documents();
    assert_eq!(search_whole(&files, &[], 0, 0), vec![]);
    assert_eq!(search_whole(&files, &["nowhere"], 0, 0), vec![]);
    assert_eq!(search_whole(&files, &["a"], 0, 0), vec![]);
    assert_eq!(search_whole(&files, &["a", "b"], 0, 0), vec![]);
    assert!(search_default(&files, &[String::from("c")], 0).is_empty());
}

#[test]
fn as_many_results_as_match() {
    let files = six_documents();
    for k in 0..8 {
        let results = search_whole(&files, &["a", "b"], k, 0);
        assert_eq!(results.len(), k.min(5));
        let mut docs: Vec<u32> = results.iter().map(|r| r.1).collect();
        docs.sort();
        docs.dedup();
        assert_eq!(docs.len(), results.len());
    }
}

#[test]
fn fewer_results_are_the_first_of_more() {
    let files = make_segment(&[
        ("", &["a", "b"]),
        ("", &["a"]),
        ("", &["a", "a", "a", "b"]),
        ("", &["a", "a", "b"]),
        ("", &["b", "b", "b", "b", "b"]),
    ]);
    let all = search_whole(&files, &["a", "b"], 5, 0);
    assert_eq!(all, vec![(50, 4), (40, 2), (30, 3), (20, 0), (10, 1)]);
    for k in 1..5 {
        assert_eq!(search_whole(&files, &["a", "b"], k, 0), all[..k].to_vec());
    }
}

#[test]
fn a_score_that_is_no_number_does_not_stop_a_search_for_one_word() {
    let files = make_segment(&[("", &["a"]), ("", &["b"]), ("", &["c"])]);
    let scorer = Bm25Scorer {
        weigh: |_n: u64, _df: u64| -> u32 { 0 },
        bound: |_w: u32, _top: u8, _avg: u64| -> u32 { f32::NAN.to_bits() },
        part: |_w: u32, _tf: u8, _len: u32, _avg: u64| -> u32 { f32::NAN.to_bits() },
        plus: |a: u32, b: u32| -> u32 { (f32::from_bits(a) + f32::from_bits(b)).to_bits() },
    };
    let seg = DiskSegment::open(files.bytes(0)).unwrap();
    let one = vec!["a".to_string()];
    let two = vec!["a".to_string(), "b".to_string()];
    assert!(scorer.is_numeric(&seg, &one, 3));
    assert!(!scorer.is_numeric(&seg, &two, 3));
    assert!(scorer.is_numeric(&seg, &two, 0));
    let results = scorer.search(&seg, &one, 3);
    assert_eq!(results.len(), 1);
    assert_eq!(results[0].doc_id, 0);
    assert!(f32::from_bits(results[0].score).is_nan());
}

#[test]
fn scores_of_several_documents_must_be_numbers() {
    let files = make_segment(&[("", &["a"]), ("", &["a"]), ("", &["b"])]);
    let scorer = Bm25Scorer {
        weigh: |_n: u64, _df: u64| -> u32 { 0 },
        bound: |_w: u32, _top: u8, _avg: u64| -> u32 { 0 },
        part: |_w: u32, _tf: u8, _len: u32, _avg: u64| -> u32 { f32::NAN.to_bits() },
        plus: |a: u32, b: u32| -> u32 { (f32::from_bits(a) + f32::from_bits(b)).to_bits() },
    };
    let seg = DiskSegment::open(files.bytes(0)).unwrap();
    assert!(!scorer.is_numeric(&seg, &["a".to_string()], 2));
    // A single document needs no sorting.
    assert!(scorer.is_numeric(&seg, &["a".to_string()], 1));
    assert!(scorer.is_numeric(&seg, &["b".to_string()], 2));
}

#[test]
fn room_for_all_that_match_is_enough() {
    let files = six_documents();
    assert_eq!(search_whole(&files, &["b"], 3, 0), search_whole(&files, &["b"], 100, 0));
    assert_eq!(search_whole(&files, &["b"], 3, 0).len(), 3);
}

#[test]
fn segments_that_cannot_be_searched_are_told() {
    let files = six_documents();
    let mut seg = DiskSegment::open(files.bytes(0)).unwrap();
    let terms = vec!["a".to_string()];
    assert!(is_searchable(&seg, &terms));
    seg.meta.num_docs = 5;
    assert!(!is_searchable(&seg, &terms));
    assert!(is_searchable(&seg, &["b".to_string()]));
    seg.meta.num_docs = 7;
    assert!(!is_searchable(&seg, &terms));
}
