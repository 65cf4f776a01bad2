use exom::bench::run_benchmark;
use exom::bench::BenchmarkQuery;
use exom::index::index_graph;
use exom::index::NoteSource;

fn b(s: &str) -> Vec<u8> {
    s.as_bytes().to_vec()
}

fn note(path: &str, content: &str) -> NoteSource {
    NoteSource { path: b(path), content: b(content) }
}

fn sample_graph() -> exom::graph::GraphData {
    let notes = vec![
        note("/v/n/alpha.md", "# Alpha\nall about alpha waves"),
        note("/v/n/beta.md", "# Beta\nbeta rays and [[alpha]]"),
        note("/v/n/gamma.md", "# Gamma\nsomething else entirely"),
    ];
    index_graph(b"/v".as_slice(), &notes).unwrap()
}

#[test]
fn empty_dataset_gives_zero_everywhere() {
    let graph = sample_graph();
    let report = run_benchmark(&graph, &Vec::new(), 5);
    assert_eq!(report.hit_at_1, 0);
    assert_eq!(report.hit_at_3, 0);
    assert_eq!(report.hit_at_5, 0);
    assert_eq!(report.total, 0);
    assert!(report.queries.is_empty());
}

#[test]
fn hit_counts_are_monotonic_across_thresholds() {
    let graph = sample_graph();
    let dataset = vec![
        BenchmarkQuery { query: b("alpha waves"), expected: vec![b("n/alpha.md")] },
        BenchmarkQuery { query: b("beta rays"), expected: vec![b("n/beta.md")] },
        BenchmarkQuery { query: b("no such topic anywhere"), expected: vec![b("n/gamma.md")] },
    ];
    let report = run_benchmark(&graph, &dataset, 5);
    assert_eq!(report.total, 3);
    assert!(report.hit_at_1 <= report.hit_at_3);
    assert!(report.hit_at_3 <= report.hit_at_5);
    assert!(report.hit_at_5 <= report.total);
}

#[test]
fn a_top_ranked_answer_counts_at_every_threshold() {
    let graph = sample_graph();
    let dataset = vec![BenchmarkQuery {
        query: b("alpha waves"),
        expected: vec![b("n/alpha.md")],
    }];
    let report = run_benchmark(&graph, &dataset, 5);
    assert_eq!(report.hit_at_1, 1);
    assert_eq!(report.hit_at_3, 1);
    assert_eq!(report.hit_at_5, 1);
    assert_eq!(report.queries.len(), 1);
    assert_eq!(report.queries[0].hit_rank, Some(1));
    assert_eq!(report.queries[0].hit_path, Some(b("n/alpha.md")));
}

#[test]
fn a_miss_records_no_rank() {
    // gamma has no incoming links and shares no term with the query, so it
    // is never ranked and the expected answer cannot be hit
    let graph = sample_graph();
    let dataset = vec![BenchmarkQuery {
        query: b("unrelated nonsense words"),
        expected: vec![b("n/gamma.md")],
    }];
    let report = run_benchmark(&graph, &dataset, 5);
    assert_eq!(report.hit_at_5, 0);
    assert_eq!(report.queries[0].hit_rank, None);
    assert_eq!(report.queries[0].hit_path, None);
}
