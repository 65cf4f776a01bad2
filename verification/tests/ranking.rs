use exom::index::index_graph;
use exom::index::NoteSource;
use exom::recall::graph_influence;
use exom::recall::lexical_overlap_score;
use exom::recall::recall_from_graph;
use exom::recall::semantic_score;
use exom::recall::RecallWeights;
use exom::text::token_counts;
use exom::text::tokens;

fn b(s: &str) -> Vec<u8> {
    s.as_bytes().to_vec()
}

fn note(path: &str, content: &str) -> NoteSource {
    NoteSource { path: b(path), content: b(content) }
}

#[test]
fn lexical_overlap_zero_when_no_shared_tokens() {
    let query = tokens(b"alpha beta");
    let score = lexical_overlap_score(&query, b"gamma delta");
    assert_eq!(score, 0);
}

#[test]
fn lexical_overlap_counts_two_per_shared_token() {
    let query = tokens(b"alpha beta");
    let score = lexical_overlap_score(&query, b"beta gamma alpha alpha");
    assert_eq!(score, 4000);
}

#[test]
fn graph_influence_caps_at_ten() {
    assert_eq!(graph_influence(5), 500);
    assert_eq!(graph_influence(20), 1000);
}

#[test]
fn semantic_score_considers_weights() {
    let vector = vec![(b("foo"), 2500u64), (b("bar"), 1000u64)];
    let query_counts = token_counts(b"foo foo baz");
    let score = semantic_score(&query_counts, &vector);
    assert_eq!(score, 5000);
}

#[test]
fn recall_rows_have_positive_scores_and_contiguous_ranks() {
    let notes = vec![
        note("/v/n/alpha.md", "# Alpha\nlinks to [[beta]] twice [[beta]]"),
        note("/v/n/beta.md", "# Beta\nplain text about graphs"),
        note("/v/n/gamma.md", "# Gamma\nnothing related"),
    ];
    let graph = index_graph(b"/v".as_slice(), &notes).unwrap();
    let weights = RecallWeights { lexical: 1000, graph: 1000, semantic: 1000 };
    let rows = recall_from_graph(&graph, b"beta graphs", 2, &weights);
    assert!(rows.len() <= 2);
    assert!(!rows.is_empty());
    for (i, row) in rows.iter().enumerate() {
        assert!(row.score > 0);
        assert_eq!(row.rank, i + 1);
    }
}

#[test]
fn recall_excludes_nodes_without_any_signal() {
    let notes = vec![
        note("/v/n/alpha.md", "# Alpha\nhello"),
        note("/v/n/beta.md", "# Beta\nunrelated"),
    ];
    let graph = index_graph(b"/v".as_slice(), &notes).unwrap();
    let weights = RecallWeights { lexical: 1000, graph: 1000, semantic: 1000 };
    let rows = recall_from_graph(&graph, b"hello", 10, &weights);
    assert_eq!(rows.len(), 1);
    assert_eq!(rows[0].title, b("Alpha"));
}

#[test]
fn recall_breaks_score_ties_by_ascending_id() {
    let notes = vec![
        note("/v/n/b.md", "# zeta\n"),
        note("/v/n/a.md", "# zeta\n"),
    ];
    let graph = index_graph(b"/v".as_slice(), &notes).unwrap();
    let weights = RecallWeights { lexical: 1000, graph: 0, semantic: 0 };
    let rows = recall_from_graph(&graph, b"zeta", 10, &weights);
    assert_eq!(rows.len(), 2);
    assert_eq!(rows[0].path, Some(b("n/a.md")));
    assert_eq!(rows[1].path, Some(b("n/b.md")));
}

#[test]
fn recall_orders_by_descending_score() {
    let notes = vec![
        note("/v/n/one.md", "# topic\ntopic topic topic"),
        note("/v/n/two.md", "# other\ntopic"),
    ];
    let graph = index_graph(b"/v".as_slice(), &notes).unwrap();
    let weights = RecallWeights { lexical: 1000, graph: 1000, semantic: 1000 };
    let rows = recall_from_graph(&graph, b"topic", 10, &weights);
    assert_eq!(rows.len(), 2);
    assert!(rows[0].score >= rows[1].score);
    assert_eq!(rows[0].path, Some(b("n/one.md")));
}
