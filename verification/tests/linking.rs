use exom::index::index_graph;
use exom::index::NoteSource;
use exom::links::extract_links;
use exom::recall::recall_from_graph;
use exom::recall::RecallWeights;

fn b(s: &str) -> Vec<u8> {
    s.as_bytes().to_vec()
}

fn note(path: &str, content: &str) -> NoteSource {
    NoteSource { path: b(path), content: b(content) }
}

#[test]
fn link_targets_are_trimmed_but_inner_spacing_is_kept() {
    let links = extract_links(b"[[  Spaced  Name  ]]");
    assert_eq!(links, vec![b("Spaced  Name")]);
}

#[test]
fn empty_fragment_or_alias_is_no_link() {
    assert!(extract_links(b"[[a#]]").is_empty());
    assert!(extract_links(b"[[a|]]").is_empty());
    assert!(extract_links(b"[[]]").is_empty());
    assert_eq!(extract_links(b"[[a#x|y]]"), vec![b("a")]);
}

#[test]
fn links_do_not_overlap() {
    let links = extract_links(b"[[one]][[two]] and [[three]]");
    assert_eq!(links, vec![b("one"), b("two"), b("three")]);
}

#[test]
fn ghost_identity_preserves_case_and_spacing() {
    // two differently-spelled references become two distinct ghost nodes
    let notes = vec![note("/v/n/a.md", "[[Foo Bar]] and [[foo bar]]")];
    let graph = index_graph(b"/v".as_slice(), &notes).unwrap();
    let ghosts: Vec<_> = graph.nodes.iter().filter(|n| n.path.is_none()).collect();
    assert_eq!(ghosts.len(), 2);
}

#[test]
fn resolution_ignores_directories_and_case_in_targets() {
    let notes = vec![
        note("/v/n/Topic.md", "# Topic\n"),
        note("/v/n/src.md", "[[somewhere/TOPIC]]"),
    ];
    let graph = index_graph(b"/v".as_slice(), &notes).unwrap();
    assert_eq!(graph.stats.nodes, 2);
    assert_eq!(graph.edges.len(), 1);
    assert_eq!(graph.edges[0].dst, b("n/Topic.md"));
}

#[test]
fn carriage_returns_do_not_break_headings() {
    let notes = vec![note("/v/n/a.md", "# Windows Title\r\nbody\r\n")];
    let graph = index_graph(b"/v".as_slice(), &notes).unwrap();
    assert_eq!(graph.nodes[0].title, b("Windows Title"));
}

#[test]
fn topk_zero_answers_nothing() {
    let notes = vec![note("/v/n/a.md", "# Alpha\nhello")];
    let graph = index_graph(b"/v".as_slice(), &notes).unwrap();
    let weights = RecallWeights { lexical: 1000, graph: 1000, semantic: 1000 };
    let rows = recall_from_graph(&graph, b"hello", 0, &weights);
    assert!(rows.is_empty());
}
