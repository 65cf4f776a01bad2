use exom::graph::EdgeKind;
use exom::index::index_graph;
use exom::index::IndexError;
use exom::index::NoteSource;
use exom::links::extract_links;
use exom::paths::is_markdown_path;
use exom::paths::relative_note_id;

fn b(s: &str) -> Vec<u8> {
    s.as_bytes().to_vec()
}

fn note(path: &str, content: &str) -> NoteSource {
    NoteSource { path: b(path), content: b(content) }
}

#[test]
fn relative_note_id_joins_segments_with_slash() {
    let id = relative_note_id(b"/vault/10_Projects/plan.md", b"/vault");
    assert_eq!(id, Some(b("10_Projects/plan.md")));
    let outside = relative_note_id(b"/elsewhere/plan.md", b"/vault");
    assert_eq!(outside, None);
}

#[test]
fn markdown_extension_is_case_insensitive() {
    assert!(is_markdown_path(b"a/b/note.md"));
    assert!(is_markdown_path(b"a/b/NOTE.MD"));
    assert!(!is_markdown_path(b"a/b/note.txt"));
    assert!(!is_markdown_path(b"a/b/noext"));
}

#[test]
fn extract_links_strips_fragment_and_alias() {
    let links = extract_links(b"see [[Target Note]] then [[dir/other#part|shown]] end");
    assert_eq!(links, vec![b("Target Note"), b("dir/other")]);
}

#[test]
fn titles_come_from_first_heading_or_stem() {
    let notes = vec![
        note("/v/n/titled.md", "# A Real Title\nbody"),
        note("/v/n/untitled.md", "no heading here"),
    ];
    let graph = index_graph(b"/v".as_slice(), &notes).unwrap();
    let titled = graph.nodes.iter().find(|n| n.id == b("n/titled.md")).unwrap();
    assert_eq!(titled.title, b("A Real Title"));
    let untitled = graph.nodes.iter().find(|n| n.id == b("n/untitled.md")).unwrap();
    assert_eq!(untitled.title, b("untitled"));
}

#[test]
fn unresolved_link_creates_exactly_one_ghost_node_and_edge() {
    let notes = vec![note("/v/n/alpha.md", "# Alpha\nsee [[Missing Concept]]")];
    let graph = index_graph(b"/v".as_slice(), &notes).unwrap();
    let ghosts: Vec<_> = graph.nodes.iter().filter(|n| n.path.is_none()).collect();
    assert_eq!(ghosts.len(), 1);
    assert_eq!(ghosts[0].id, b("ghost/Missing Concept"));
    assert_eq!(ghosts[0].title, b("Missing Concept"));
    let unresolved: Vec<_> =
        graph.edges.iter().filter(|e| e.kind == EdgeKind::Unresolved).collect();
    assert_eq!(unresolved.len(), 1);
    assert_eq!(unresolved[0].src, b("n/alpha.md"));
    assert_eq!(unresolved[0].dst, b("ghost/Missing Concept"));
}

#[test]
fn repeated_unresolved_link_reuses_the_ghost_node() {
    let notes = vec![
        note("/v/n/alpha.md", "[[gone]]"),
        note("/v/n/beta.md", "[[gone]]"),
    ];
    let graph = index_graph(b"/v".as_slice(), &notes).unwrap();
    let ghosts: Vec<_> = graph.nodes.iter().filter(|n| n.path.is_none()).collect();
    assert_eq!(ghosts.len(), 1);
    assert_eq!(graph.edges.len(), 2);
}

#[test]
fn ambiguous_stem_fans_out_one_edge_per_candidate() {
    let notes = vec![
        note("/v/cat_a/shared.md", "# First\n"),
        note("/v/cat_b/shared.md", "# Second\n"),
        note("/v/cat_a/source.md", "points at [[shared]]"),
    ];
    let graph = index_graph(b"/v".as_slice(), &notes).unwrap();
    let wikilinks: Vec<_> = graph
        .edges
        .iter()
        .filter(|e| e.kind == EdgeKind::Wikilink && e.src == b("cat_a/source.md"))
        .collect();
    assert_eq!(wikilinks.len(), 2);
    let mut dsts: Vec<Vec<u8>> = wikilinks.iter().map(|e| e.dst.clone()).collect();
    dsts.sort();
    assert_eq!(dsts, vec![b("cat_a/shared.md"), b("cat_b/shared.md")]);
}

#[test]
fn reindexing_an_unchanged_corpus_is_identical() {
    let notes = vec![
        note("/v/n/alpha.md", "# Alpha\nsee [[beta]] and [[missing]]"),
        note("/v/n/beta.md", "# Beta\nterms terms terms"),
    ];
    let g1 = index_graph(b"/v".as_slice(), &notes).unwrap();
    let g2 = index_graph(b"/v".as_slice(), &notes).unwrap();
    assert!(g1.nodes == g2.nodes);
    assert!(g1.edges == g2.edges);
    assert_eq!(g1.stats, g2.stats);
    assert_eq!(g1.notes_root, g2.notes_root);
}

#[test]
fn nodes_are_sorted_by_id_and_stats_count_ghosts() {
    let notes = vec![
        note("/v/n/zed.md", "[[lost]]"),
        note("/v/n/abc.md", "# Abc\n"),
    ];
    let graph = index_graph(b"/v".as_slice(), &notes).unwrap();
    assert_eq!(graph.stats.notes, 2);
    assert_eq!(graph.stats.nodes, 3);
    assert_eq!(graph.stats.edges, 1);
    for w in graph.nodes.windows(2) {
        assert!(w[0].id < w[1].id);
    }
}

#[test]
fn note_outside_root_fails_indexing() {
    let notes = vec![note("/elsewhere/alpha.md", "# Alpha\n")];
    let r = index_graph(b"/v".as_slice(), &notes);
    assert!(matches!(r, Err(IndexError::OutsideRoot)));
}

#[test]
fn term_weights_scale_with_rarity() {
    let notes = vec![
        note("/v/n/a.md", "# A\ncommon rare"),
        note("/v/n/b.md", "# B\ncommon"),
        note("/v/n/c.md", "# C\ncommon"),
    ];
    let graph = index_graph(b"/v".as_slice(), &notes).unwrap();
    let a = graph.nodes.iter().find(|n| n.id == b("n/a.md")).unwrap();
    let common = a.semantic.iter().find(|e| e.0 == b("common")).unwrap().1;
    let rare = a.semantic.iter().find(|e| e.0 == b("rare")).unwrap().1;
    assert!(rare > common);
    // every term occurs once in the note, and idf is at least 1.0
    assert!(common >= 1000);
}
