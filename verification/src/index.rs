//! Graph indexing: a full rebuild from note paths and contents.
//!
//! The pipeline derives each note's identity, title and stem, registers one
//! node per note, resolves cross-references into edges (creating ghost nodes
//! for unresolved targets), and computes every note's term-weight vector
//! from corpus-wide document frequencies in a second pass over the gathered
//! counts.
use vstd::prelude::*;

use crate::bytes::append_bytes;
use crate::bytes::copy_bytes;
use crate::bytes::lemma_bytes_deep_view;
use crate::graph::Edge;
use crate::graph::EdgeKind;
use crate::graph::EdgeView;
use crate::graph::GraphData;
use crate::graph::GraphView;
use crate::graph::Node;
use crate::graph::NodeView;
use crate::graph::Stats;
use crate::graph::reg_keep;
use crate::graph::reg_upsert;
use crate::graph::upsert_node;
use crate::graph::keep_node;
use crate::links::extract_links;
use crate::links::link_key;
use crate::links::lower_ascii;
use crate::links::run_stop;
use crate::links::spec_links;
use crate::links::trim;
use crate::links::trim_bytes;
use crate::paths::file_stem_of;
use crate::paths::relative_note_id;
use crate::paths::spec_file_stem;
use crate::paths::spec_note_id;
use crate::text::has_key;
use crate::text::key_at;
use crate::text::key_index;
use crate::text::term_counts;
use crate::weights::sat_mul64;
use crate::weights::spec_idf_milli;

verus! {

/// A note handed to the indexer: its path and its raw content (unreadable
/// notes are handed in as empty content).
pub struct NoteSource {
    pub path: Vec<u8>,
    pub content: Vec<u8>,
}

/// The mathematical shadow of a `NoteSource`.
pub ghost struct NoteSourceView {
    pub path: Seq<u8>,
    pub content: Seq<u8>,
}

impl DeepView for NoteSource {
    type V = NoteSourceView;

    open spec fn deep_view(&self) -> NoteSourceView {
        NoteSourceView { path: self.path@, content: self.content@ }
    }
}

/// A note prepared for indexing: identity, title, stem and content.
pub struct EntryData {
    pub id: Vec<u8>,
    pub title: Vec<u8>,
    pub stem: Vec<u8>,
    pub content: Vec<u8>,
}

/// The mathematical shadow of an `EntryData`.
pub ghost struct EntryView {
    pub id: Seq<u8>,
    pub title: Seq<u8>,
    pub stem: Seq<u8>,
    pub content: Seq<u8>,
}

impl DeepView for EntryData {
    type V = EntryView;

    open spec fn deep_view(&self) -> EntryView {
        EntryView { id: self.id@, title: self.title@, stem: self.stem@, content: self.content@ }
    }
}

/// Indexing fails only when a note path does not lie under the notes root.
#[derive(Clone, Copy, PartialEq, Eq, Structural, Debug)]
pub enum IndexError {
    OutsideRoot,
}

/// One content line, scanned for boundaries at `\n`, a trailing `\r`
/// stripped.
pub open spec fn strip_cr(line: Seq<u8>) -> Seq<u8> {
    if line.len() > 0 && line.last() == 13 {
        line.drop_last()
    } else {
        line
    }
}

/// Bytes other than the line feed.
pub open spec fn not_nl() -> spec_fn(u8) -> bool {
    |b: u8| b != 10
}

/// The first line at or after `i` that begins with `# `, trimmed of the
/// marker and surrounding ASCII whitespace.
pub open spec fn heading_from(s: Seq<u8>, i: int) -> Option<Seq<u8>>
    decreases s.len() - i,
{
    if i < 0 || i >= s.len() {
        None
    } else {
        let e = run_stop(s, i, not_nl());
        let line = strip_cr(s.subrange(i, e));
        if line.len() >= 2 && line[0] == 35 && line[1] == 32 {
            Some(trim_bytes(line.skip(2)))
        } else {
            heading_from(
                s,
                if e >= s.len() {
                    s.len() as int
                } else if e + 1 > i + 1 {
                    e + 1
                } else {
                    i + 1
                },
            )
        }
    }
}

/// The title of a note: its first heading line, else the filename stem,
/// else the whole path.
pub open spec fn spec_title(content: Seq<u8>, path: Seq<u8>) -> Seq<u8> {
    match heading_from(content, 0) {
        Some(t) => t,
        None => match spec_file_stem(path) {
            Some(st) => st,
            None => path,
        },
    }
}

/// The note prepared for indexing, `None` when its path is not under the
/// root.
pub open spec fn entry_of(root: Seq<u8>, n: NoteSourceView) -> Option<EntryView> {
    match spec_note_id(n.path, root) {
        Some(id) => Some(
            EntryView {
                id: id,
                title: spec_title(n.content, n.path),
                stem: match spec_file_stem(n.path) {
                    Some(st) => st,
                    None => Seq::empty(),
                },
                content: n.content,
            },
        ),
        None => None,
    }
}

/// All notes prepared, `None` as soon as one fails.
pub open spec fn entries_of(root: Seq<u8>, notes: Seq<NoteSourceView>) -> Option<Seq<EntryView>>
    decreases notes.len(),
{
    if notes.len() == 0 {
        Some(Seq::empty())
    } else {
        match entries_of(root, notes.drop_last()) {
            Some(es) => match entry_of(root, notes.last()) {
                Some(e) => Some(es.push(e)),
                None => None,
            },
            None => None,
        }
    }
}

/// Scans `content` for its first heading line.
#[verifier::loop_isolation(false)]
fn find_heading(content: &[u8]) -> (r: Option<Vec<u8>>)
    ensures
        r.deep_view() == heading_from(content@, 0),
{
    let mut i: usize = 0;
    while i < content.len()
        invariant
            i <= content@.len(),
            heading_from(content@, 0) == heading_from(content@, i as int),
        decreases content@.len() - i,
    {
        let mut e: usize = i;
        while e < content.len() && content[e] != 10
            invariant
                i <= e <= content@.len(),
                run_stop(content@, i as int, not_nl()) == run_stop(content@, e as int, not_nl()),
            decreases content@.len() - e,
        {
            e += 1;
        }
        proof {
            assert(run_stop(content@, i as int, not_nl()) == e as int);
        }
        let mut z: usize = e;
        if z > i && content[z - 1] == 13 {
            z = z - 1;
        }
        proof {
            assert(content@.subrange(i as int, z as int) =~= strip_cr(
                content@.subrange(i as int, e as int),
            ));
        }
        if z - i >= 2 && content[i] == 35 && content[i + 1] == 32 {
            let rest = copy_bytes(&content[i + 2..z]);
            proof {
                let line = strip_cr(content@.subrange(i as int, e as int));
                assert(rest@ =~= line.skip(2));
            }
            let t = trim(rest.as_slice());
            proof {
                lemma_bytes_deep_view(t);
            }
            return Some(t);
        }
        proof {
            let line = strip_cr(content@.subrange(i as int, e as int));
            assert(!(line.len() >= 2 && line[0] == 35 && line[1] == 32));
        }
        if e == content.len() {
            proof {
                assert(heading_from(content@, i as int) == heading_from(content@, e as int));
            }
            return None;
        }
        i = e + 1;
    }
    None
}

/// Derives the title of a note: first heading, else stem, else path.
pub fn title_of(content: &[u8], path: &[u8]) -> (r: Vec<u8>)
    ensures
        r@ == spec_title(content@, path@),
{
    match find_heading(content) {
        Some(t) => t,
        None => {
            match file_stem_of(path) {
                Some(st) => {
                    proof {
                        lemma_bytes_deep_view(st);
                    }
                    st
                },
                None => copy_bytes(path),
            }
        },
    }
}

/// Prepares every note: identity under the root, title and stem.
#[verifier::loop_isolation(false)]
pub fn build_entries(notes_root: &[u8], notes: &Vec<NoteSource>) -> (r: Result<
    Vec<EntryData>,
    IndexError,
>)
    ensures
        match r {
            Ok(es) => entries_of(notes_root@, notes.deep_view()) == Some(es.deep_view()),
            Err(e) => entries_of(notes_root@, notes.deep_view()) is None,
        },
{
    let mut es: Vec<EntryData> = Vec::new();
    let mut i: usize = 0;
    proof {
        assert(notes.deep_view().take(0) =~= Seq::<NoteSourceView>::empty());
    }
    while i < notes.len()
        invariant
            i <= notes@.len(),
            entries_of(notes_root@, notes.deep_view().take(i as int)) == Some(es.deep_view()),
        decreases notes@.len() - i,
    {
        let id_opt = relative_note_id(notes[i].path.as_slice(), notes_root);
        proof {
            assert(notes.deep_view()[i as int] == notes@[i as int].deep_view());
        }
        match id_opt {
            None => {
                proof {
                    let t1 = notes.deep_view().take(i as int + 1);
                    assert(t1.drop_last() =~= notes.deep_view().take(i as int));
                    assert(t1.last() == notes.deep_view()[i as int]);
                    assert(entries_of(notes_root@, t1) is None);
                    lemma_entries_prefix_none(notes_root@, notes.deep_view(), i as int + 1);
                }
                return Err(IndexError::OutsideRoot);
            },
            Some(id) => {
                proof {
                    lemma_bytes_deep_view(id);
                }
                let title = title_of(notes[i].content.as_slice(), notes[i].path.as_slice());
                let stem = match file_stem_of(notes[i].path.as_slice()) {
                    Some(st) => st,
                    None => Vec::new(),
                };
                proof {
                    lemma_bytes_deep_view(title);
                    lemma_bytes_deep_view(stem);
                }
                let content = copy_bytes(notes[i].content.as_slice());
                let ghost old_es = es.deep_view();
                es.push(EntryData { id, title, stem, content });
                proof {
                    let t1 = notes.deep_view().take(i as int + 1);
                    assert(t1.drop_last() =~= notes.deep_view().take(i as int));
                    assert(t1.last() == notes.deep_view()[i as int]);
                    assert(es.deep_view() =~= old_es.push(
                        entry_of(notes_root@, notes.deep_view()[i as int]).unwrap(),
                    ));
                }
            },
        }
        i += 1;
    }
    proof {
        assert(notes.deep_view().take(notes@.len() as int) =~= notes.deep_view());
    }
    Ok(es)
}


/// The node standing for a real note.
pub open spec fn base_node(e: EntryView, semantic: Seq<(Seq<u8>, u64)>) -> NodeView {
    NodeView { id: e.id, path: Some(e.id), title: e.title, stem: e.stem, semantic: semantic }
}

/// The registry after registering one node per note, in order; a repeated
/// id keeps the later note.
pub open spec fn base_fold(es: Seq<EntryView>) -> Seq<NodeView>
    decreases es.len(),
{
    if es.len() == 0 {
        Seq::empty()
    } else {
        reg_upsert(base_fold(es.drop_last()), base_node(es.last(), Seq::empty()))
    }
}

/// One note recorded in the stem index: its id appended under its lowercase
/// stem.
pub open spec fn stem_add(
    acc: Seq<(Seq<u8>, Seq<Seq<u8>>)>,
    stem_l: Seq<u8>,
    id: Seq<u8>,
) -> Seq<(Seq<u8>, Seq<Seq<u8>>)> {
    if has_key(acc, stem_l) {
        let j = key_index(acc, stem_l);
        acc.update(j, (stem_l, acc[j].1.push(id)))
    } else {
        acc.push((stem_l, seq![id]))
    }
}

/// The stem index: lowercase stem to the ids sharing it, ids in note order.
pub open spec fn stem_fold(es: Seq<EntryView>) -> Seq<(Seq<u8>, Seq<Seq<u8>>)>
    decreases es.len(),
{
    if es.len() == 0 {
        Seq::empty()
    } else {
        stem_add(stem_fold(es.drop_last()), lower_ascii(es.last().stem), es.last().id)
    }
}

/// The id prefix of ghost nodes: `ghost/`.
pub open spec fn ghost_prefix() -> Seq<u8> {
    seq![103u8, 104u8, 111u8, 115u8, 116u8, 47u8]
}

/// The placeholder node for an unresolved raw target.
pub open spec fn ghost_node(raw: Seq<u8>) -> NodeView {
    NodeView {
        id: ghost_prefix() + raw,
        path: None,
        title: raw,
        stem: raw,
        semantic: Seq::empty(),
    }
}

/// One link resolved: on a stem hit, one WIKILINK edge per candidate id in
/// index order; otherwise a ghost node (reused when present) and one
/// UNRESOLVED edge to it.
pub open spec fn resolve_link(
    nodes: Seq<NodeView>,
    edges: Seq<EdgeView>,
    stems: Seq<(Seq<u8>, Seq<Seq<u8>>)>,
    src: Seq<u8>,
    raw: Seq<u8>,
) -> (Seq<NodeView>, Seq<EdgeView>) {
    let key = link_key(raw);
    if has_key(stems, key) {
        let ids = stems[key_index(stems, key)].1;
        (
            nodes,
            edges + Seq::new(
                ids.len(),
                |m: int| EdgeView { src: src, dst: ids[m], kind: EdgeKind::Wikilink },
            ),
        )
    } else {
        (
            reg_keep(nodes, ghost_node(raw)),
            edges.push(EdgeView { src: src, dst: ghost_prefix() + raw, kind: EdgeKind::Unresolved }),
        )
    }
}

/// All links of one note resolved, left to right.
pub open spec fn link_fold(
    nodes: Seq<NodeView>,
    edges: Seq<EdgeView>,
    stems: Seq<(Seq<u8>, Seq<Seq<u8>>)>,
    src: Seq<u8>,
    raws: Seq<Seq<u8>>,
) -> (Seq<NodeView>, Seq<EdgeView>)
    decreases raws.len(),
{
    if raws.len() == 0 {
        (nodes, edges)
    } else {
        let st = link_fold(nodes, edges, stems, src, raws.drop_last());
        resolve_link(st.0, st.1, stems, src, raws.last())
    }
}

/// The links of every note resolved, notes in order.
pub open spec fn edges_fold(
    nodes: Seq<NodeView>,
    edges: Seq<EdgeView>,
    stems: Seq<(Seq<u8>, Seq<Seq<u8>>)>,
    es: Seq<EntryView>,
) -> (Seq<NodeView>, Seq<EdgeView>)
    decreases es.len(),
{
    if es.len() == 0 {
        (nodes, edges)
    } else {
        let st = edges_fold(nodes, edges, stems, es.drop_last());
        link_fold(st.0, st.1, stems, es.last().id, spec_links(es.last().content))
    }
}

/// The text a note is weighted by: title, one space, body.
pub open spec fn entry_text(e: EntryView) -> Seq<u8> {
    e.title + seq![32u8] + e.content
}

/// The term counts of every note's text, in note order.
pub open spec fn all_counts(es: Seq<EntryView>) -> Seq<Seq<(Seq<u8>, usize)>> {
    Seq::new(es.len(), |i: int| term_counts(entry_text(es[i])))
}

/// The document frequency of a term: how many notes hold it.
pub open spec fn df_fold(counts: Seq<Seq<(Seq<u8>, usize)>>, t: Seq<u8>) -> int
    decreases counts.len(),
{
    if counts.len() == 0 {
        0
    } else {
        df_fold(counts.drop_last(), t) + if has_key(counts.last(), t) {
            1int
        } else {
            0int
        }
    }
}

/// The milli term weights of one note: each term count times the corpus
/// inverse document frequency of the term.
pub open spec fn weights_of(
    counts: Seq<(Seq<u8>, usize)>,
    all: Seq<Seq<(Seq<u8>, usize)>>,
    n: int,
) -> Seq<(Seq<u8>, u64)> {
    Seq::new(
        counts.len(),
        |m: int|
            (
                counts[m].0,
                sat_mul64(
                    counts[m].1 as u64,
                    spec_idf_milli(df_fold(all, counts[m].0), n) as u64,
                ),
            ),
    )
}

/// Every note's weight vector attached to its node, notes in order.
pub open spec fn weights_fold(
    nodes: Seq<NodeView>,
    es: Seq<EntryView>,
    all: Seq<Seq<(Seq<u8>, usize)>>,
    n: int,
) -> Seq<NodeView>
    decreases es.len(),
{
    if es.len() == 0 {
        nodes
    } else {
        let prev = weights_fold(nodes, es.drop_last(), all, n);
        let e = es.last();
        reg_upsert(prev, base_node(e, weights_of(term_counts(entry_text(e)), all, n)))
    }
}

/// The whole index run: entries, nodes, stem index, edges with ghosts, and
/// term weights, combined into one graph. `None` exactly when some note
/// path is not under the root.
pub open spec fn spec_index(root: Seq<u8>, notes: Seq<NoteSourceView>) -> Option<GraphView> {
    match entries_of(root, notes) {
        None => None,
        Some(es) => {
            let reg0 = base_fold(es);
            let stems = stem_fold(es);
            let st = edges_fold(reg0, Seq::empty(), stems, es);
            let all = all_counts(es);
            let n = if es.len() == 0 {
                1int
            } else {
                es.len() as int
            };
            let nodes = weights_fold(st.0, es, all, n);
            Some(
                GraphView {
                    notes_root: root,
                    nodes: nodes,
                    edges: st.1,
                    stats: Stats {
                        notes: notes.len() as usize,
                        nodes: nodes.len() as usize,
                        edges: st.1.len() as usize,
                    },
                },
            )
        },
    }
}

/// Registers one node per note.
#[verifier::loop_isolation(false)]
fn base_nodes(es: &Vec<EntryData>) -> (r: Vec<Node>)
    ensures
        r.deep_view() == base_fold(es.deep_view()),
{
    let mut nodes: Vec<Node> = Vec::new();
    let mut i: usize = 0;
    proof {
        assert(es.deep_view().take(0) =~= Seq::<EntryView>::empty());
    }
    while i < es.len()
        invariant
            i <= es@.len(),
            nodes.deep_view() == base_fold(es.deep_view().take(i as int)),
        decreases es@.len() - i,
    {
        let id = copy_bytes(es[i].id.as_slice());
        let path = copy_bytes(es[i].id.as_slice());
        let title = copy_bytes(es[i].title.as_slice());
        let stem = copy_bytes(es[i].stem.as_slice());
        let node = Node { id, path: Some(path), title, stem, semantic: Vec::new() };
        proof {
            assert(node.deep_view().semantic =~= Seq::<(Seq<u8>, u64)>::empty());
            assert(node.deep_view() == base_node(es.deep_view()[i as int], Seq::empty()));
        }
        upsert_node(&mut nodes, node);
        proof {
            let t1 = es.deep_view().take(i as int + 1);
            assert(t1.drop_last() =~= es.deep_view().take(i as int));
            assert(t1.last() == es.deep_view()[i as int]);
        }
        i += 1;
    }
    proof {
        assert(es.deep_view().take(es@.len() as int) =~= es.deep_view());
    }
    nodes
}

/// Copies a list of byte strings.
fn copy_byte_vecs(v: &Vec<Vec<u8>>) -> (r: Vec<Vec<u8>>)
    ensures
        r.deep_view() == v.deep_view(),
{
    let mut r: Vec<Vec<u8>> = Vec::new();
    let mut i: usize = 0;
    while i < v.len()
        invariant
            i <= v@.len(),
            r.deep_view() =~= v.deep_view().take(i as int),
        decreases v@.len() - i,
    {
        let ghost old_r = r.deep_view();
        let c = copy_bytes(v[i].as_slice());
        proof {
            lemma_bytes_deep_view(c);
            lemma_bytes_deep_view(v@[i as int]);
        }
        r.push(c);
        proof {
            assert(r.deep_view() =~= old_r.push(v.deep_view()[i as int]));
            assert(r.deep_view() =~= v.deep_view().take(i as int + 1));
        }
        i += 1;
    }
    proof {
        assert(v.deep_view().take(v@.len() as int) =~= v.deep_view());
    }
    r
}

/// Builds the stem index over all notes.
#[verifier::loop_isolation(false)]
fn build_stems(es: &Vec<EntryData>) -> (r: Vec<(Vec<u8>, Vec<Vec<u8>>)>)
    ensures
        r.deep_view() == stem_fold(es.deep_view()),
{
    let mut r: Vec<(Vec<u8>, Vec<Vec<u8>>)> = Vec::new();
    let mut i: usize = 0;
    proof {
        assert(es.deep_view().take(0) =~= Seq::<EntryView>::empty());
    }
    while i < es.len()
        invariant
            i <= es@.len(),
            r.deep_view() == stem_fold(es.deep_view().take(i as int)),
        decreases es@.len() - i,
    {
        let ghost pre = r.deep_view();
        let key = crate::links::lower_ascii_vec(es[i].stem.as_slice());
        let id = copy_bytes(es[i].id.as_slice());
        let ghost idv = id@;
        let ghost keyv = key@;
        proof {
            lemma_bytes_deep_view(key);
            lemma_bytes_deep_view(id);
            assert(key@ == lower_ascii(es.deep_view()[i as int].stem));
        }
        match find_stem(&r, key.as_slice()) {
            Some(j) => {
                proof {
                    crate::text::lemma_key_at_unique(pre, keyv, j as int);
                }
                let mut ids = copy_byte_vecs(&r[j].1);
                ids.push(id);
                proof {
                    assert(ids.deep_view() =~= pre[j as int].1.push(idv));
                }
                r.set(j, (key, ids));
                proof {
                    assert(r.deep_view() =~= stem_add(pre, keyv, idv));
                }
            },
            None => {
                let mut ids: Vec<Vec<u8>> = Vec::new();
                ids.push(id);
                proof {
                    assert(ids.deep_view() =~= seq![idv]);
                }
                r.push((key, ids));
                proof {
                    assert(r.deep_view() =~= stem_add(pre, keyv, idv));
                }
            },
        }
        proof {
            let t1 = es.deep_view().take(i as int + 1);
            assert(t1.drop_last() =~= es.deep_view().take(i as int));
            assert(t1.last() == es.deep_view()[i as int]);
            assert(idv == es.deep_view()[i as int].id);
        }
        i += 1;
    }
    proof {
        assert(es.deep_view().take(es@.len() as int) =~= es.deep_view());
    }
    r
}

/// The stem-index entry for `k`, if any.
fn find_stem(r: &Vec<(Vec<u8>, Vec<Vec<u8>>)>, k: &[u8]) -> (res: Option<usize>)
    ensures
        match res {
            Some(j) => j < r@.len() && key_at(r.deep_view(), k@, j as int),
            None => !has_key(r.deep_view(), k@),
        },
{
    let mut j: usize = 0;
    while j < r.len()
        invariant
            j <= r@.len(),
            forall|m: int| 0 <= m < j ==> (#[trigger] r.deep_view()[m]).0 != k@,
        decreases r@.len() - j,
    {
        let hit = crate::bytes::bytes_eq(r[j].0.as_slice(), k);
        proof {
            lemma_bytes_deep_view(r@[j as int].0);
            assert(r.deep_view()[j as int].0 == r@[j as int].0@);
        }
        if hit {
            return Some(j);
        }
        j += 1;
    }
    proof {
        if has_key(r.deep_view(), k@) {
            let w = key_index(r.deep_view(), k@);
            assert(key_at(r.deep_view(), k@, w));
            assert((r.deep_view()[w]).0 != k@);
        }
    }
    None
}


/// Resolves the links of every note into edges, adding ghost nodes to the
/// registry for unresolved targets.
#[verifier::loop_isolation(false)]
fn build_edges(
    es: &Vec<EntryData>,
    stems: &Vec<(Vec<u8>, Vec<Vec<u8>>)>,
    nodes: &mut Vec<Node>,
) -> (r: Vec<Edge>)
    ensures
        final(nodes).deep_view() == edges_fold(
            old(nodes).deep_view(),
            Seq::empty(),
            stems.deep_view(),
            es.deep_view(),
        ).0,
        r.deep_view() == edges_fold(
            old(nodes).deep_view(),
            Seq::empty(),
            stems.deep_view(),
            es.deep_view(),
        ).1,
{
    let ghost reg0 = nodes.deep_view();
    let ghost stemsv = stems.deep_view();
    let ghost esv = es.deep_view();
    let mut edges: Vec<Edge> = Vec::new();
    let mut i: usize = 0;
    proof {
        assert(esv.take(0) =~= Seq::<EntryView>::empty());
        assert(edges.deep_view() =~= Seq::<EdgeView>::empty());
    }
    while i < es.len()
        invariant
            i <= esv.len(),
            nodes.deep_view() == edges_fold(reg0, Seq::empty(), stemsv, esv.take(i as int)).0,
            edges.deep_view() == edges_fold(reg0, Seq::empty(), stemsv, esv.take(i as int)).1,
        decreases esv.len() - i,
    {
        let ghost sn0 = nodes.deep_view();
        let ghost se0 = edges.deep_view();
        let links = extract_links(es[i].content.as_slice());
        let ghost raws = spec_links(esv[i as int].content);
        proof {
            assert(esv[i as int].content == es@[i as int].content@);
            assert(links.deep_view() == raws);
            assert(raws.take(0) =~= Seq::<Seq<u8>>::empty());
        }
        let mut k: usize = 0;
        while k < links.len()
            invariant
                k <= raws.len(),
                links.deep_view() == raws,
                nodes.deep_view() == link_fold(sn0, se0, stemsv, esv[i as int].id, raws.take(
                    k as int,
                )).0,
                edges.deep_view() == link_fold(sn0, se0, stemsv, esv[i as int].id, raws.take(
                    k as int,
                )).1,
            decreases raws.len() - k,
        {
            let ghost n1 = nodes.deep_view();
            let ghost e1 = edges.deep_view();
            let ghost rawv = raws[k as int];
            proof {
                lemma_bytes_deep_view(links@[k as int]);
                assert(links@[k as int]@ == rawv);
            }
            let key = crate::links::key_of_link(links[k].as_slice());
            proof {
                assert(key@ == link_key(rawv));
            }
            match find_stem(stems, key.as_slice()) {
                Some(j) => {
                    proof {
                        crate::text::lemma_key_at_unique(stemsv, key@, j as int);
                    }
                    let ghost idsv = stemsv[j as int].1;
                    let mut m: usize = 0;
                    proof {
                        lemma_bytes_deep_view(stems@[j as int].0);
                        assert(stems.deep_view()[j as int].1 == stems@[j as int].1.deep_view());
                        assert(idsv == stems@[j as int].1.deep_view());
                    }
                    while m < stems[j].1.len()
                        invariant
                            m <= idsv.len(),
                            idsv == stems@[j as int].1.deep_view(),
                            j < stems@.len(),
                            nodes.deep_view() == n1,
                            edges.deep_view() =~= e1 + Seq::new(
                                m as nat,
                                |x: int|
                                    (EdgeView {
                                        src: esv[i as int].id,
                                        dst: idsv[x],
                                        kind: EdgeKind::Wikilink,
                                    }),
                            ),
                        decreases idsv.len() - m,
                    {
                        let ghost e2 = edges.deep_view();
                        let src = copy_bytes(es[i].id.as_slice());
                        let dst = copy_bytes(stems[j].1[m].as_slice());
                        proof {
                            lemma_bytes_deep_view(stems@[j as int].1@[m as int]);
                            assert(dst@ == idsv[m as int]);
                            assert(src@ == esv[i as int].id);
                        }
                        edges.push(Edge { src, dst, kind: EdgeKind::Wikilink });
                        proof {
                            assert(edges.deep_view() =~= e2.push(
                                (EdgeView {
                                    src: esv[i as int].id,
                                    dst: idsv[m as int],
                                    kind: EdgeKind::Wikilink,
                                }),
                            ));
                            assert(edges.deep_view() =~= e1 + Seq::new(
                                (m + 1) as nat,
                                |x: int|
                                    (EdgeView {
                                        src: esv[i as int].id,
                                        dst: idsv[x],
                                        kind: EdgeKind::Wikilink,
                                    }),
                            ));
                        }
                        m += 1;
                    }
                    proof {
                        assert(resolve_link(n1, e1, stemsv, esv[i as int].id, rawv).0 == n1);
                        assert(edges.deep_view() =~= resolve_link(
                            n1,
                            e1,
                            stemsv,
                            esv[i as int].id,
                            rawv,
                        ).1);
                    }
                },
                None => {
                    let mut gid: Vec<u8> = Vec::new();
                    gid.push(103);
                    gid.push(104);
                    gid.push(111);
                    gid.push(115);
                    gid.push(116);
                    gid.push(47);
                    proof {
                        assert(gid@ =~= ghost_prefix());
                    }
                    append_bytes(&mut gid, links[k].as_slice());
                    proof {
                        assert(gid@ == ghost_prefix() + rawv);
                    }
                    let gdst = copy_bytes(gid.as_slice());
                    let gtitle = copy_bytes(links[k].as_slice());
                    let gstem = copy_bytes(links[k].as_slice());
                    let gnode = Node {
                        id: gid,
                        path: None,
                        title: gtitle,
                        stem: gstem,
                        semantic: Vec::new(),
                    };
                    proof {
                        assert(gnode.deep_view().semantic =~= Seq::<(Seq<u8>, u64)>::empty());
                        assert(gnode.deep_view() == ghost_node(rawv));
                    }
                    keep_node(nodes, gnode);
                    let src = copy_bytes(es[i].id.as_slice());
                    proof {
                        assert(src@ == esv[i as int].id);
                    }
                    edges.push(Edge { src, dst: gdst, kind: EdgeKind::Unresolved });
                    proof {
                        assert(nodes.deep_view() == resolve_link(
                            n1,
                            e1,
                            stemsv,
                            esv[i as int].id,
                            rawv,
                        ).0);
                        assert(edges.deep_view() =~= e1.push(
                            (EdgeView {
                                src: esv[i as int].id,
                                dst: ghost_prefix() + rawv,
                                kind: EdgeKind::Unresolved,
                            }),
                        ));
                        assert(edges.deep_view() == resolve_link(
                            n1,
                            e1,
                            stemsv,
                            esv[i as int].id,
                            rawv,
                        ).1);
                    }
                },
            }
            proof {
                assert(raws.take(k as int + 1).drop_last() =~= raws.take(k as int));
                assert(raws.take(k as int + 1).last() == rawv);
            }
            k += 1;
        }
        proof {
            assert(raws.take(raws.len() as int) =~= raws);
            let t1 = esv.take(i as int + 1);
            assert(t1.drop_last() =~= esv.take(i as int));
            assert(t1.last() == esv[i as int]);
        }
        i += 1;
    }
    proof {
        assert(esv.take(esv.len() as int) =~= esv);
    }
    edges
}


/// Gathers each note's term counts over title and body.
#[verifier::loop_isolation(false)]
fn all_entry_counts(es: &Vec<EntryData>) -> (r: Vec<Vec<(Vec<u8>, usize)>>)
    ensures
        r.deep_view() == all_counts(es.deep_view()),
{
    let mut r: Vec<Vec<(Vec<u8>, usize)>> = Vec::new();
    let mut i: usize = 0;
    while i < es.len()
        invariant
            i <= es@.len(),
            r.deep_view().len() == i,
            forall|x: int|
                0 <= x < i ==> #[trigger] r.deep_view()[x] == term_counts(
                    entry_text(es.deep_view()[x]),
                ),
        decreases es@.len() - i,
    {
        let mut text = copy_bytes(es[i].title.as_slice());
        text.push(32);
        append_bytes(&mut text, es[i].content.as_slice());
        proof {
            assert(text@ =~= entry_text(es.deep_view()[i as int]));
        }
        let counts = crate::text::token_counts(text.as_slice());
        let ghost old_r = r.deep_view();
        r.push(counts);
        proof {
            assert(r.deep_view() =~= old_r.push(term_counts(entry_text(es.deep_view()[i as int]))));
        }
        i += 1;
    }
    proof {
        assert(r.deep_view() =~= all_counts(es.deep_view()));
    }
    r
}

/// Counts the notes whose text holds the term `t`.
#[verifier::loop_isolation(false)]
fn df_of(all: &Vec<Vec<(Vec<u8>, usize)>>, t: &[u8]) -> (r: usize)
    ensures
        r as int == df_fold(all.deep_view(), t@),
        r <= all@.len(),
{
    let mut r: usize = 0;
    let mut i: usize = 0;
    proof {
        assert(all.deep_view().take(0) =~= Seq::<Seq<(Seq<u8>, usize)>>::empty());
    }
    while i < all.len()
        invariant
            i <= all@.len(),
            r <= i,
            r as int == df_fold(all.deep_view().take(i as int), t@),
        decreases all@.len() - i,
    {
        let hit = crate::text::find_key(&all[i], t);
        proof {
            assert(all.deep_view()[i as int] == all@[i as int].deep_view());
            let t1 = all.deep_view().take(i as int + 1);
            assert(t1.drop_last() =~= all.deep_view().take(i as int));
            assert(t1.last() == all.deep_view()[i as int]);
        }
        match hit {
            Some(j) => {
                proof {
                    crate::text::lemma_key_at_unique(all@[i as int].deep_view(), t@, j as int);
                }
                r += 1;
            },
            None => {
            },
        }
        i += 1;
    }
    proof {
        assert(all.deep_view().take(all@.len() as int) =~= all.deep_view());
    }
    r
}

/// Attaches every note's weight vector to its node.
#[verifier::loop_isolation(false)]
fn apply_weights(
    es: &Vec<EntryData>,
    all: &Vec<Vec<(Vec<u8>, usize)>>,
    n: usize,
    nodes: &mut Vec<Node>,
)
    requires
        all.deep_view() == all_counts(es.deep_view()),
        es@.len() <= n,
        1 <= n,
        n < u64::MAX,
    ensures
        final(nodes).deep_view() == weights_fold(
            old(nodes).deep_view(),
            es.deep_view(),
            all.deep_view(),
            n as int,
        ),
{
    let ghost reg0 = nodes.deep_view();
    let ghost esv = es.deep_view();
    let ghost allv = all.deep_view();
    let mut i: usize = 0;
    proof {
        assert(esv.take(0) =~= Seq::<EntryView>::empty());
        assert(all.deep_view().len() == all@.len());
        assert(all_counts(es.deep_view()).len() == es.deep_view().len());
        assert(es.deep_view().len() == es@.len());
        assert(all@.len() == es@.len());
    }
    while i < es.len()
        invariant
            i <= esv.len(),
            nodes.deep_view() == weights_fold(reg0, esv.take(i as int), allv, n as int),
        decreases esv.len() - i,
    {
        let counts = &all[i];
        let ghost cv = allv[i as int];
        proof {
            assert(cv == all@[i as int].deep_view());
            assert(cv == term_counts(entry_text(esv[i as int])));
        }
        let mut wv: Vec<(Vec<u8>, u64)> = Vec::new();
        let mut m: usize = 0;
        while m < counts.len()
            invariant
                m <= cv.len(),
                cv == all@[i as int].deep_view(),
                i < all@.len(),
                wv.deep_view().len() == m,
                forall|x: int|
                    0 <= x < m ==> #[trigger] wv.deep_view()[x] == weights_of(cv, allv, n as int)[x],
            decreases cv.len() - m,
        {
            let term = copy_bytes(counts[m].0.as_slice());
            let c = counts[m].1;
            proof {
                lemma_bytes_deep_view(all@[i as int]@[m as int].0);
                assert(term@ == cv[m as int].0);
                assert(c == cv[m as int].1);
            }
            let df = df_of(all, term.as_slice());
            let idf = crate::weights::idf_milli(df as u64, n as u64);
            let w = crate::weights::mul_sat(c as u64, idf);
            proof {
                assert(idf as int == spec_idf_milli(df_fold(allv, cv[m as int].0), n as int));
                assert(idf == spec_idf_milli(df_fold(allv, cv[m as int].0), n as int) as u64);
                assert(w == weights_of(cv, allv, n as int)[m as int].1);
            }
            let ghost old_wv = wv.deep_view();
            wv.push((term, w));
            proof {
                assert(weights_of(cv, allv, n as int)[m as int] == (cv[m as int].0, w));
                assert(wv.deep_view() =~= old_wv.push(weights_of(cv, allv, n as int)[m as int]));
            }
            m += 1;
        }
        proof {
            assert(wv.deep_view() =~= weights_of(cv, allv, n as int));
        }
        let id = copy_bytes(es[i].id.as_slice());
        let path = copy_bytes(es[i].id.as_slice());
        let title = copy_bytes(es[i].title.as_slice());
        let stem = copy_bytes(es[i].stem.as_slice());
        let node = Node { id, path: Some(path), title, stem, semantic: wv };
        proof {
            assert(node.deep_view() == base_node(
                esv[i as int],
                weights_of(term_counts(entry_text(esv[i as int])), allv, n as int),
            ));
        }
        upsert_node(nodes, node);
        proof {
            let t1 = esv.take(i as int + 1);
            assert(t1.drop_last() =~= esv.take(i as int));
            assert(t1.last() == esv[i as int]);
        }
        i += 1;
    }
    proof {
        assert(esv.take(esv.len() as int) =~= esv);
    }
}

/// One note gives one entry: a successful pass keeps the count.
proof fn lemma_entries_len(root: Seq<u8>, notes: Seq<NoteSourceView>, es: Seq<EntryView>)
    requires
        entries_of(root, notes) == Some(es),
    ensures
        es.len() == notes.len(),
    decreases notes.len(),
{
    if notes.len() > 0 {
        let prev = entries_of(root, notes.drop_last());
        lemma_entries_len(root, notes.drop_last(), prev.unwrap());
    }
}

/// Rebuilds the whole graph from the notes under `notes_root`: one node per
/// note, edges for every cross-reference (ghost nodes for unresolved ones),
/// term weights from corpus-wide statistics, nodes in id-sorted order, and
/// the counts. Fails exactly when some note path is not under the root.
#[verifier::loop_isolation(false)]
pub fn index_graph(notes_root: &[u8], notes: &Vec<NoteSource>) -> (r: Result<
    GraphData,
    IndexError,
>)
    requires
        notes@.len() < u64::MAX,
    ensures
        match r {
            Ok(g) => spec_index(notes_root@, notes.deep_view()) == Some(g.deep_view()),
            Err(e) => spec_index(notes_root@, notes.deep_view()) is None,
        },
{
    let es = match build_entries(notes_root, notes) {
        Ok(es) => es,
        Err(e) => {
            return Err(e);
        },
    };
    proof {
        lemma_entries_len(notes_root@, notes.deep_view(), es.deep_view());
    }
    let mut nodes = base_nodes(&es);
    let stems = build_stems(&es);
    let edges = build_edges(&es, &stems, &mut nodes);
    let all = all_entry_counts(&es);
    let n: usize = if es.len() == 0 {
        1
    } else {
        es.len()
    };
    apply_weights(&es, &all, n, &mut nodes);
    let stats = Stats { notes: notes.len(), nodes: nodes.len(), edges: edges.len() };
    let root_label = copy_bytes(notes_root);
    let g = GraphData { notes_root: root_label, nodes, edges, stats };
    proof {
        let gv = spec_index(notes_root@, notes.deep_view()).unwrap();
        assert(g.deep_view().nodes == gv.nodes);
        assert(g.deep_view().edges == gv.edges);
        assert(g.deep_view().stats == gv.stats);
        assert(g.deep_view() == gv);
    }
    Ok(g)
}

/// Once one note fails, every longer prefix fails too.
proof fn lemma_entries_prefix_none(root: Seq<u8>, notes: Seq<NoteSourceView>, k: int)
    requires
        0 <= k <= notes.len(),
        entries_of(root, notes.take(k)) is None,
    ensures
        entries_of(root, notes) is None,
    decreases notes.len() - k,
{
    if k < notes.len() {
        assert(notes.take(k + 1).drop_last() =~= notes.take(k));
        assert(entries_of(root, notes.take(k + 1)) is None);
        lemma_entries_prefix_none(root, notes, k + 1);
    } else {
        assert(notes.take(k) =~= notes);
    }
}


/// Indexing is a function of the notes alone: two runs over the same root
/// and the same note list build the same graph, nodes and edges in the same
/// order, so an unchanged corpus re-serializes byte for byte.
pub proof fn lemma_index_reproducible(
    root: Seq<u8>,
    notes1: Seq<NoteSourceView>,
    notes2: Seq<NoteSourceView>,
)
    requires
        notes1 == notes2,
    ensures
        spec_index(root, notes1) == spec_index(root, notes2),
{
}


/// The base registry is strictly id-sorted.
proof fn lemma_base_fold_sorted(es: Seq<EntryView>)
    ensures
        crate::graph::ids_sorted(base_fold(es)),
    decreases es.len(),
{
    if es.len() > 0 {
        lemma_base_fold_sorted(es.drop_last());
        crate::graph::lemma_reg_upsert_sorted(
            base_fold(es.drop_last()),
            base_node(es.last(), Seq::empty()),
        );
    }
}

/// Resolving links keeps the registry strictly id-sorted.
proof fn lemma_link_fold_sorted(
    nodes: Seq<NodeView>,
    edges: Seq<EdgeView>,
    stems: Seq<(Seq<u8>, Seq<Seq<u8>>)>,
    src: Seq<u8>,
    raws: Seq<Seq<u8>>,
)
    requires
        crate::graph::ids_sorted(nodes),
    ensures
        crate::graph::ids_sorted(link_fold(nodes, edges, stems, src, raws).0),
    decreases raws.len(),
{
    if raws.len() > 0 {
        lemma_link_fold_sorted(nodes, edges, stems, src, raws.drop_last());
        let st = link_fold(nodes, edges, stems, src, raws.drop_last());
        if !has_key(stems, link_key(raws.last())) {
            crate::graph::lemma_reg_keep_sorted(st.0, ghost_node(raws.last()));
        }
    }
}

/// Resolving every note's links keeps the registry strictly id-sorted.
proof fn lemma_edges_fold_sorted(
    nodes: Seq<NodeView>,
    edges: Seq<EdgeView>,
    stems: Seq<(Seq<u8>, Seq<Seq<u8>>)>,
    es: Seq<EntryView>,
)
    requires
        crate::graph::ids_sorted(nodes),
    ensures
        crate::graph::ids_sorted(edges_fold(nodes, edges, stems, es).0),
    decreases es.len(),
{
    if es.len() > 0 {
        lemma_edges_fold_sorted(nodes, edges, stems, es.drop_last());
        let st = edges_fold(nodes, edges, stems, es.drop_last());
        lemma_link_fold_sorted(st.0, st.1, stems, es.last().id, spec_links(es.last().content));
    }
}

/// Attaching weight vectors keeps the registry strictly id-sorted.
proof fn lemma_weights_fold_sorted(
    nodes: Seq<NodeView>,
    es: Seq<EntryView>,
    all: Seq<Seq<(Seq<u8>, usize)>>,
    n: int,
)
    requires
        crate::graph::ids_sorted(nodes),
    ensures
        crate::graph::ids_sorted(weights_fold(nodes, es, all, n)),
    decreases es.len(),
{
    if es.len() > 0 {
        lemma_weights_fold_sorted(nodes, es.drop_last(), all, n);
        let prev = weights_fold(nodes, es.drop_last(), all, n);
        let e = es.last();
        crate::graph::lemma_reg_upsert_sorted(
            prev,
            base_node(e, weights_of(term_counts(entry_text(e)), all, n)),
        );
    }
}

/// An indexed graph's nodes are strictly id-sorted, so node ids are unique
/// and the node order is determined by the id set alone.
pub proof fn lemma_index_ids_unique(root: Seq<u8>, notes: Seq<NoteSourceView>, g: GraphView)
    requires
        spec_index(root, notes) == Some(g),
    ensures
        crate::graph::ids_sorted(g.nodes),
        forall|i: int, j: int|
            0 <= i < j < g.nodes.len() ==> (#[trigger] g.nodes[i]).id != (#[trigger] g.nodes[j]).id,
{
    let es = entries_of(root, notes).unwrap();
    lemma_base_fold_sorted(es);
    lemma_edges_fold_sorted(base_fold(es), Seq::empty(), stem_fold(es), es);
    let st = edges_fold(base_fold(es), Seq::empty(), stem_fold(es), es);
    let all = all_counts(es);
    let n = if es.len() == 0 {
        1int
    } else {
        es.len() as int
    };
    lemma_weights_fold_sorted(st.0, es, all, n);
    assert forall|i: int, j: int| 0 <= i < j < g.nodes.len() implies (#[trigger] g.nodes[i]).id != (
    #[trigger] g.nodes[j]).id by {
        assert(crate::bytes::lex_lt(g.nodes[i].id, g.nodes[j].id));
        crate::bytes::lemma_lex_asymmetric(g.nodes[i].id, g.nodes[j].id);
    }
}


/// Every edge endpoint names a node of the registry.
pub open spec fn edges_closed(nodes: Seq<NodeView>, edges: Seq<EdgeView>) -> bool {
    forall|k: int|
        0 <= k < edges.len() ==> crate::graph::has_node_id(nodes, (#[trigger] edges[k]).src)
            && crate::graph::has_node_id(nodes, edges[k].dst)
}

/// The base registry holds every entry's id.
proof fn lemma_base_fold_has(es: Seq<EntryView>)
    ensures
        forall|i: int|
            0 <= i < es.len() ==> crate::graph::has_node_id(
                base_fold(es),
                (#[trigger] es[i]).id,
            ),
    decreases es.len(),
{
    if es.len() > 0 {
        lemma_base_fold_has(es.drop_last());
        let prev = base_fold(es.drop_last());
        crate::graph::lemma_reg_upsert_has(prev, base_node(es.last(), Seq::empty()));
        assert forall|i: int| 0 <= i < es.len() implies crate::graph::has_node_id(
            base_fold(es),
            (#[trigger] es[i]).id,
        ) by {
            if i < es.len() - 1 {
                assert(es.drop_last()[i] == es[i]);
                assert(crate::graph::has_node_id(prev, es[i].id));
            } else {
                assert(base_node(es.last(), Seq::empty()).id == es[i].id);
            }
        }
    }
}

/// Every id listed in the stem index is some entry's id.
proof fn lemma_stem_fold_ids(es: Seq<EntryView>)
    ensures
        forall|j: int, m: int|
            #![trigger stem_fold(es)[j].1[m]]
            0 <= j < stem_fold(es).len() && 0 <= m < stem_fold(es)[j].1.len() ==> exists|i: int|
                0 <= i < es.len() && (#[trigger] es[i]).id == stem_fold(es)[j].1[m],
    decreases es.len(),
{
    if es.len() > 0 {
        lemma_stem_fold_ids(es.drop_last());
        let prev = stem_fold(es.drop_last());
        let key = lower_ascii(es.last().stem);
        let id = es.last().id;
        let res = stem_fold(es);
        assert forall|j: int, m: int|
            #![trigger res[j].1[m]]
            0 <= j < res.len() && 0 <= m < res[j].1.len() implies exists|i: int|
            0 <= i < es.len() && (#[trigger] es[i]).id == res[j].1[m] by {
            let last_i = es.len() - 1;
            if has_key(prev, key) {
                let x = key_index(prev, key);
                if j == x && m == res[j].1.len() - 1 {
                    assert(res[j].1 == prev[x].1.push(id));
                    assert(res[j].1[m] == id);
                    assert(es[last_i].id == res[j].1[m]);
                } else {
                    if j == x {
                        assert(res[j].1[m] == prev[j].1[m]);
                    } else {
                        assert(res[j] == prev[j]);
                    }
                    let pjm = prev[j].1[m];
                    let i0 = choose|i: int|
                        0 <= i < es.drop_last().len() && (#[trigger] es.drop_last()[i]).id == pjm;
                    assert(es[i0] == es.drop_last()[i0]);
                    assert(es[i0].id == res[j].1[m]);
                }
            } else {
                if j < prev.len() {
                    assert(res[j] == prev[j]);
                    let pjm = prev[j].1[m];
                    let i0 = choose|i: int|
                        0 <= i < es.drop_last().len() && (#[trigger] es.drop_last()[i]).id == pjm;
                    assert(es[i0] == es.drop_last()[i0]);
                    assert(es[i0].id == res[j].1[m]);
                } else {
                    assert(res[j].1 == seq![id]);
                    assert(res[j].1[m] == id);
                    assert(es[last_i].id == res[j].1[m]);
                }
            }
        }
    }
}

/// Resolving one note's links keeps every edge endpoint on a node: stem
/// hits point at already-present entry ids, misses at the ghost just kept.
proof fn lemma_link_fold_closed(
    nodes: Seq<NodeView>,
    edges: Seq<EdgeView>,
    stems: Seq<(Seq<u8>, Seq<Seq<u8>>)>,
    src: Seq<u8>,
    raws: Seq<Seq<u8>>,
)
    requires
        edges_closed(nodes, edges),
        crate::graph::has_node_id(nodes, src),
        forall|j: int, m: int|
            #![trigger stems[j].1[m]]
            0 <= j < stems.len() && 0 <= m < stems[j].1.len() ==> crate::graph::has_node_id(
                nodes,
                stems[j].1[m],
            ),
    ensures
        edges_closed(link_fold(nodes, edges, stems, src, raws).0, link_fold(
            nodes,
            edges,
            stems,
            src,
            raws,
        ).1),
        forall|id: Seq<u8>|
            crate::graph::has_node_id(nodes, id) ==> #[trigger] crate::graph::has_node_id(
                link_fold(nodes, edges, stems, src, raws).0,
                id,
            ),
    decreases raws.len(),
{
    if raws.len() > 0 {
        lemma_link_fold_closed(nodes, edges, stems, src, raws.drop_last());
        let st = link_fold(nodes, edges, stems, src, raws.drop_last());
        let raw = raws.last();
        let key = link_key(raw);
        let res = link_fold(nodes, edges, stems, src, raws);
        if has_key(stems, key) {
            let ids = stems[key_index(stems, key)].1;
            assert forall|k: int| 0 <= k < res.1.len() implies crate::graph::has_node_id(
                res.0,
                (#[trigger] res.1[k]).src,
            ) && crate::graph::has_node_id(res.0, res.1[k].dst) by {
                if k < st.1.len() {
                    assert(res.1[k] == st.1[k]);
                } else {
                    assert(res.1[k].src == src);
                    assert(res.1[k].dst == ids[k - st.1.len()]);
                    assert(key_at(stems, key, key_index(stems, key)));
                    assert(crate::graph::has_node_id(nodes, ids[k - st.1.len()]));
                }
            }
        } else {
            crate::graph::lemma_reg_keep_has(st.0, ghost_node(raw));
            assert forall|k: int| 0 <= k < res.1.len() implies crate::graph::has_node_id(
                res.0,
                (#[trigger] res.1[k]).src,
            ) && crate::graph::has_node_id(res.0, res.1[k].dst) by {
                if k < st.1.len() {
                    assert(res.1[k] == st.1[k]);
                    assert(crate::graph::has_node_id(st.0, st.1[k].src));
                    assert(crate::graph::has_node_id(st.0, st.1[k].dst));
                } else {
                    assert(res.1[k].src == src);
                    assert(res.1[k].dst == ghost_node(raw).id);
                }
            }
        }
    }
}

/// Resolving every note's links keeps every edge endpoint on a node.
proof fn lemma_edges_fold_closed(
    nodes: Seq<NodeView>,
    edges: Seq<EdgeView>,
    stems: Seq<(Seq<u8>, Seq<Seq<u8>>)>,
    es: Seq<EntryView>,
)
    requires
        edges_closed(nodes, edges),
        forall|i: int|
            0 <= i < es.len() ==> crate::graph::has_node_id(nodes, (#[trigger] es[i]).id),
        forall|j: int, m: int|
            #![trigger stems[j].1[m]]
            0 <= j < stems.len() && 0 <= m < stems[j].1.len() ==> crate::graph::has_node_id(
                nodes,
                stems[j].1[m],
            ),
    ensures
        edges_closed(edges_fold(nodes, edges, stems, es).0, edges_fold(nodes, edges, stems, es).1),
        forall|id: Seq<u8>|
            crate::graph::has_node_id(nodes, id) ==> #[trigger] crate::graph::has_node_id(
                edges_fold(nodes, edges, stems, es).0,
                id,
            ),
    decreases es.len(),
{
    if es.len() > 0 {
        assert forall|i: int| 0 <= i < es.drop_last().len() implies crate::graph::has_node_id(
            nodes,
            (#[trigger] es.drop_last()[i]).id,
        ) by {
            assert(es.drop_last()[i] == es[i]);
        }
        lemma_edges_fold_closed(nodes, edges, stems, es.drop_last());
        let st = edges_fold(nodes, edges, stems, es.drop_last());
        assert(crate::graph::has_node_id(nodes, es.last().id));
        assert(crate::graph::has_node_id(st.0, es.last().id));
        assert forall|j: int, m: int|
            #![trigger stems[j].1[m]]
            0 <= j < stems.len() && 0 <= m < stems[j].1.len() implies crate::graph::has_node_id(
                st.0,
                stems[j].1[m],
            ) by {
            assert(crate::graph::has_node_id(nodes, stems[j].1[m]));
        }
        lemma_link_fold_closed(st.0, st.1, stems, es.last().id, spec_links(es.last().content));
    }
}

/// Attaching weight vectors loses no node id and leaves the edges alone.
proof fn lemma_weights_fold_has(
    nodes: Seq<NodeView>,
    es: Seq<EntryView>,
    all: Seq<Seq<(Seq<u8>, usize)>>,
    n: int,
)
    ensures
        forall|id: Seq<u8>|
            crate::graph::has_node_id(nodes, id) ==> #[trigger] crate::graph::has_node_id(
                weights_fold(nodes, es, all, n),
                id,
            ),
    decreases es.len(),
{
    if es.len() > 0 {
        lemma_weights_fold_has(nodes, es.drop_last(), all, n);
        let prev = weights_fold(nodes, es.drop_last(), all, n);
        let e = es.last();
        crate::graph::lemma_reg_upsert_has(
            prev,
            base_node(e, weights_of(term_counts(entry_text(e)), all, n)),
        );
    }
}

/// In an indexed graph, every edge endpoint refers to some node: real notes
/// for sources and resolved targets, ghost nodes for unresolved ones.
pub proof fn lemma_index_edges_closed(root: Seq<u8>, notes: Seq<NoteSourceView>, g: GraphView)
    requires
        spec_index(root, notes) == Some(g),
    ensures
        edges_closed(g.nodes, g.edges),
{
    let es = entries_of(root, notes).unwrap();
    let reg0 = base_fold(es);
    let stems = stem_fold(es);
    lemma_base_fold_has(es);
    lemma_stem_fold_ids(es);
    assert forall|j: int, m: int|
        #![trigger stems[j].1[m]]
        0 <= j < stems.len() && 0 <= m < stems[j].1.len() implies crate::graph::has_node_id(
            reg0,
            stems[j].1[m],
        ) by {
        let i = choose|i: int| 0 <= i < es.len() && (#[trigger] es[i]).id == stems[j].1[m];
        assert(crate::graph::has_node_id(reg0, es[i].id));
    }
    assert(edges_closed(reg0, Seq::empty()));
    lemma_edges_fold_closed(reg0, Seq::empty(), stems, es);
    let st = edges_fold(reg0, Seq::empty(), stems, es);
    let all = all_counts(es);
    let n = if es.len() == 0 {
        1int
    } else {
        es.len() as int
    };
    lemma_weights_fold_has(st.0, es, all, n);
    assert forall|k: int| 0 <= k < g.edges.len() implies crate::graph::has_node_id(
        g.nodes,
        (#[trigger] g.edges[k]).src,
    ) && crate::graph::has_node_id(g.nodes, g.edges[k].dst) by {
        assert(crate::graph::has_node_id(st.0, st.1[k].src));
        assert(crate::graph::has_node_id(st.0, st.1[k].dst));
    }
}

} // verus!
