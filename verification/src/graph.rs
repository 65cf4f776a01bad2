//! The knowledge graph: nodes, edges, counts, and the id-sorted node
//! registry that the indexer fills.
use vstd::prelude::*;
use vstd::pervasive::VecAdditionalExecFns;

use crate::bytes::bytes_eq;
use crate::bytes::bytes_lt;
use crate::bytes::lemma_lex_asymmetric;
use crate::bytes::lemma_lex_total;
use crate::bytes::lemma_lex_transitive;
use crate::bytes::lex_lt;

verus! {

/// The kind of an edge: a resolved cross-reference or an unresolved one.
#[derive(Clone, Copy, PartialEq, Eq, Structural, Debug)]
pub enum EdgeKind {
    Wikilink,
    Unresolved,
}

/// Counts persisted with a graph: real notes, nodes (ghosts included), and
/// edges.
#[derive(Clone, Copy, PartialEq, Eq, Structural, Debug)]
pub struct Stats {
    pub notes: usize,
    pub nodes: usize,
    pub edges: usize,
}

/// A node: a real note, or a ghost placeholder for an unresolved target.
#[derive(PartialEq, Eq)]
pub struct Node {
    /// Unique identity: the root-relative path for real notes, or
    /// `ghost/<raw link text>` for ghosts.
    pub id: Vec<u8>,
    /// The id again for real notes; absent for ghosts.
    pub path: Option<Vec<u8>>,
    /// The first heading line of the note, or the filename stem.
    pub title: Vec<u8>,
    /// The filename without extension; for ghosts the raw link text.
    pub stem: Vec<u8>,
    /// Sparse term-weight vector in milli units; empty for ghosts.
    pub semantic: Vec<(Vec<u8>, u64)>,
}

/// The mathematical shadow of a `Node`.
pub ghost struct NodeView {
    pub id: Seq<u8>,
    pub path: Option<Seq<u8>>,
    pub title: Seq<u8>,
    pub stem: Seq<u8>,
    pub semantic: Seq<(Seq<u8>, u64)>,
}

impl DeepView for Node {
    type V = NodeView;

    open spec fn deep_view(&self) -> NodeView {
        NodeView {
            id: self.id@,
            path: match self.path {
                Some(p) => Some(p@),
                None => None,
            },
            title: self.title@,
            stem: self.stem@,
            semantic: self.semantic.deep_view(),
        }
    }
}

/// A directed edge between two node ids.
#[derive(PartialEq, Eq)]
pub struct Edge {
    pub src: Vec<u8>,
    pub dst: Vec<u8>,
    pub kind: EdgeKind,
}

/// The mathematical shadow of an `Edge`.
pub ghost struct EdgeView {
    pub src: Seq<u8>,
    pub dst: Seq<u8>,
    pub kind: EdgeKind,
}

impl DeepView for Edge {
    type V = EdgeView;

    open spec fn deep_view(&self) -> EdgeView {
        EdgeView { src: self.src@, dst: self.dst@, kind: self.kind }
    }
}

/// A whole persisted graph: notes root label, id-sorted nodes, edges, and
/// counts.
pub struct GraphData {
    pub notes_root: Vec<u8>,
    pub nodes: Vec<Node>,
    pub edges: Vec<Edge>,
    pub stats: Stats,
}

/// The mathematical shadow of a `GraphData`.
pub ghost struct GraphView {
    pub notes_root: Seq<u8>,
    pub nodes: Seq<NodeView>,
    pub edges: Seq<EdgeView>,
    pub stats: Stats,
}

impl DeepView for GraphData {
    type V = GraphView;

    open spec fn deep_view(&self) -> GraphView {
        GraphView {
            notes_root: self.notes_root@,
            nodes: self.nodes.deep_view(),
            edges: self.edges.deep_view(),
            stats: self.stats,
        }
    }
}

/// Node ids strictly increase through the sequence: sorted and unique.
pub open spec fn ids_sorted(nodes: Seq<NodeView>) -> bool {
    forall|i: int, j: int|
        0 <= i < j < nodes.len() ==> lex_lt(#[trigger] nodes[i].id, #[trigger] nodes[j].id)
}

/// `n` placed into the id-ordered registry; an entry with the same id is
/// replaced.
pub open spec fn reg_upsert(nodes: Seq<NodeView>, n: NodeView) -> Seq<NodeView>
    decreases nodes.len(),
{
    if nodes.len() == 0 {
        seq![n]
    } else if lex_lt(n.id, nodes[0].id) {
        seq![n] + nodes
    } else if n.id == nodes[0].id {
        seq![n] + nodes.skip(1)
    } else {
        seq![nodes[0]] + reg_upsert(nodes.skip(1), n)
    }
}

/// `n` placed into the id-ordered registry unless its id is already there.
pub open spec fn reg_keep(nodes: Seq<NodeView>, n: NodeView) -> Seq<NodeView>
    decreases nodes.len(),
{
    if nodes.len() == 0 {
        seq![n]
    } else if lex_lt(n.id, nodes[0].id) {
        seq![n] + nodes
    } else if n.id == nodes[0].id {
        nodes
    } else {
        seq![nodes[0]] + reg_keep(nodes.skip(1), n)
    }
}

/// Places `n` into the registry, replacing an entry with the same id.
#[verifier::loop_isolation(false)]
pub fn upsert_node(nodes: &mut Vec<Node>, n: Node)
    ensures
        final(nodes).deep_view() == reg_upsert(old(nodes).deep_view(), n.deep_view()),
{
    let ghost orig = nodes.deep_view();
    let ghost nv = n.deep_view();
    let mut j: usize = 0;
    proof {
        assert(orig.take(0) =~= Seq::<NodeView>::empty());
        assert(orig.skip(0) =~= orig);
        assert(reg_upsert(orig, nv) == orig.take(0) + reg_upsert(orig.skip(0), nv)) by {
            assert(orig.take(0) + reg_upsert(orig.skip(0), nv) =~= reg_upsert(orig.skip(0), nv));
        }
    }
    while j < nodes.len() && bytes_lt(nodes[j].id.as_slice(), n.id.as_slice())
        invariant
            j <= orig.len(),
            nodes.deep_view() == orig,
            reg_upsert(orig, nv) == orig.take(j as int) + reg_upsert(orig.skip(j as int), nv),
        decreases orig.len() - j,
    {
        proof {
            let s = orig.skip(j as int);
            assert(s[0] == orig[j as int]);
            lemma_lex_asymmetric(orig[j as int].id, nv.id);
            assert(reg_upsert(s, nv) == seq![s[0]] + reg_upsert(s.skip(1), nv));
            assert(s.skip(1) =~= orig.skip(j as int + 1));
            assert(orig.take(j as int) + (seq![s[0]] + reg_upsert(orig.skip(j as int + 1), nv))
                =~= orig.take(j as int + 1) + reg_upsert(orig.skip(j as int + 1), nv));
        }
        j += 1;
    }
    if j == nodes.len() {
        proof {
            assert(orig.skip(j as int) =~= Seq::<NodeView>::empty());
            assert(reg_upsert(orig.skip(j as int), nv) == seq![nv]);
        }
        nodes.push(n);
        proof {
            assert(nodes.deep_view() =~= orig.take(orig.len() as int) + seq![nv]);
            assert(orig.take(orig.len() as int) =~= orig);
        }
    } else {
        proof {
            assert(!lex_lt(orig[j as int].id, nv.id));
        }
        let same = bytes_eq(nodes[j].id.as_slice(), n.id.as_slice());
        proof {
            let s = orig.skip(j as int);
            assert(s[0] == orig[j as int]);
            if same {
                if lex_lt(nv.id, s[0].id) {
                    lemma_lex_asymmetric(nv.id, s[0].id);
                }
                assert(reg_upsert(s, nv) == seq![nv] + s.skip(1));
            } else {
                lemma_lex_total(nv.id, s[0].id);
                assert(lex_lt(nv.id, s[0].id));
                assert(reg_upsert(s, nv) == seq![nv] + s);
            }
        }
        if same {
            nodes.set(j, n);
            proof {
                let s = orig.skip(j as int);
                assert(s.skip(1) =~= orig.skip(j as int + 1));
                assert(nodes.deep_view() =~= orig.take(j as int) + (seq![nv] + orig.skip(
                    j as int + 1,
                )));
            }
        } else {
            nodes.insert(j, n);
            proof {
                assert(nodes.deep_view() =~= orig.take(j as int) + (seq![nv] + orig.skip(
                    j as int,
                )));
            }
        }
    }
}

/// Places `n` into the registry unless its id is already present.
#[verifier::loop_isolation(false)]
pub fn keep_node(nodes: &mut Vec<Node>, n: Node)
    ensures
        final(nodes).deep_view() == reg_keep(old(nodes).deep_view(), n.deep_view()),
{
    let ghost orig = nodes.deep_view();
    let ghost nv = n.deep_view();
    let mut j: usize = 0;
    proof {
        assert(orig.skip(0) =~= orig);
        assert(reg_keep(orig, nv) == orig.take(0) + reg_keep(orig.skip(0), nv)) by {
            assert(orig.take(0) + reg_keep(orig.skip(0), nv) =~= reg_keep(orig.skip(0), nv));
        }
    }
    while j < nodes.len() && bytes_lt(nodes[j].id.as_slice(), n.id.as_slice())
        invariant
            j <= orig.len(),
            nodes.deep_view() == orig,
            reg_keep(orig, nv) == orig.take(j as int) + reg_keep(orig.skip(j as int), nv),
        decreases orig.len() - j,
    {
        proof {
            let s = orig.skip(j as int);
            assert(s[0] == orig[j as int]);
            lemma_lex_asymmetric(orig[j as int].id, nv.id);
            assert(reg_keep(s, nv) == seq![s[0]] + reg_keep(s.skip(1), nv));
            assert(s.skip(1) =~= orig.skip(j as int + 1));
            assert(orig.take(j as int) + (seq![s[0]] + reg_keep(orig.skip(j as int + 1), nv))
                =~= orig.take(j as int + 1) + reg_keep(orig.skip(j as int + 1), nv));
        }
        j += 1;
    }
    if j == nodes.len() {
        proof {
            assert(orig.skip(j as int) =~= Seq::<NodeView>::empty());
            assert(reg_keep(orig.skip(j as int), nv) == seq![nv]);
        }
        nodes.push(n);
        proof {
            assert(nodes.deep_view() =~= orig.take(orig.len() as int) + seq![nv]);
            assert(orig.take(orig.len() as int) =~= orig);
        }
    } else {
        proof {
            assert(!lex_lt(orig[j as int].id, nv.id));
        }
        let same = bytes_eq(nodes[j].id.as_slice(), n.id.as_slice());
        proof {
            let s = orig.skip(j as int);
            assert(s[0] == orig[j as int]);
            if same {
                if lex_lt(nv.id, s[0].id) {
                    lemma_lex_asymmetric(nv.id, s[0].id);
                }
                assert(reg_keep(s, nv) == s);
                assert(orig.take(j as int) + orig.skip(j as int) =~= orig);
            } else {
                lemma_lex_total(nv.id, s[0].id);
                assert(lex_lt(nv.id, s[0].id));
                assert(reg_keep(s, nv) == seq![nv] + s);
            }
        }
        if !same {
            nodes.insert(j, n);
            proof {
                assert(nodes.deep_view() =~= orig.take(j as int) + (seq![nv] + orig.skip(
                    j as int,
                )));
            }
        }
    }
}


/// An upsert keeps the registry strictly id-sorted and adds no id but the
/// new one.
pub proof fn lemma_reg_upsert_sorted(nodes: Seq<NodeView>, n: NodeView)
    requires
        ids_sorted(nodes),
    ensures
        ids_sorted(reg_upsert(nodes, n)),
        forall|j: int|
            0 <= j < reg_upsert(nodes, n).len() ==> (#[trigger] reg_upsert(nodes, n)[j] == n
                || nodes.contains(reg_upsert(nodes, n)[j])),
    decreases nodes.len(),
{
    let res = reg_upsert(nodes, n);
    if nodes.len() == 0 {
    } else if lex_lt(n.id, nodes[0].id) {
        assert forall|i: int, j: int| 0 <= i < j < res.len() implies lex_lt(
            #[trigger] res[i].id,
            #[trigger] res[j].id,
        ) by {
            if i == 0 {
                assert(res[j] == nodes[j - 1]);
                if j - 1 > 0 {
                    assert(lex_lt(nodes[0].id, nodes[j - 1].id));
                    lemma_lex_transitive(n.id, nodes[0].id, nodes[j - 1].id);
                }
            } else {
                assert(res[i] == nodes[i - 1]);
                assert(res[j] == nodes[j - 1]);
            }
        }
        assert forall|j: int| 0 <= j < res.len() implies (#[trigger] res[j] == n || nodes.contains(
            res[j],
        )) by {
            if j > 0 {
                assert(res[j] == nodes[j - 1]);
            }
        }
    } else if n.id == nodes[0].id {
        assert forall|i: int, j: int| 0 <= i < j < res.len() implies lex_lt(
            #[trigger] res[i].id,
            #[trigger] res[j].id,
        ) by {
            if i == 0 {
                assert(res[j] == nodes.skip(1)[j - 1]);
                assert(nodes.skip(1)[j - 1] == nodes[j]);
                assert(lex_lt(nodes[0].id, nodes[j].id));
            } else {
                assert(res[i] == nodes[i]);
                assert(res[j] == nodes[j]);
            }
        }
        assert forall|j: int| 0 <= j < res.len() implies (#[trigger] res[j] == n || nodes.contains(
            res[j],
        )) by {
            if j > 0 {
                assert(res[j] == nodes[j]);
            }
        }
    } else {
        assert(ids_sorted(nodes.skip(1))) by {
            assert forall|i: int, j: int| 0 <= i < j < nodes.skip(1).len() implies lex_lt(
                #[trigger] nodes.skip(1)[i].id,
                #[trigger] nodes.skip(1)[j].id,
            ) by {
                assert(nodes.skip(1)[i] == nodes[i + 1]);
                assert(nodes.skip(1)[j] == nodes[j + 1]);
            }
        }
        lemma_reg_upsert_sorted(nodes.skip(1), n);
        let sub = reg_upsert(nodes.skip(1), n);
        lemma_lex_total(n.id, nodes[0].id);
        assert(lex_lt(nodes[0].id, n.id));
        assert forall|i: int, j: int| 0 <= i < j < res.len() implies lex_lt(
            #[trigger] res[i].id,
            #[trigger] res[j].id,
        ) by {
            if i == 0 {
                assert(res[j] == sub[j - 1]);
                if sub[j - 1] == n {
                } else {
                    assert(nodes.skip(1).contains(sub[j - 1]));
                    let m = choose|m: int|
                        0 <= m < nodes.skip(1).len() && nodes.skip(1)[m] == sub[j - 1];
                    assert(nodes.skip(1)[m] == nodes[m + 1]);
                    assert(lex_lt(nodes[0].id, nodes[m + 1].id));
                }
            } else {
                assert(res[i] == sub[i - 1]);
                assert(res[j] == sub[j - 1]);
            }
        }
        assert forall|j: int| 0 <= j < res.len() implies (#[trigger] res[j] == n || nodes.contains(
            res[j],
        )) by {
            if j == 0 {
                assert(res[0] == nodes[0]);
                assert(nodes.contains(nodes[0]));
            } else {
                assert(res[j] == sub[j - 1]);
                if sub[j - 1] != n {
                    assert(nodes.skip(1).contains(sub[j - 1]));
                    let m = choose|m: int|
                        0 <= m < nodes.skip(1).len() && nodes.skip(1)[m] == sub[j - 1];
                    assert(nodes.skip(1)[m] == nodes[m + 1]);
                    assert(nodes.contains(nodes[m + 1]));
                }
            }
        }
    }
}

/// Keeping a node preserves strict id-sortedness in the same way.
pub proof fn lemma_reg_keep_sorted(nodes: Seq<NodeView>, n: NodeView)
    requires
        ids_sorted(nodes),
    ensures
        ids_sorted(reg_keep(nodes, n)),
        forall|j: int|
            0 <= j < reg_keep(nodes, n).len() ==> (#[trigger] reg_keep(nodes, n)[j] == n
                || nodes.contains(reg_keep(nodes, n)[j])),
    decreases nodes.len(),
{
    let res = reg_keep(nodes, n);
    if nodes.len() == 0 {
    } else if lex_lt(n.id, nodes[0].id) {
        assert forall|i: int, j: int| 0 <= i < j < res.len() implies lex_lt(
            #[trigger] res[i].id,
            #[trigger] res[j].id,
        ) by {
            if i == 0 {
                assert(res[j] == nodes[j - 1]);
                if j - 1 > 0 {
                    assert(lex_lt(nodes[0].id, nodes[j - 1].id));
                    lemma_lex_transitive(n.id, nodes[0].id, nodes[j - 1].id);
                }
            } else {
                assert(res[i] == nodes[i - 1]);
                assert(res[j] == nodes[j - 1]);
            }
        }
        assert forall|j: int| 0 <= j < res.len() implies (#[trigger] res[j] == n || nodes.contains(
            res[j],
        )) by {
            if j > 0 {
                assert(res[j] == nodes[j - 1]);
            }
        }
    } else if n.id == nodes[0].id {
        assert forall|j: int| 0 <= j < res.len() implies (#[trigger] res[j] == n || nodes.contains(
            res[j],
        )) by {
            assert(res[j] == nodes[j]);
        }
    } else {
        assert(ids_sorted(nodes.skip(1))) by {
            assert forall|i: int, j: int| 0 <= i < j < nodes.skip(1).len() implies lex_lt(
                #[trigger] nodes.skip(1)[i].id,
                #[trigger] nodes.skip(1)[j].id,
            ) by {
                assert(nodes.skip(1)[i] == nodes[i + 1]);
                assert(nodes.skip(1)[j] == nodes[j + 1]);
            }
        }
        lemma_reg_keep_sorted(nodes.skip(1), n);
        let sub = reg_keep(nodes.skip(1), n);
        lemma_lex_total(n.id, nodes[0].id);
        assert(lex_lt(nodes[0].id, n.id));
        assert forall|i: int, j: int| 0 <= i < j < res.len() implies lex_lt(
            #[trigger] res[i].id,
            #[trigger] res[j].id,
        ) by {
            if i == 0 {
                assert(res[j] == sub[j - 1]);
                if sub[j - 1] == n {
                } else {
                    assert(nodes.skip(1).contains(sub[j - 1]));
                    let m = choose|m: int|
                        0 <= m < nodes.skip(1).len() && nodes.skip(1)[m] == sub[j - 1];
                    assert(nodes.skip(1)[m] == nodes[m + 1]);
                    assert(lex_lt(nodes[0].id, nodes[m + 1].id));
                }
            } else {
                assert(res[i] == sub[i - 1]);
                assert(res[j] == sub[j - 1]);
            }
        }
        assert forall|j: int| 0 <= j < res.len() implies (#[trigger] res[j] == n || nodes.contains(
            res[j],
        )) by {
            if j == 0 {
                assert(res[0] == nodes[0]);
                assert(nodes.contains(nodes[0]));
            } else {
                assert(res[j] == sub[j - 1]);
                if sub[j - 1] != n {
                    assert(nodes.skip(1).contains(sub[j - 1]));
                    let m = choose|m: int|
                        0 <= m < nodes.skip(1).len() && nodes.skip(1)[m] == sub[j - 1];
                    assert(nodes.skip(1)[m] == nodes[m + 1]);
                    assert(nodes.contains(nodes[m + 1]));
                }
            }
        }
    }
}


/// Some node of the sequence bears this id.
pub open spec fn has_node_id(nodes: Seq<NodeView>, id: Seq<u8>) -> bool {
    exists|j: int| 0 <= j < nodes.len() && (#[trigger] nodes[j]).id == id
}

/// An upsert makes the new id present and loses no present id.
pub proof fn lemma_reg_upsert_has(nodes: Seq<NodeView>, n: NodeView)
    ensures
        has_node_id(reg_upsert(nodes, n), n.id),
        forall|id: Seq<u8>|
            has_node_id(nodes, id) ==> #[trigger] has_node_id(reg_upsert(nodes, n), id),
    decreases nodes.len(),
{
    let res = reg_upsert(nodes, n);
    if nodes.len() == 0 {
        assert(res[0].id == n.id);
    } else if lex_lt(n.id, nodes[0].id) {
        assert(res[0].id == n.id);
        assert forall|id: Seq<u8>| has_node_id(nodes, id) implies #[trigger] has_node_id(
            res,
            id,
        ) by {
            let j = choose|j: int| 0 <= j < nodes.len() && (#[trigger] nodes[j]).id == id;
            assert(res[j + 1] == nodes[j]);
        }
    } else if n.id == nodes[0].id {
        assert(res[0].id == n.id);
        assert forall|id: Seq<u8>| has_node_id(nodes, id) implies #[trigger] has_node_id(
            res,
            id,
        ) by {
            let j = choose|j: int| 0 <= j < nodes.len() && (#[trigger] nodes[j]).id == id;
            if j == 0 {
                assert(res[0].id == id);
            } else {
                assert(res[j] == nodes.skip(1)[j - 1]);
                assert(nodes.skip(1)[j - 1] == nodes[j]);
            }
        }
    } else {
        lemma_reg_upsert_has(nodes.skip(1), n);
        let sub = reg_upsert(nodes.skip(1), n);
        let m = choose|m: int| 0 <= m < sub.len() && (#[trigger] sub[m]).id == n.id;
        assert(res[m + 1] == sub[m]);
        assert forall|id: Seq<u8>| has_node_id(nodes, id) implies #[trigger] has_node_id(
            res,
            id,
        ) by {
            let j = choose|j: int| 0 <= j < nodes.len() && (#[trigger] nodes[j]).id == id;
            if j == 0 {
                assert(res[0].id == id);
            } else {
                assert(nodes.skip(1)[j - 1] == nodes[j]);
                assert(has_node_id(nodes.skip(1), id));
                assert(has_node_id(sub, id));
                let x = choose|x: int| 0 <= x < sub.len() && (#[trigger] sub[x]).id == id;
                assert(res[x + 1] == sub[x]);
            }
        }
    }
}

/// Keeping a node makes its id present and loses no present id.
pub proof fn lemma_reg_keep_has(nodes: Seq<NodeView>, n: NodeView)
    ensures
        has_node_id(reg_keep(nodes, n), n.id),
        forall|id: Seq<u8>|
            has_node_id(nodes, id) ==> #[trigger] has_node_id(reg_keep(nodes, n), id),
    decreases nodes.len(),
{
    let res = reg_keep(nodes, n);
    if nodes.len() == 0 {
        assert(res[0].id == n.id);
    } else if lex_lt(n.id, nodes[0].id) {
        assert(res[0].id == n.id);
        assert forall|id: Seq<u8>| has_node_id(nodes, id) implies #[trigger] has_node_id(
            res,
            id,
        ) by {
            let j = choose|j: int| 0 <= j < nodes.len() && (#[trigger] nodes[j]).id == id;
            assert(res[j + 1] == nodes[j]);
        }
    } else if n.id == nodes[0].id {
        assert(res[0].id == n.id);
    } else {
        lemma_reg_keep_has(nodes.skip(1), n);
        let sub = reg_keep(nodes.skip(1), n);
        let m = choose|m: int| 0 <= m < sub.len() && (#[trigger] sub[m]).id == n.id;
        assert(res[m + 1] == sub[m]);
        assert forall|id: Seq<u8>| has_node_id(nodes, id) implies #[trigger] has_node_id(
            res,
            id,
        ) by {
            let j = choose|j: int| 0 <= j < nodes.len() && (#[trigger] nodes[j]).id == id;
            if j == 0 {
                assert(res[0].id == id);
            } else {
                assert(nodes.skip(1)[j - 1] == nodes[j]);
                assert(has_node_id(nodes.skip(1), id));
                assert(has_node_id(sub, id));
                let x = choose|x: int| 0 <= x < sub.len() && (#[trigger] sub[x]).id == id;
                assert(res[x + 1] == sub[x]);
            }
        }
    }
}

} // verus!
