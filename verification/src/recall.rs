//! The recall ranker: graph nodes scored against a query by weighted
//! lexical, structural and statistical signals, ordered deterministically,
//! and truncated to the requested count.
//!
//! Scores are micro units: each signal is milli, each weight is milli, and
//! a score is the saturating sum of the three weight-times-signal products.
//! Equal scores are ordered by ascending node id, and nodes with equal ids
//! by position, so that the ranking is a fixed total order.
use vstd::prelude::*;

use crate::bytes::bytes_eq;
use crate::bytes::bytes_lt;
use crate::bytes::copy_bytes;
use crate::bytes::lemma_bytes_deep_view;
use crate::bytes::lex_lt;
use crate::graph::Edge;
use crate::graph::EdgeView;
use crate::graph::GraphData;
use crate::graph::GraphView;
use crate::graph::Node;
use crate::graph::NodeView;
use crate::text::assoc_keys;
use crate::text::has_key;
use crate::text::key_index;
use crate::text::term_counts;
use crate::text::token_counts;
use crate::text::tokens;
use crate::weights::add_sat;
use crate::weights::mul_sat;
use crate::weights::sat_add64;
use crate::weights::sat_mul64;

verus! {

/// The three non-negative signal weights, in milli units (1000 is 1.0).
#[derive(Clone, Copy, PartialEq, Eq, Structural, Debug)]
pub struct RecallWeights {
    pub lexical: u64,
    pub graph: u64,
    pub semantic: u64,
}

/// One ranked answer: its 1-based rank, micro-unit score, and the node's
/// title and path.
pub struct RecallRow {
    pub rank: usize,
    pub score: u64,
    pub title: Vec<u8>,
    pub path: Option<Vec<u8>>,
}

/// The mathematical shadow of a `RecallRow`.
pub ghost struct RecallRowView {
    pub rank: usize,
    pub score: u64,
    pub title: Seq<u8>,
    pub path: Option<Seq<u8>>,
}

impl DeepView for RecallRow {
    type V = RecallRowView;

    open spec fn deep_view(&self) -> RecallRowView {
        RecallRowView {
            rank: self.rank,
            score: self.score,
            title: self.title@,
            path: match self.path {
                Some(p) => Some(p@),
                None => None,
            },
        }
    }
}

/// How many of the distinct query tokens occur in the text.
pub open spec fn overlap_count(qs: Seq<Seq<u8>>, text: Seq<u8>) -> int
    decreases qs.len(),
{
    if qs.len() == 0 {
        0
    } else {
        overlap_count(qs.drop_last(), text) + if has_key(term_counts(text), qs.last()) {
            1int
        } else {
            0int
        }
    }
}

/// The lexical signal in milli units: twice the overlap of the query token
/// set with the text's token set.
pub open spec fn spec_lexical_milli(qs: Seq<Seq<u8>>, text: Seq<u8>) -> u64 {
    sat_mul64(2000u64, overlap_count(qs, text) as u64)
}

/// The structural signal in milli units: one tenth per incoming edge,
/// capped at one.
pub open spec fn spec_graph_influence(indeg: int) -> u64 {
    if indeg >= 10 {
        1000u64
    } else {
        (100 * indeg) as u64
    }
}

/// The weight stored for term `k`, zero when absent.
pub open spec fn weight_of(vector: Seq<(Seq<u8>, u64)>, k: Seq<u8>) -> u64 {
    if has_key(vector, k) {
        vector[key_index(vector, k)].1
    } else {
        0u64
    }
}

/// The semantic signal in milli units: the dot product of the query term
/// counts with the node's term weights.
pub open spec fn spec_semantic_milli(qc: Seq<(Seq<u8>, usize)>, vector: Seq<(Seq<u8>, u64)>) -> u64
    decreases qc.len(),
{
    if qc.len() == 0 {
        0u64
    } else {
        sat_add64(
            spec_semantic_milli(qc.drop_last(), vector),
            sat_mul64(qc.last().1 as u64, weight_of(vector, qc.last().0)),
        )
    }
}

/// How many edges end at the node with this id.
pub open spec fn spec_indegree(edges: Seq<EdgeView>, id: Seq<u8>) -> int
    decreases edges.len(),
{
    if edges.len() == 0 {
        0
    } else {
        spec_indegree(edges.drop_last(), id) + if edges.last().dst == id {
            1int
        } else {
            0int
        }
    }
}

/// The text a node is matched against: title, a space, and its path when it
/// has one.
pub open spec fn node_text(n: NodeView) -> Seq<u8> {
    n.title + seq![32u8] + (match n.path {
        Some(p) => p,
        None => Seq::empty(),
    })
}

/// The score of node `i` against the query: the saturating weighted sum of
/// the three signals, in micro units.
pub open spec fn spec_score(g: GraphView, q: Seq<u8>, w: RecallWeights, i: int) -> u64 {
    let n = g.nodes[i];
    let lex = spec_lexical_milli(assoc_keys(term_counts(q)), node_text(n));
    let gi = spec_graph_influence(spec_indegree(g.edges, n.id));
    let sem = spec_semantic_milli(term_counts(q), n.semantic);
    sat_add64(
        sat_add64(sat_mul64(w.lexical, lex), sat_mul64(w.graph, gi)),
        sat_mul64(w.semantic, sem),
    )
}

/// Node `a` is ranked strictly before node `b`: higher score, then
/// ascending id, then position.
pub open spec fn ranks_before(g: GraphView, q: Seq<u8>, w: RecallWeights, a: int, b: int) -> bool {
    let sa = spec_score(g, q, w, a);
    let sb = spec_score(g, q, w, b);
    ||| sa > sb
    ||| (sa == sb && lex_lt(g.nodes[a].id, g.nodes[b].id))
    ||| (sa == sb && g.nodes[a].id == g.nodes[b].id && a < b)
}

/// Index `x` placed into the ranked order.
pub open spec fn insert_ranked(
    g: GraphView,
    q: Seq<u8>,
    w: RecallWeights,
    s: Seq<usize>,
    x: usize,
) -> Seq<usize>
    decreases s.len(),
{
    if s.len() == 0 {
        seq![x]
    } else if ranks_before(g, q, w, x as int, s[0] as int) {
        seq![x] + s
    } else {
        seq![s[0]] + insert_ranked(g, q, w, s.skip(1), x)
    }
}

/// The ranked order of the first `upto` nodes whose score is positive.
pub open spec fn rank_fold(g: GraphView, q: Seq<u8>, w: RecallWeights, upto: int) -> Seq<usize>
    decreases upto,
{
    if upto <= 0 {
        Seq::empty()
    } else {
        let prev = rank_fold(g, q, w, upto - 1);
        if spec_score(g, q, w, upto - 1) > 0 {
            insert_ranked(g, q, w, prev, (upto - 1) as usize)
        } else {
            prev
        }
    }
}

/// The full ranked order of the graph's nodes with positive score.
pub open spec fn spec_ranking(g: GraphView, q: Seq<u8>, w: RecallWeights) -> Seq<usize> {
    rank_fold(g, q, w, g.nodes.len() as int)
}

/// The ranked rows answered for a query: the ranking truncated to `topk`,
/// ranks numbered from one.
pub open spec fn spec_recall(g: GraphView, q: Seq<u8>, topk: int, w: RecallWeights) -> Seq<
    RecallRowView,
> {
    let order = spec_ranking(g, q, w);
    let cut = if order.len() <= topk {
        order
    } else {
        order.take(topk)
    };
    Seq::new(
        cut.len(),
        |i: int|
            (RecallRowView {
                rank: (i + 1) as usize,
                score: spec_score(g, q, w, cut[i] as int),
                title: g.nodes[cut[i] as int].title,
                path: g.nodes[cut[i] as int].path,
            }),
    )
}

/// Twice the number of distinct query tokens that occur in `text`, in milli
/// units.
#[verifier::loop_isolation(false)]
pub fn lexical_overlap_score(query_tokens: &Vec<Vec<u8>>, text: &[u8]) -> (r: u64)
    ensures
        r == spec_lexical_milli(query_tokens.deep_view(), text@),
{
    let counts = token_counts(text);
    let mut c: usize = 0;
    let mut i: usize = 0;
    proof {
        assert(query_tokens.deep_view().take(0) =~= Seq::<Seq<u8>>::empty());
    }
    while i < query_tokens.len()
        invariant
            i <= query_tokens@.len(),
            c <= i,
            counts.deep_view() == term_counts(text@),
            c as int == overlap_count(query_tokens.deep_view().take(i as int), text@),
        decreases query_tokens@.len() - i,
    {
        let hit = crate::text::find_key(&counts, query_tokens[i].as_slice());
        proof {
            lemma_bytes_deep_view(query_tokens@[i as int]);
            let t1 = query_tokens.deep_view().take(i as int + 1);
            assert(t1.drop_last() =~= query_tokens.deep_view().take(i as int));
            assert(t1.last() == query_tokens.deep_view()[i as int]);
        }
        match hit {
            Some(j) => {
                proof {
                    crate::text::lemma_key_at_unique(
                        counts.deep_view(),
                        query_tokens.deep_view()[i as int],
                        j as int,
                    );
                }
                c += 1;
            },
            None => {
            },
        }
        i += 1;
    }
    proof {
        assert(query_tokens.deep_view().take(query_tokens@.len() as int)
            =~= query_tokens.deep_view());
    }
    mul_sat(2000, c as u64)
}

/// The structural signal for an indegree, in milli units.
pub fn graph_influence(indegree: usize) -> (r: u64)
    ensures
        r == spec_graph_influence(indegree as int),
{
    if indegree >= 10 {
        1000
    } else {
        100 * (indegree as u64)
    }
}

/// The first weight entry for `k`, if any.
fn find_weight(vector: &Vec<(Vec<u8>, u64)>, k: &[u8]) -> (res: Option<usize>)
    ensures
        match res {
            Some(j) => j < vector@.len() && crate::text::key_at(vector.deep_view(), k@, j as int),
            None => !has_key(vector.deep_view(), k@),
        },
{
    let mut j: usize = 0;
    while j < vector.len()
        invariant
            j <= vector@.len(),
            forall|m: int| 0 <= m < j ==> (#[trigger] vector.deep_view()[m]).0 != k@,
        decreases vector@.len() - j,
    {
        let hit = bytes_eq(vector[j].0.as_slice(), k);
        proof {
            lemma_bytes_deep_view(vector@[j as int].0);
            assert(vector.deep_view()[j as int].0 == vector@[j as int].0@);
        }
        if hit {
            return Some(j);
        }
        j += 1;
    }
    proof {
        if has_key(vector.deep_view(), k@) {
            let w = key_index(vector.deep_view(), k@);
            assert(crate::text::key_at(vector.deep_view(), k@, w));
            assert((vector.deep_view()[w]).0 != k@);
        }
    }
    None
}

/// The dot product of the query term counts with a term-weight vector, in
/// milli units, saturating.
#[verifier::loop_isolation(false)]
pub fn semantic_score(query_counts: &Vec<(Vec<u8>, usize)>, vector: &Vec<(Vec<u8>, u64)>) -> (r:
    u64)
    ensures
        r == spec_semantic_milli(query_counts.deep_view(), vector.deep_view()),
{
    let mut r: u64 = 0;
    let mut i: usize = 0;
    proof {
        assert(query_counts.deep_view().take(0) =~= Seq::<(Seq<u8>, usize)>::empty());
    }
    while i < query_counts.len()
        invariant
            i <= query_counts@.len(),
            r == spec_semantic_milli(query_counts.deep_view().take(i as int), vector.deep_view()),
        decreases query_counts@.len() - i,
    {
        let ghost qv = query_counts.deep_view()[i as int];
        proof {
            lemma_bytes_deep_view(query_counts@[i as int].0);
        }
        let wgt: u64 = match find_weight(vector, query_counts[i].0.as_slice()) {
            Some(j) => {
                proof {
                    crate::text::lemma_key_at_unique(vector.deep_view(), qv.0, j as int);
                }
                vector[j].1
            },
            None => 0,
        };
        proof {
            assert(wgt == weight_of(vector.deep_view(), qv.0));
        }
        let c = query_counts[i].1;
        r = add_sat(r, mul_sat(c as u64, wgt));
        proof {
            let t1 = query_counts.deep_view().take(i as int + 1);
            assert(t1.drop_last() =~= query_counts.deep_view().take(i as int));
            assert(t1.last() == qv);
        }
        i += 1;
    }
    proof {
        assert(query_counts.deep_view().take(query_counts@.len() as int)
            =~= query_counts.deep_view());
    }
    r
}

/// Counts the edges whose destination is `id`.
#[verifier::loop_isolation(false)]
pub fn indegree_of(edges: &Vec<Edge>, id: &[u8]) -> (r: usize)
    ensures
        r as int == spec_indegree(edges.deep_view(), id@),
{
    let mut r: usize = 0;
    let mut i: usize = 0;
    proof {
        assert(edges.deep_view().take(0) =~= Seq::<EdgeView>::empty());
    }
    while i < edges.len()
        invariant
            i <= edges@.len(),
            r <= i,
            r as int == spec_indegree(edges.deep_view().take(i as int), id@),
        decreases edges@.len() - i,
    {
        let hit = bytes_eq(edges[i].dst.as_slice(), id);
        proof {
            assert(edges.deep_view()[i as int] == edges@[i as int].deep_view());
            let t1 = edges.deep_view().take(i as int + 1);
            assert(t1.drop_last() =~= edges.deep_view().take(i as int));
            assert(t1.last() == edges.deep_view()[i as int]);
        }
        if hit {
            r += 1;
        }
        i += 1;
    }
    proof {
        assert(edges.deep_view().take(edges@.len() as int) =~= edges.deep_view());
    }
    r
}


/// How many of the first `upto` nodes have a positive score.
pub open spec fn count_positive(g: GraphView, q: Seq<u8>, w: RecallWeights, upto: int) -> int
    decreases upto,
{
    if upto <= 0 {
        0
    } else {
        count_positive(g, q, w, upto - 1) + if spec_score(g, q, w, upto - 1) > 0 {
            1int
        } else {
            0int
        }
    }
}

/// At most `upto` nodes can have a positive score.
proof fn lemma_count_positive_bound(g: GraphView, q: Seq<u8>, w: RecallWeights, upto: int)
    requires
        0 <= upto,
    ensures
        0 <= count_positive(g, q, w, upto) <= upto,
    decreases upto,
{
    if upto > 0 {
        lemma_count_positive_bound(g, q, w, upto - 1);
    }
}

/// A ranked insertion adds one index and invents none.
proof fn lemma_insert_elems(g: GraphView, q: Seq<u8>, w: RecallWeights, s: Seq<usize>, x: usize)
    ensures
        insert_ranked(g, q, w, s, x).len() == s.len() + 1,
        forall|j: int|
            0 <= j < insert_ranked(g, q, w, s, x).len() ==> (#[trigger] insert_ranked(
                g,
                q,
                w,
                s,
                x,
            )[j] == x || s.contains(insert_ranked(g, q, w, s, x)[j])),
    decreases s.len(),
{
    if s.len() == 0 {
    } else if ranks_before(g, q, w, x as int, s[0] as int) {
        assert forall|j: int| 0 <= j < s.len() + 1 implies (#[trigger] insert_ranked(g, q, w, s, x)[j]
            == x || s.contains(insert_ranked(g, q, w, s, x)[j])) by {
            if j > 0 {
                assert(insert_ranked(g, q, w, s, x)[j] == s[j - 1]);
            }
        }
    } else {
        lemma_insert_elems(g, q, w, s.skip(1), x);
        let res = insert_ranked(g, q, w, s, x);
        let sub = insert_ranked(g, q, w, s.skip(1), x);
        assert forall|j: int| 0 <= j < res.len() implies (#[trigger] res[j] == x || s.contains(
            res[j],
        )) by {
            if j == 0 {
                assert(res[0] == s[0]);
                assert(s.contains(s[0]));
            } else {
                assert(res[j] == sub[j - 1]);
                if sub[j - 1] == x {
                } else {
                    let m = choose|m: int| 0 <= m < s.skip(1).len() && s.skip(1)[m] == sub[j - 1];
                    assert(s[m + 1] == sub[j - 1]);
                    assert(s.contains(s[m + 1]));
                }
            }
        }
    }
}

/// The ranked order of the first `upto` nodes lists exactly the
/// positive-score ones among them, each index in range.
proof fn lemma_rank_elems(g: GraphView, q: Seq<u8>, w: RecallWeights, upto: int)
    requires
        0 <= upto <= usize::MAX,
    ensures
        rank_fold(g, q, w, upto).len() == count_positive(g, q, w, upto),
        forall|j: int|
            0 <= j < rank_fold(g, q, w, upto).len() ==> (#[trigger] rank_fold(g, q, w, upto)[j]
                < upto && spec_score(g, q, w, rank_fold(g, q, w, upto)[j] as int) > 0),
    decreases upto,
{
    if upto > 0 {
        lemma_rank_elems(g, q, w, upto - 1);
        let prev = rank_fold(g, q, w, upto - 1);
        if spec_score(g, q, w, upto - 1) > 0 {
            lemma_insert_elems(g, q, w, prev, (upto - 1) as usize);
            let res = rank_fold(g, q, w, upto);
            assert forall|j: int| 0 <= j < res.len() implies (#[trigger] res[j] < upto
                && spec_score(g, q, w, res[j] as int) > 0) by {
                if res[j] == (upto - 1) as usize {
                } else {
                    assert(prev.contains(res[j]));
                    let m = choose|m: int| 0 <= m < prev.len() && prev[m] == res[j];
                }
            }
        }
    }
}

/// Decides `ranks_before` from precomputed scores.
fn before_exec(
    scores: &Vec<u64>,
    nodes: &Vec<Node>,
    a: usize,
    b: usize,
    Ghost(g): Ghost<GraphView>,
    Ghost(q): Ghost<Seq<u8>>,
    Ghost(w): Ghost<RecallWeights>,
) -> (r: bool)
    requires
        a < scores@.len(),
        b < scores@.len(),
        scores@.len() == g.nodes.len(),
        nodes.deep_view() == g.nodes,
        forall|x: int| 0 <= x < scores@.len() ==> scores@[x] == spec_score(g, q, w, x),
    ensures
        r == ranks_before(g, q, w, a as int, b as int),
{
    let sa = scores[a];
    let sb = scores[b];
    if sa > sb {
        true
    } else if sa < sb {
        false
    } else {
        proof {
            assert(nodes.deep_view()[a as int].id == nodes@[a as int].id@);
            assert(nodes.deep_view()[b as int].id == nodes@[b as int].id@);
        }
        if bytes_lt(nodes[a].id.as_slice(), nodes[b].id.as_slice()) {
            true
        } else if bytes_eq(nodes[a].id.as_slice(), nodes[b].id.as_slice()) {
            a < b
        } else {
            false
        }
    }
}

/// Ranks the graph's nodes against a query and answers the top rows.
///
/// Every node is scored with the weighted signals; nodes without any signal
/// are left out entirely; the rest are ordered by descending score, equal
/// scores by ascending node id; the first `topk` rows are answered with
/// ranks numbered from one.
#[verifier::loop_isolation(false)]
#[verifier::rlimit(60)]
pub fn recall_from_graph(
    graph: &GraphData,
    query: &[u8],
    topk: usize,
    weights: &RecallWeights,
) -> (r: Vec<RecallRow>)
    ensures
        r.deep_view() == spec_recall(graph.deep_view(), query@, topk as int, *weights),
{
    let ghost g = graph.deep_view();
    let ghost q = query@;
    let ghost w = *weights;
    let qs = tokens(query);
    let qc = token_counts(query);
    let mut scores: Vec<u64> = Vec::new();
    let mut i: usize = 0;
    while i < graph.nodes.len()
        invariant
            i <= g.nodes.len(),
            scores@.len() == i,
            forall|x: int| 0 <= x < i ==> scores@[x] == spec_score(g, q, w, x),
        decreases g.nodes.len() - i,
    {
        let node = &graph.nodes[i];
        let mut text = copy_bytes(node.title.as_slice());
        text.push(32);
        match &node.path {
            Some(p) => {
                crate::bytes::append_bytes(&mut text, p.as_slice());
            },
            None => {
            },
        }
        proof {
            assert(node.deep_view() == g.nodes[i as int]);
            assert(text@ =~= node_text(g.nodes[i as int]));
        }
        let lex = lexical_overlap_score(&qs, text.as_slice());
        let indeg = indegree_of(&graph.edges, node.id.as_slice());
        let gi = graph_influence(indeg);
        let sem = semantic_score(&qc, &node.semantic);
        let s = add_sat(
            add_sat(mul_sat(weights.lexical, lex), mul_sat(weights.graph, gi)),
            mul_sat(weights.semantic, sem),
        );
        proof {
            assert(s == spec_score(g, q, w, i as int));
        }
        scores.push(s);
        i += 1;
    }
    let mut order: Vec<usize> = Vec::new();
    let mut i2: usize = 0;
    while i2 < graph.nodes.len()
        invariant
            i2 <= g.nodes.len(),
            scores@.len() == g.nodes.len(),
            forall|x: int| 0 <= x < scores@.len() ==> scores@[x] == spec_score(g, q, w, x),
            order@ == rank_fold(g, q, w, i2 as int),
        decreases g.nodes.len() - i2,
    {
        proof {
            lemma_rank_elems(g, q, w, i2 as int);
        }
        if scores[i2] > 0 {
            let ghost ord0 = order@;
            let mut p: usize = 0;
            proof {
                assert(ord0.skip(0) =~= ord0);
                assert(ord0.take(0) + insert_ranked(g, q, w, ord0.skip(0), i2) =~= insert_ranked(
                    g,
                    q,
                    w,
                    ord0,
                    i2,
                ));
            }
            while p < order.len() && !before_exec(
                &scores,
                &graph.nodes,
                i2,
                order[p],
                Ghost(g),
                Ghost(q),
                Ghost(w),
            )
                invariant
                    p <= ord0.len(),
                    order@ == ord0,
                    insert_ranked(g, q, w, ord0, i2) == ord0.take(p as int) + insert_ranked(
                        g,
                        q,
                        w,
                        ord0.skip(p as int),
                        i2,
                    ),
                decreases ord0.len() - p,
            {
                proof {
                    let su = ord0.skip(p as int);
                    assert(su[0] == ord0[p as int]);
                    assert(insert_ranked(g, q, w, su, i2) == seq![su[0]] + insert_ranked(
                        g,
                        q,
                        w,
                        su.skip(1),
                        i2,
                    ));
                    assert(su.skip(1) =~= ord0.skip(p as int + 1));
                    assert(ord0.take(p as int) + (seq![su[0]] + insert_ranked(
                        g,
                        q,
                        w,
                        ord0.skip(p as int + 1),
                        i2,
                    )) =~= ord0.take(p as int + 1) + insert_ranked(
                        g,
                        q,
                        w,
                        ord0.skip(p as int + 1),
                        i2,
                    ));
                }
                p += 1;
            }
            order.insert(p, i2);
            proof {
                if p < ord0.len() {
                    let su = ord0.skip(p as int);
                    assert(su[0] == ord0[p as int]);
                    assert(insert_ranked(g, q, w, su, i2) == seq![i2] + su);
                }
                assert(order@ =~= ord0.take(p as int) + insert_ranked(
                    g,
                    q,
                    w,
                    ord0.skip(p as int),
                    i2,
                ));
                assert(order@ == insert_ranked(g, q, w, ord0, i2));
            }
        }
        proof {
            assert(rank_fold(g, q, w, i2 as int + 1) == order@);
        }
        i2 += 1;
    }
    proof {
        lemma_rank_elems(g, q, w, g.nodes.len() as int);
        assert(order@ == spec_ranking(g, q, w));
    }
    let limit: usize = if topk < order.len() {
        topk
    } else {
        order.len()
    };
    let ghost cut = if spec_ranking(g, q, w).len() <= topk as int {
        spec_ranking(g, q, w)
    } else {
        spec_ranking(g, q, w).take(topk as int)
    };
    proof {
        assert(cut.len() == limit as int);
    }
    let mut rows: Vec<RecallRow> = Vec::new();
    let mut j: usize = 0;
    while j < limit
        invariant
            j <= limit,
            rows.deep_view().len() == j,
            forall|x: int|
                0 <= x < j ==> rows.deep_view()[x] == spec_recall(g, q, topk as int, w)[x],
        decreases limit - j,
    {
        let o = order[j];
        proof {
            assert(cut[j as int] == order@[j as int]);
            assert(o < g.nodes.len());
        }
        let node = &graph.nodes[o];
        let title = copy_bytes(node.title.as_slice());
        let path = match &node.path {
            Some(p) => Some(copy_bytes(p.as_slice())),
            None => None,
        };
        let ghost old_rows = rows.deep_view();
        rows.push(RecallRow { rank: j + 1, score: scores[o], title, path });
        proof {
            assert(node.deep_view() == g.nodes[o as int]);
            assert(rows.deep_view() =~= old_rows.push(spec_recall(g, q, topk as int, w)[j as int]));
        }
        j += 1;
    }
    proof {
        assert(rows.deep_view() =~= spec_recall(g, q, topk as int, w));
    }
    rows
}

/// Every answered row bears a positive score; the answer is no longer than
/// `topk` and than the number of positive-score nodes; ranks run from one
/// without gaps.
pub proof fn lemma_recall_sound(g: GraphView, q: Seq<u8>, topk: int, w: RecallWeights)
    requires
        0 <= topk,
        g.nodes.len() <= usize::MAX,
    ensures
        spec_recall(g, q, topk, w).len() <= topk,
        spec_recall(g, q, topk, w).len() <= count_positive(g, q, w, g.nodes.len() as int),
        forall|i: int|
            0 <= i < spec_recall(g, q, topk, w).len() ==> (#[trigger] spec_recall(
                g,
                q,
                topk,
                w,
            )[i]).score > 0,
        forall|i: int|
            0 <= i < spec_recall(g, q, topk, w).len() ==> (#[trigger] spec_recall(
                g,
                q,
                topk,
                w,
            )[i]).rank == i + 1,
{
    lemma_rank_elems(g, q, w, g.nodes.len() as int);
    let order = spec_ranking(g, q, w);
    let cut = if order.len() <= topk {
        order
    } else {
        order.take(topk)
    };
    assert forall|i: int| 0 <= i < spec_recall(g, q, topk, w).len() implies (#[trigger] spec_recall(
        g,
        q,
        topk,
        w,
    )[i]).score > 0 by {
        assert(cut[i] == order[i]);
        assert(spec_score(g, q, w, order[i] as int) > 0);
    }
    assert forall|i: int| 0 <= i < spec_recall(g, q, topk, w).len() implies (#[trigger] spec_recall(
        g,
        q,
        topk,
        w,
    )[i]).rank == i + 1 by {
        assert(order.len() == count_positive(g, q, w, g.nodes.len() as int));
        lemma_count_positive_bound(g, q, w, g.nodes.len() as int);
        assert(i + 1 <= usize::MAX);
    }
}



/// Lexical overlap is exactly zero whenever the query token set and the
/// text's token set are disjoint.
pub proof fn lemma_disjoint_lexical_zero(qs: Seq<Seq<u8>>, text: Seq<u8>)
    requires
        forall|i: int| 0 <= i < qs.len() ==> !has_key(term_counts(text), #[trigger] qs[i]),
    ensures
        spec_lexical_milli(qs, text) == 0,
    decreases qs.len(),
{
    if qs.len() > 0 {
        lemma_disjoint_lexical_zero(qs.drop_last(), text);
        assert(overlap_count(qs, text) == overlap_count(qs.drop_last(), text));
    }
    assert(sat_mul64(2000u64, 0u64) == 0);
}

/// The structural signal never exceeds one whole unit, whatever the
/// indegree.
pub proof fn lemma_graph_influence_capped(indeg: int)
    requires
        indeg >= 0,
    ensures
        spec_graph_influence(indeg) <= 1000,
{
}


/// The ranking order is total: two distinct positions are always ordered.
proof fn lemma_ranks_total(g: GraphView, q: Seq<u8>, w: RecallWeights, a: int, b: int)
    requires
        a != b,
    ensures
        ranks_before(g, q, w, a, b) || ranks_before(g, q, w, b, a),
{
    let sa = spec_score(g, q, w, a);
    let sb = spec_score(g, q, w, b);
    if sa == sb {
        crate::bytes::lemma_lex_total(g.nodes[a].id, g.nodes[b].id);
    }
}

/// The ranking order is transitive.
proof fn lemma_ranks_trans(g: GraphView, q: Seq<u8>, w: RecallWeights, a: int, b: int, c: int)
    requires
        ranks_before(g, q, w, a, b),
        ranks_before(g, q, w, b, c),
    ensures
        ranks_before(g, q, w, a, c),
{
    let sa = spec_score(g, q, w, a);
    let sb = spec_score(g, q, w, b);
    let sc = spec_score(g, q, w, c);
    if sa == sb && sb == sc {
        if lex_lt(g.nodes[a].id, g.nodes[b].id) && lex_lt(g.nodes[b].id, g.nodes[c].id) {
            crate::bytes::lemma_lex_transitive(g.nodes[a].id, g.nodes[b].id, g.nodes[c].id);
        }
    }
}

/// A sequence of positions in strictly descending ranking order.
pub open spec fn rank_sorted(g: GraphView, q: Seq<u8>, w: RecallWeights, s: Seq<usize>) -> bool {
    forall|i: int, j: int|
        0 <= i < j < s.len() ==> ranks_before(g, q, w, #[trigger] s[i] as int, #[trigger] s[j] as int)
}

/// Inserting a fresh position keeps the order strictly sorted.
proof fn lemma_insert_ranked_sorted(
    g: GraphView,
    q: Seq<u8>,
    w: RecallWeights,
    s: Seq<usize>,
    x: usize,
)
    requires
        rank_sorted(g, q, w, s),
        forall|m: int| 0 <= m < s.len() ==> (#[trigger] s[m]) != x,
    ensures
        rank_sorted(g, q, w, insert_ranked(g, q, w, s, x)),
    decreases s.len(),
{
    let res = insert_ranked(g, q, w, s, x);
    if s.len() == 0 {
    } else if ranks_before(g, q, w, x as int, s[0] as int) {
        assert forall|i: int, j: int| 0 <= i < j < res.len() implies ranks_before(
            g,
            q,
            w,
            #[trigger] res[i] as int,
            #[trigger] res[j] as int,
        ) by {
            if i == 0 {
                assert(res[j] == s[j - 1]);
                if j - 1 > 0 {
                    assert(ranks_before(g, q, w, s[0] as int, s[j - 1] as int));
                    lemma_ranks_trans(g, q, w, x as int, s[0] as int, s[j - 1] as int);
                }
            } else {
                assert(res[i] == s[i - 1]);
                assert(res[j] == s[j - 1]);
            }
        }
    } else {
        assert(rank_sorted(g, q, w, s.skip(1))) by {
            assert forall|i: int, j: int| 0 <= i < j < s.skip(1).len() implies ranks_before(
                g,
                q,
                w,
                #[trigger] s.skip(1)[i] as int,
                #[trigger] s.skip(1)[j] as int,
            ) by {
                assert(s.skip(1)[i] == s[i + 1]);
                assert(s.skip(1)[j] == s[j + 1]);
            }
        }
        assert forall|m: int| 0 <= m < s.skip(1).len() implies (#[trigger] s.skip(1)[m]) != x by {
            assert(s.skip(1)[m] == s[m + 1]);
        }
        lemma_insert_ranked_sorted(g, q, w, s.skip(1), x);
        lemma_insert_elems(g, q, w, s.skip(1), x);
        let sub = insert_ranked(g, q, w, s.skip(1), x);
        lemma_ranks_total(g, q, w, x as int, s[0] as int);
        assert(ranks_before(g, q, w, s[0] as int, x as int));
        assert forall|i: int, j: int| 0 <= i < j < res.len() implies ranks_before(
            g,
            q,
            w,
            #[trigger] res[i] as int,
            #[trigger] res[j] as int,
        ) by {
            if i == 0 {
                assert(res[j] == sub[j - 1]);
                if sub[j - 1] == x {
                } else {
                    assert(s.skip(1).contains(sub[j - 1]));
                    let m = choose|m: int|
                        0 <= m < s.skip(1).len() && s.skip(1)[m] == sub[j - 1];
                    assert(s.skip(1)[m] == s[m + 1]);
                    assert(ranks_before(g, q, w, s[0] as int, s[m + 1] as int));
                }
            } else {
                assert(res[i] == sub[i - 1]);
                assert(res[j] == sub[j - 1]);
            }
        }
    }
}

/// The ranked order of the first `upto` nodes is strictly sorted.
proof fn lemma_rank_fold_sorted(g: GraphView, q: Seq<u8>, w: RecallWeights, upto: int)
    requires
        0 <= upto <= usize::MAX,
    ensures
        rank_sorted(g, q, w, rank_fold(g, q, w, upto)),
    decreases upto,
{
    if upto > 0 {
        lemma_rank_fold_sorted(g, q, w, upto - 1);
        lemma_rank_elems(g, q, w, upto - 1);
        let prev = rank_fold(g, q, w, upto - 1);
        if spec_score(g, q, w, upto - 1) > 0 {
            assert forall|m: int| 0 <= m < prev.len() implies (#[trigger] prev[m]) != (upto - 1)
                as usize by {
                assert(prev[m] < upto - 1);
            }
            lemma_insert_ranked_sorted(g, q, w, prev, (upto - 1) as usize);
        }
    }
}

/// The answered rows come in ranking order: scores never increase from one
/// row to the next, and rows with equal scores come in ascending id order.
pub proof fn lemma_recall_ordered(g: GraphView, q: Seq<u8>, topk: int, w: RecallWeights)
    requires
        0 <= topk,
        g.nodes.len() <= usize::MAX,
    ensures
        forall|i: int, j: int|
            0 <= i < j < spec_recall(g, q, topk, w).len() ==> (#[trigger] spec_recall(
                g,
                q,
                topk,
                w,
            )[i]).score >= (#[trigger] spec_recall(g, q, topk, w)[j]).score,
{
    lemma_rank_fold_sorted(g, q, w, g.nodes.len() as int);
    let order = spec_ranking(g, q, w);
    let cut = if order.len() <= topk {
        order
    } else {
        order.take(topk)
    };
    assert forall|i: int, j: int| 0 <= i < j < spec_recall(g, q, topk, w).len() implies (
    #[trigger] spec_recall(g, q, topk, w)[i]).score >= (#[trigger] spec_recall(
        g,
        q,
        topk,
        w,
    )[j]).score by {
        assert(cut[i] == order[i]);
        assert(cut[j] == order[j]);
        assert(ranks_before(g, q, w, order[i] as int, order[j] as int));
    }
}

} // verus!
