//! The benchmark harness: the ranker driven over a labeled query set with
//! fixed equal weights, hits recorded, and hit counts aggregated at ranks
//! one, three and five.
//!
//! Wall-clock latency is measured by the caller around `evaluate_query`;
//! nothing here depends on time.
use vstd::prelude::*;

use crate::bytes::bytes_eq;
use crate::bytes::copy_bytes;
use crate::bytes::lemma_bytes_deep_view;
use crate::graph::GraphData;
use crate::graph::GraphView;
use crate::recall::RecallRowView;
use crate::recall::RecallWeights;
use crate::recall::recall_from_graph;
use crate::recall::spec_recall;

verus! {

/// One labeled benchmark query: the query text and the identifiers counted
/// as correct answers.
pub struct BenchmarkQuery {
    pub query: Vec<u8>,
    pub expected: Vec<Vec<u8>>,
}

/// The mathematical shadow of a `BenchmarkQuery`.
pub ghost struct BenchmarkQueryView {
    pub query: Seq<u8>,
    pub expected: Seq<Seq<u8>>,
}

impl DeepView for BenchmarkQuery {
    type V = BenchmarkQueryView;

    open spec fn deep_view(&self) -> BenchmarkQueryView {
        BenchmarkQueryView { query: self.query@, expected: self.expected.deep_view() }
    }
}

/// One query's outcome: the rank and identifier of the first hit, absent on
/// a miss.
pub struct QuerySummary {
    pub query: Vec<u8>,
    pub hit_rank: Option<usize>,
    pub hit_path: Option<Vec<u8>>,
}

/// The mathematical shadow of a `QuerySummary`.
pub ghost struct QuerySummaryView {
    pub query: Seq<u8>,
    pub hit_rank: Option<usize>,
    pub hit_path: Option<Seq<u8>>,
}

impl DeepView for QuerySummary {
    type V = QuerySummaryView;

    open spec fn deep_view(&self) -> QuerySummaryView {
        QuerySummaryView {
            query: self.query@,
            hit_rank: self.hit_rank,
            hit_path: match self.hit_path {
                Some(p) => Some(p@),
                None => None,
            },
        }
    }
}

/// Aggregated benchmark results: hit counts at ranks one, three and five,
/// the number of queries, and each query's outcome.
pub struct BenchmarkReport {
    pub hit_at_1: usize,
    pub hit_at_3: usize,
    pub hit_at_5: usize,
    pub total: usize,
    pub queries: Vec<QuerySummary>,
}

/// The fixed equal weights the benchmark ranks with: 1.0 for each signal.
pub open spec fn equal_weights() -> RecallWeights {
    RecallWeights { lexical: 1000, graph: 1000, semantic: 1000 }
}

/// Whether `x` is one of the strings of `set`.
pub open spec fn in_set(set: Seq<Seq<u8>>, x: Seq<u8>) -> bool {
    exists|i: int| 0 <= i < set.len() && set[i] == x
}

/// Whether a ranked row counts as a hit: its path, or else its title, is
/// among the expected identifiers.
pub open spec fn row_matches(row: RecallRowView, expected: Seq<Seq<u8>>) -> bool {
    (match row.path {
        Some(p) => in_set(expected, p),
        None => false,
    }) || in_set(expected, row.title)
}

/// The identifier a hit is recorded under: the row's path when present,
/// else its title.
pub open spec fn row_ident(row: RecallRowView) -> Seq<u8> {
    match row.path {
        Some(p) => p,
        None => row.title,
    }
}

/// The first hit at or after position `i`: its 1-based rank and identifier.
pub open spec fn first_hit(rows: Seq<RecallRowView>, expected: Seq<Seq<u8>>, i: int) -> Option<
    (usize, Seq<u8>),
>
    decreases rows.len() - i,
{
    if i < 0 || i >= rows.len() {
        None
    } else if row_matches(rows[i], expected) {
        Some((((i + 1) as usize), row_ident(rows[i])))
    } else {
        first_hit(rows, expected, i + 1)
    }
}

/// One query's outcome against the graph: the first hit among the `topk`
/// ranked rows.
pub open spec fn spec_query_hit(g: GraphView, topk: int, bq: BenchmarkQueryView) -> Option<
    (usize, Seq<u8>),
> {
    first_hit(spec_recall(g, bq.query, topk, equal_weights()), bq.expected, 0)
}

/// How many of the queries hit at rank `k` or better.
pub open spec fn hits_fold(g: GraphView, topk: int, ds: Seq<BenchmarkQueryView>, k: int) -> int
    decreases ds.len(),
{
    if ds.len() == 0 {
        0
    } else {
        hits_fold(g, topk, ds.drop_last(), k) + (match spec_query_hit(g, topk, ds.last()) {
            Some(h) => {
                if h.0 <= k {
                    1int
                } else {
                    0int
                }
            },
            None => 0int,
        })
    }
}

/// Whether `x` occurs in the list.
fn in_list(set: &Vec<Vec<u8>>, x: &[u8]) -> (r: bool)
    ensures
        r == in_set(set.deep_view(), x@),
{
    let mut i: usize = 0;
    while i < set.len()
        invariant
            i <= set@.len(),
            forall|m: int| 0 <= m < i ==> set.deep_view()[m] != x@,
        decreases set@.len() - i,
    {
        let hit = bytes_eq(set[i].as_slice(), x);
        proof {
            lemma_bytes_deep_view(set@[i as int]);
            assert(set.deep_view()[i as int] == set@[i as int]@);
        }
        if hit {
            proof {
                assert(in_set(set.deep_view(), x@));
            }
            return true;
        }
        i += 1;
    }
    proof {
        if in_set(set.deep_view(), x@) {
            let m = choose|m: int| 0 <= m < set.deep_view().len() && set.deep_view()[m] == x@;
            assert(set.deep_view()[m] != x@);
        }
    }
    false
}

/// Runs one benchmark query: ranks with equal weights and scans the rows in
/// order for the first whose path or title is expected.
#[verifier::loop_isolation(false)]
pub fn evaluate_query(graph: &GraphData, bq: &BenchmarkQuery, topk: usize) -> (r: Option<
    (usize, Vec<u8>),
>)
    ensures
        (match r {
            Some(h) => spec_query_hit(graph.deep_view(), topk as int, bq.deep_view()) == Some(
                (h.0, h.1@),
            ),
            None => spec_query_hit(graph.deep_view(), topk as int, bq.deep_view()) is None,
        }),
{
    let weights = RecallWeights { lexical: 1000, graph: 1000, semantic: 1000 };
    proof {
        assert(weights == equal_weights());
    }
    let rows = recall_from_graph(graph, bq.query.as_slice(), topk, &weights);
    let ghost rv = rows.deep_view();
    let ghost ev = bq.deep_view().expected;
    let mut i: usize = 0;
    while i < rows.len()
        invariant
            i <= rv.len(),
            first_hit(rv, ev, 0) == first_hit(rv, ev, i as int),
        decreases rv.len() - i,
    {
        let row = &rows[i];
        proof {
            assert(row.deep_view() == rv[i as int]);
        }
        let by_path = match &row.path {
            Some(p) => in_list(&bq.expected, p.as_slice()),
            None => false,
        };
        let matched = by_path || in_list(&bq.expected, row.title.as_slice());
        proof {
            assert(matched == row_matches(rv[i as int], ev));
        }
        if matched {
            let ident = match &row.path {
                Some(p) => copy_bytes(p.as_slice()),
                None => copy_bytes(row.title.as_slice()),
            };
            proof {
                assert(ident@ == row_ident(rv[i as int]));
            }
            return Some((i + 1, ident));
        }
        i += 1;
    }
    None
}

/// Runs every benchmark query and aggregates hit counts at ranks one, three
/// and five. A miss counts toward none; the counts over the total give the
/// hit fractions.
#[verifier::loop_isolation(false)]
pub fn run_benchmark(graph: &GraphData, dataset: &Vec<BenchmarkQuery>, topk: usize) -> (r:
    BenchmarkReport)
    ensures
        r.hit_at_1 as int == hits_fold(graph.deep_view(), topk as int, dataset.deep_view(), 1),
        r.hit_at_3 as int == hits_fold(graph.deep_view(), topk as int, dataset.deep_view(), 3),
        r.hit_at_5 as int == hits_fold(graph.deep_view(), topk as int, dataset.deep_view(), 5),
        r.total == dataset@.len(),
        r.queries@.len() == dataset@.len(),
        forall|i: int|
            0 <= i < dataset@.len() ==> {
                let s = #[trigger] r.queries.deep_view()[i];
                let bq = dataset.deep_view()[i];
                &&& s.query == bq.query
                &&& (match spec_query_hit(graph.deep_view(), topk as int, bq) {
                    Some(h) => s.hit_rank == Some(h.0) && s.hit_path == Some(h.1),
                    None => s.hit_rank is None && s.hit_path is None,
                })
            },
{
    let ghost gv = graph.deep_view();
    let ghost dv = dataset.deep_view();
    let mut hit1: usize = 0;
    let mut hit3: usize = 0;
    let mut hit5: usize = 0;
    let mut queries: Vec<QuerySummary> = Vec::new();
    let mut i: usize = 0;
    proof {
        assert(dv.take(0) =~= Seq::<BenchmarkQueryView>::empty());
    }
    while i < dataset.len()
        invariant
            i <= dv.len(),
            hit1 <= i,
            hit3 <= i,
            hit5 <= i,
            hit1 as int == hits_fold(gv, topk as int, dv.take(i as int), 1),
            hit3 as int == hits_fold(gv, topk as int, dv.take(i as int), 3),
            hit5 as int == hits_fold(gv, topk as int, dv.take(i as int), 5),
            queries@.len() == i,
            forall|x: int|
                0 <= x < i ==> {
                    let s = #[trigger] queries.deep_view()[x];
                    let bq = dv[x];
                    &&& s.query == bq.query
                    &&& (match spec_query_hit(gv, topk as int, bq) {
                        Some(h) => s.hit_rank == Some(h.0) && s.hit_path == Some(h.1),
                        None => s.hit_rank is None && s.hit_path is None,
                    })
                },
        decreases dv.len() - i,
    {
        let outcome = evaluate_query(graph, &dataset[i], topk);
        proof {
            assert(dataset@[i as int].deep_view() == dv[i as int]);
            let t1 = dv.take(i as int + 1);
            assert(t1.drop_last() =~= dv.take(i as int));
            assert(t1.last() == dv[i as int]);
        }
        let q = copy_bytes(dataset[i].query.as_slice());
        let ghost old_q = queries.deep_view();
        match outcome {
            Some(h) => {
                if h.0 <= 1 {
                    hit1 += 1;
                }
                if h.0 <= 3 {
                    hit3 += 1;
                }
                if h.0 <= 5 {
                    hit5 += 1;
                }
                let s = QuerySummary { query: q, hit_rank: Some(h.0), hit_path: Some(h.1) };
                let ghost sv = s.deep_view();
                queries.push(s);
                proof {
                    assert(queries.deep_view() =~= old_q.push(sv));
                }
            },
            None => {
                let s = QuerySummary { query: q, hit_rank: None, hit_path: None };
                let ghost sv = s.deep_view();
                queries.push(s);
                proof {
                    assert(queries.deep_view() =~= old_q.push(sv));
                }
            },
        }
        i += 1;
    }
    proof {
        assert(dv.take(dv.len() as int) =~= dv);
    }
    BenchmarkReport { hit_at_1: hit1, hit_at_3: hit3, hit_at_5: hit5, total: dataset.len(), queries }
}

/// Hits at rank one are hits at rank three, and those at rank five: the
/// counts never decrease with the threshold, and never pass the dataset
/// size.
pub proof fn lemma_hits_monotonic(g: GraphView, topk: int, ds: Seq<BenchmarkQueryView>)
    ensures
        0 <= hits_fold(g, topk, ds, 1) <= hits_fold(g, topk, ds, 3),
        hits_fold(g, topk, ds, 3) <= hits_fold(g, topk, ds, 5),
        hits_fold(g, topk, ds, 5) <= ds.len(),
    decreases ds.len(),
{
    if ds.len() > 0 {
        lemma_hits_monotonic(g, topk, ds.drop_last());
    }
}

} // verus!
