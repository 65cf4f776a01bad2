//! Tokenization: note text is split into maximal runs of letters, digits,
//! underscore and hyphen, each run lowercased, and term counts are gathered
//! over the resulting token sequence.
use vstd::prelude::*;
use vstd::pervasive::VecAdditionalExecFns;

use crate::bytes::bytes_eq;
use crate::bytes::copy_bytes;

verus! {

/// Bytes that may appear inside a token: ASCII letters, digits, `_` and `-`.
pub open spec fn is_token_byte(b: u8) -> bool {
    (97 <= b && b <= 122)  // a-z
        || (65 <= b && b <= 90)  // A-Z
        || (48 <= b && b <= 57)  // 0-9
        || b == 95  // _
        || b == 45  // -
}

/// ASCII lowercase of one byte.
pub open spec fn lower_byte(b: u8) -> u8 {
    if 65 <= b && b <= 90 {
        (b + 32) as u8
    } else {
        b
    }
}

/// The pending partial token, emitted when a run ends.
pub open spec fn flush(cur: Seq<u8>) -> Seq<Seq<u8>> {
    if cur.len() > 0 {
        seq![cur]
    } else {
        Seq::empty()
    }
}

/// Tokens still to come when scanning `s` from position `i` with the partial
/// (already lowercased) token `cur` at hand.
pub open spec fn tokens_from(s: Seq<u8>, i: int, cur: Seq<u8>) -> Seq<Seq<u8>>
    decreases s.len() - i,
{
    if i < 0 || i >= s.len() {
        flush(cur)
    } else if is_token_byte(s[i]) {
        tokens_from(s, i + 1, cur.push(lower_byte(s[i])))
    } else {
        flush(cur) + tokens_from(s, i + 1, Seq::empty())
    }
}

/// The tokens of a text: maximal runs of token bytes, lowercased, in text
/// order, duplicates kept.
pub open spec fn text_tokens(s: Seq<u8>) -> Seq<Seq<u8>> {
    tokens_from(s, 0, Seq::empty())
}

/// `j` is the position of the first entry of `acc` whose key is `k`.
pub open spec fn key_at<V>(acc: Seq<(Seq<u8>, V)>, k: Seq<u8>, j: int) -> bool {
    &&& 0 <= j < acc.len()
    &&& acc[j].0 == k
    &&& forall|m: int| 0 <= m < j ==> (#[trigger] acc[m]).0 != k
}

/// Some entry of `acc` has key `k`.
pub open spec fn has_key<V>(acc: Seq<(Seq<u8>, V)>, k: Seq<u8>) -> bool {
    exists|j: int| key_at(acc, k, j)
}

/// The position of the first entry of `acc` whose key is `k`.
pub open spec fn key_index<V>(acc: Seq<(Seq<u8>, V)>, k: Seq<u8>) -> int {
    choose|j: int| key_at(acc, k, j)
}

/// One token counted: the entry for `k` is incremented, or appended with
/// count 1 when `k` is new.
pub open spec fn bump(acc: Seq<(Seq<u8>, usize)>, k: Seq<u8>) -> Seq<(Seq<u8>, usize)> {
    if has_key(acc, k) {
        let j = key_index(acc, k);
        acc.update(j, (k, (acc[j].1 + 1) as usize))
    } else {
        acc.push((k, 1usize))
    }
}

/// Counts of a token sequence, keys in first-occurrence order.
pub open spec fn counts_fold(toks: Seq<Seq<u8>>) -> Seq<(Seq<u8>, usize)>
    decreases toks.len(),
{
    if toks.len() == 0 {
        Seq::empty()
    } else {
        bump(counts_fold(toks.drop_last()), toks.last())
    }
}

/// Term counts of a text: counts of its token sequence.
pub open spec fn term_counts(s: Seq<u8>) -> Seq<(Seq<u8>, usize)> {
    counts_fold(text_tokens(s))
}

/// The keys of an association list, in order.
pub open spec fn assoc_keys<V>(acc: Seq<(Seq<u8>, V)>) -> Seq<Seq<u8>> {
    Seq::new(acc.len(), |i: int| acc[i].0)
}

/// The count stored for `k`, 0 when absent.
pub open spec fn count_of(acc: Seq<(Seq<u8>, usize)>, k: Seq<u8>) -> usize {
    if has_key(acc, k) {
        acc[key_index(acc, k)].1
    } else {
        0
    }
}

/// Decides `is_token_byte(b)`.
fn is_token(b: u8) -> (r: bool)
    ensures
        r == is_token_byte(b),
{
    (97 <= b && b <= 122)  // a-z
        || (65 <= b && b <= 90)  // A-Z
        || (48 <= b && b <= 57)  // 0-9
        || b == 95  // _
        || b == 45  // -
}

/// Computes `lower_byte(b)`.
fn to_lower(b: u8) -> (r: u8)
    ensures
        r == lower_byte(b),
{
    if 65 <= b && b <= 90 {
        b + 32
    } else {
        b
    }
}

/// All tokens of `text` in order, duplicates kept.
pub fn token_runs(text: &[u8]) -> (r: Vec<Vec<u8>>)
    ensures
        r.deep_view() == text_tokens(text@),
{
    let mut r: Vec<Vec<u8>> = Vec::new();
    let mut cur: Vec<u8> = Vec::new();
    let mut i: usize = 0;
    while i < text.len()
        invariant
            i <= text@.len(),
            text_tokens(text@) == r.deep_view() + tokens_from(text@, i as int, cur@),
        decreases text@.len() - i,
    {
        let b = text[i];
        if is_token(b) {
            cur.push(to_lower(b));
        } else {
            if cur.len() > 0 {
                let ghost old_r = r.deep_view();
                let ghost done = cur@;
                proof {
                    crate::bytes::lemma_bytes_deep_view(cur);
                }
                r.push(cur);
                cur = Vec::new();
                proof {
                    assert(r.deep_view() =~= old_r.push(done));
                    assert(old_r.push(done) =~= old_r + flush(done));
                    assert(r.deep_view() + tokens_from(text@, i as int + 1, cur@) =~= old_r + (
                    flush(done) + tokens_from(text@, i as int + 1, Seq::empty())));
                }
            } else {
                proof {
                    assert(cur@ =~= Seq::<u8>::empty());
                    assert(flush(cur@) + tokens_from(text@, i as int + 1, cur@) =~= tokens_from(
                        text@,
                        i as int + 1,
                        cur@,
                    ));
                }
            }
        }
        i += 1;
    }
    if cur.len() > 0 {
        let ghost old_r = r.deep_view();
        let ghost done = cur@;
        proof {
            crate::bytes::lemma_bytes_deep_view(cur);
        }
        r.push(cur);
        proof {
            assert(r.deep_view() =~= old_r.push(done));
            assert(old_r.push(done) =~= old_r + flush(done));
        }
    } else {
        proof {
            assert(r.deep_view() + flush(cur@) =~= r.deep_view());
        }
    }
    r
}

/// A first-match position determines `has_key` and `key_index`.
pub proof fn lemma_key_at_unique<V>(acc: Seq<(Seq<u8>, V)>, k: Seq<u8>, j: int)
    requires
        key_at(acc, k, j),
    ensures
        has_key(acc, k),
        key_index(acc, k) == j,
{
    assert(has_key(acc, k));
    let w = key_index(acc, k);
    assert(key_at(acc, k, w));
    if w < j {
        assert((acc[w]).0 != k);
    }
    if j < w {
        assert((acc[j]).0 != k);
    }
}

/// An entry bearing the key anywhere in the list means the key is present.
pub proof fn lemma_found_has_key<V>(acc: Seq<(Seq<u8>, V)>, k: Seq<u8>, m: int)
    requires
        0 <= m < acc.len(),
        (acc[m]).0 == k,
    ensures
        has_key(acc, k),
    decreases m,
{
    if forall|x: int| 0 <= x < m ==> (#[trigger] acc[x]).0 != k {
        assert(key_at(acc, k, m));
    } else {
        let x = choose|x: int| 0 <= x < m && (#[trigger] acc[x]).0 == k;
        lemma_found_has_key(acc, k, x);
    }
}

/// The gathered counts agree with the token sequence: a key is present
/// exactly when the token occurs, and its count is the token's number of
/// occurrences.
pub proof fn lemma_counts_are_occurrences(toks: Seq<Seq<u8>>, k: Seq<u8>)
    requires
        toks.len() <= usize::MAX,
    ensures
        has_key(counts_fold(toks), k) <==> toks.contains(k),
        count_of(counts_fold(toks), k) as int == toks.to_multiset().count(k),
        count_of(counts_fold(toks), k) <= toks.len(),
    decreases toks.len(),
{
    broadcast use vstd::seq_lib::group_to_multiset_ensures;

    if toks.len() == 0 {
        assert(toks.to_multiset().count(k) == 0) by {
            assert(!toks.contains(k));
        }
    } else {
        let prev = toks.drop_last();
        let kk = toks.last();
        let acc = counts_fold(prev);
        lemma_counts_are_occurrences(prev, k);
        lemma_counts_are_occurrences(prev, kk);
        assert(prev.push(kk) =~= toks);
        assert(toks.to_multiset() =~= prev.to_multiset().insert(kk));
        assert(toks.contains(kk)) by {
            assert(toks[toks.len() - 1] == kk);
        }
        assert(prev.contains(k) ==> toks.contains(k)) by {
            if prev.contains(k) {
                let i = choose|i: int| 0 <= i < prev.len() && prev[i] == k;
                assert(toks[i] == k);
            }
        }
        if k != kk {
            assert(toks.contains(k) ==> prev.contains(k)) by {
                if toks.contains(k) {
                    let i = choose|i: int| 0 <= i < toks.len() && toks[i] == k;
                    assert(i < prev.len());
                    assert(prev[i] == k);
                }
            }
        }
        if has_key(acc, kk) {
            let j = key_index(acc, kk);
            assert(key_at(acc, kk, j));
            let res = acc.update(j, (kk, (acc[j].1 + 1) as usize));
            assert(counts_fold(toks) == res);
            assert(forall|m: int| 0 <= m < res.len() ==> (#[trigger] res[m]).0 == (acc[m]).0);
            assert(key_at(res, kk, j));
            lemma_key_at_unique(res, kk, j);
            assert(acc[j].1 == count_of(acc, kk));
            if k == kk {
                assert(count_of(res, kk) == acc[j].1 + 1);
            } else {
                assert(has_key(res, k) <==> has_key(acc, k)) by {
                    if has_key(acc, k) {
                        let x = key_index(acc, k);
                        assert(key_at(acc, k, x));
                        assert(key_at(res, k, x));
                    }
                    if has_key(res, k) {
                        let x = key_index(res, k);
                        assert(key_at(res, k, x));
                        assert((acc[x]).0 == k);
                        assert forall|m: int| 0 <= m < x implies (#[trigger] acc[m]).0 != k by {
                            assert((res[m]).0 != k);
                        }
                        assert(key_at(acc, k, x));
                    }
                }
                if has_key(acc, k) {
                    let x = key_index(acc, k);
                    assert(key_at(acc, k, x));
                    assert((res[x]).0 == k);
                    assert forall|m: int| 0 <= m < x implies (#[trigger] res[m]).0 != k by {
                        assert((acc[m]).0 != k);
                    }
                    assert(key_at(res, k, x));
                    lemma_key_at_unique(res, k, x);
                    assert(x != j);
                    assert(count_of(res, k) == acc[x].1);
                }
            }
        } else {
            let res = acc.push((kk, 1usize));
            assert(counts_fold(toks) == res);
            assert(forall|m: int| 0 <= m < acc.len() ==> (#[trigger] res[m]) == acc[m]);
            assert(key_at(res, kk, acc.len() as int)) by {
                assert forall|m: int| 0 <= m < acc.len() implies (#[trigger] res[m]).0 != kk by {
                    if (acc[m]).0 == kk {
                        lemma_found_has_key(acc, kk, m);
                    }
                }
            }
            lemma_key_at_unique(res, kk, acc.len() as int);
            if k == kk {
                assert(count_of(res, kk) == 1);
                assert(!prev.contains(kk));
                assert(prev.to_multiset().count(kk) == 0);
            } else {
                assert(has_key(res, k) <==> has_key(acc, k)) by {
                    if has_key(acc, k) {
                        let x = key_index(acc, k);
                        assert(key_at(acc, k, x));
                        assert(key_at(res, k, x));
                    }
                    if has_key(res, k) {
                        let x = key_index(res, k);
                        assert(key_at(res, k, x));
                        assert(x < acc.len());
                        assert((acc[x]).0 == k);
                        assert forall|m: int| 0 <= m < x implies (#[trigger] acc[m]).0 != k by {
                            assert((res[m]).0 != k);
                        }
                        assert(key_at(acc, k, x));
                    }
                }
                if has_key(acc, k) {
                    let x = key_index(acc, k);
                    assert(key_at(acc, k, x));
                    assert((res[x]).0 == k);
                    assert forall|m: int| 0 <= m < x implies (#[trigger] res[m]).0 != k by {
                        assert((acc[m]).0 != k);
                    }
                    assert(key_at(res, k, x));
                    lemma_key_at_unique(res, k, x);
                    assert(count_of(res, k) == acc[x].1);
                }
            }
        }
    }
}

/// A text yields at most one token per byte, plus the pending run.
proof fn lemma_tokens_from_len(s: Seq<u8>, i: int, cur: Seq<u8>)
    requires
        0 <= i <= s.len(),
    ensures
        tokens_from(s, i, cur).len() <= s.len() - i + 1,
    decreases s.len() - i,
{
    if i < s.len() {
        if is_token_byte(s[i]) {
            lemma_tokens_from_len(s, i + 1, cur.push(lower_byte(s[i])));
        } else {
            lemma_tokens_from_len(s, i + 1, Seq::empty());
        }
    }
}

/// The distinct keys of the term counts are exactly the tokens that occur
/// in the text.
pub proof fn lemma_token_set(s: Seq<u8>, t: Seq<u8>)
    requires
        s.len() < usize::MAX,
    ensures
        assoc_keys(term_counts(s)).contains(t) <==> text_tokens(s).contains(t),
{
    lemma_tokens_from_len(s, 0, Seq::empty());
    lemma_counts_are_occurrences(text_tokens(s), t);
    if assoc_keys(term_counts(s)).contains(t) {
        let j = choose|j: int|
            0 <= j < assoc_keys(term_counts(s)).len() && assoc_keys(term_counts(s))[j] == t;
        assert((term_counts(s)[j]).0 == t);
        lemma_found_has_key(term_counts(s), t, j);
    }
    if has_key(term_counts(s), t) {
        let j = key_index(term_counts(s), t);
        assert(key_at(term_counts(s), t, j));
        assert(assoc_keys(term_counts(s))[j] == t);
    }
}

/// The first entry of `acc` whose key equals `k`, if any.
pub(crate) fn find_key(acc: &Vec<(Vec<u8>, usize)>, k: &[u8]) -> (r: Option<usize>)
    ensures
        match r {
            Some(j) => j < acc@.len() && key_at(acc.deep_view(), k@, j as int),
            None => !has_key(acc.deep_view(), k@),
        },
{
    let mut j: usize = 0;
    while j < acc.len()
        invariant
            j <= acc@.len(),
            forall|m: int| 0 <= m < j ==> (#[trigger] acc.deep_view()[m]).0 != k@,
        decreases acc@.len() - j,
    {
        let hit = bytes_eq(acc[j].0.as_slice(), k);
        proof {
            crate::bytes::lemma_bytes_deep_view(acc@[j as int].0);
            assert(acc.deep_view()[j as int].0 == acc@[j as int].0@);
        }
        if hit {
            return Some(j);
        }
        j += 1;
    }
    proof {
        if has_key(acc.deep_view(), k@) {
            let w = key_index(acc.deep_view(), k@);
            assert(key_at(acc.deep_view(), k@, w));
            assert((acc.deep_view()[w]).0 != k@);
        }
    }
    None
}

/// Term counts of `text`: one entry per distinct token, keys in
/// first-occurrence order, each count the number of times the token occurs.
pub fn token_counts(text: &[u8]) -> (r: Vec<(Vec<u8>, usize)>)
    ensures
        r.deep_view() == term_counts(text@),
{
    let runs = token_runs(text);
    let mut acc: Vec<(Vec<u8>, usize)> = Vec::new();
    let mut i: usize = 0;
    proof {
        assert(runs.deep_view().take(0) =~= Seq::<Seq<u8>>::empty());
    }
    while i < runs.len()
        invariant
            i <= runs@.len(),
            runs.deep_view() == text_tokens(text@),
            acc.deep_view() == counts_fold(runs.deep_view().take(i as int)),
            forall|m: int| 0 <= m < acc@.len() ==> (#[trigger] acc.deep_view()[m]).1 <= i,
        decreases runs@.len() - i,
    {
        let ghost pre = acc.deep_view();
        let ghost tok = runs.deep_view()[i as int];
        proof {
            crate::bytes::lemma_bytes_deep_view(runs@[i as int]);
            assert(tok == runs@[i as int]@);
        }
        match find_key(&acc, runs[i].as_slice()) {
            Some(j) => {
                proof {
                    assert(key_at(pre, tok, j as int));
                    assert(has_key(pre, tok));
                    let w = key_index(pre, tok);
                    assert(key_at(pre, tok, w));
                    assert(w == j as int) by {
                        if w < j as int {
                            assert((pre[w]).0 != tok);
                        }
                        if (j as int) < w {
                            assert((pre[j as int]).0 != tok);
                        }
                    }
                }
                let c = acc[j].1;
                let key = copy_bytes(acc[j].0.as_slice());
                proof {
                    crate::bytes::lemma_bytes_deep_view(key);
                    crate::bytes::lemma_bytes_deep_view(acc@[j as int].0);
                }
                acc.set(j, (key, c + 1));
                proof {
                    assert(acc.deep_view() =~= bump(pre, tok));
                }
            },
            None => {
                let key = copy_bytes(runs[i].as_slice());
                proof {
                    crate::bytes::lemma_bytes_deep_view(key);
                }
                acc.push((key, 1));
                proof {
                    assert(acc.deep_view() =~= bump(pre, tok));
                }
            },
        }
        proof {
            assert(runs.deep_view().take(i as int + 1).drop_last() =~= runs.deep_view().take(
                i as int,
            ));
            assert(runs.deep_view().take(i as int + 1).last() == tok);
            assert(counts_fold(runs.deep_view().take(i as int + 1)) == bump(pre, tok));
        }
        i += 1;
    }
    proof {
        assert(runs.deep_view().take(runs@.len() as int) =~= runs.deep_view());
    }
    acc
}

/// The distinct tokens of `text`, in first-occurrence order.
pub fn tokens(text: &[u8]) -> (r: Vec<Vec<u8>>)
    ensures
        r.deep_view() == assoc_keys(term_counts(text@)),
{
    let counts = token_counts(text);
    let mut r: Vec<Vec<u8>> = Vec::new();
    let mut i: usize = 0;
    while i < counts.len()
        invariant
            i <= counts@.len(),
            counts.deep_view() == term_counts(text@),
            r.deep_view() =~= assoc_keys(term_counts(text@)).take(i as int),
        decreases counts@.len() - i,
    {
        let ghost old_r = r.deep_view();
        let key = copy_bytes(counts[i].0.as_slice());
        proof {
            crate::bytes::lemma_bytes_deep_view(key);
            crate::bytes::lemma_bytes_deep_view(counts@[i as int].0);
        }
        r.push(key);
        proof {
            assert(r.deep_view() =~= old_r.push(counts.deep_view()[i as int].0));
            assert(r.deep_view() =~= assoc_keys(term_counts(text@)).take(i as int + 1));
        }
        i += 1;
    }
    proof {
        assert(assoc_keys(term_counts(text@)).take(counts@.len() as int) =~= assoc_keys(
            term_counts(text@),
        ));
    }
    r
}

} // verus!
