//! Cross-reference extraction: note bodies are scanned for bracketed markers
//! of the form `[[target]]`, optionally followed by a heading fragment
//! (`#...`) and a display alias (`|...`), both stripped; the raw target text
//! is kept with surrounding ASCII whitespace trimmed.
use vstd::prelude::*;

use crate::bytes::copy_bytes;
use crate::bytes::lemma_bytes_deep_view;
use crate::paths::spec_file_name;
use crate::text::lower_byte;

verus! {

/// Bytes allowed in the target text: anything but `]`, `|`, `#`.
pub open spec fn target_ok() -> spec_fn(u8) -> bool {
    |b: u8| b != 93 && b != 124 && b != 35
}

/// Bytes allowed in a heading fragment: anything but `]`, `|`.
pub open spec fn frag_ok() -> spec_fn(u8) -> bool {
    |b: u8| b != 93 && b != 124
}

/// Bytes allowed in a display alias: anything but `]`.
pub open spec fn alias_ok() -> spec_fn(u8) -> bool {
    |b: u8| b != 93
}

/// The first position at or after `i` whose byte fails `ok`, or the end.
pub open spec fn run_stop(s: Seq<u8>, i: int, ok: spec_fn(u8) -> bool) -> int
    decreases s.len() - i,
{
    if i < 0 || i >= s.len() || !ok(s[i]) {
        i
    } else {
        run_stop(s, i + 1, ok)
    }
}

/// The closing pair `]]` expected at `q`; on success the raw target is
/// `s[i+2 .. g]` and the marker ends at `q + 2`.
pub open spec fn link_close(s: Seq<u8>, i: int, g: int, q: int) -> Option<(Seq<u8>, int)> {
    if q + 1 < s.len() && s[q] == 93 && s[q + 1] == 93 {
        Some((s.subrange(i + 2, g), q + 2))
    } else {
        None
    }
}

/// The optional alias part starting at `h`, then the closing pair.
pub open spec fn link_alias(s: Seq<u8>, i: int, g: int, h: int) -> Option<(Seq<u8>, int)> {
    if h < s.len() && s[h] == 124 {
        let q = run_stop(s, h + 1, alias_ok());
        if q == h + 1 {
            None
        } else {
            link_close(s, i, g, q)
        }
    } else {
        link_close(s, i, g, h)
    }
}

/// A cross-reference marker starting exactly at `i`: `[[`, a non-empty
/// target, an optional non-empty `#` fragment, an optional non-empty `|`
/// alias, and `]]`. Yields the raw target text and the end position.
pub open spec fn link_at(s: Seq<u8>, i: int) -> Option<(Seq<u8>, int)> {
    if !(0 <= i && i + 1 < s.len() && s[i] == 91 && s[i + 1] == 91) {
        None
    } else {
        let g = run_stop(s, i + 2, target_ok());
        if g == i + 2 {
            None
        } else if g < s.len() && s[g] == 35 {
            let h = run_stop(s, g + 1, frag_ok());
            if h == g + 1 {
                None
            } else {
                link_alias(s, i, g, h)
            }
        } else {
            link_alias(s, i, g, g)
        }
    }
}

/// ASCII whitespace.
pub open spec fn is_space(b: u8) -> bool {
    b == 32 || b == 9 || b == 10 || b == 13
}

/// `s` without leading ASCII whitespace.
pub open spec fn trim_front(s: Seq<u8>) -> Seq<u8>
    decreases s.len(),
{
    if s.len() > 0 && is_space(s[0]) {
        trim_front(s.skip(1))
    } else {
        s
    }
}

/// `s` without trailing ASCII whitespace.
pub open spec fn trim_back(s: Seq<u8>) -> Seq<u8>
    decreases s.len(),
{
    if s.len() > 0 && is_space(s.last()) {
        trim_back(s.drop_last())
    } else {
        s
    }
}

/// `s` without leading and trailing ASCII whitespace.
pub open spec fn trim_bytes(s: Seq<u8>) -> Seq<u8> {
    trim_back(trim_front(s))
}

/// The trimmed raw targets of all markers of `s` at or after `i`, leftmost
/// first, non-overlapping.
pub open spec fn links_from(s: Seq<u8>, i: int) -> Seq<Seq<u8>>
    decreases s.len() - i,
{
    if i < 0 || i >= s.len() {
        Seq::empty()
    } else {
        match link_at(s, i) {
            Some(hit) => seq![trim_bytes(hit.0)] + links_from(
                s,
                if hit.1 > i + 1 {
                    hit.1
                } else {
                    i + 1
                },
            ),
            None => links_from(s, i + 1),
        }
    }
}

/// The trimmed raw targets of all cross-reference markers of `s`.
pub open spec fn spec_links(s: Seq<u8>) -> Seq<Seq<u8>> {
    links_from(s, 0)
}

/// The resolution key of a raw target: its final path component when it has
/// one, else the whole text, ASCII-lowercased.
pub open spec fn lower_ascii(s: Seq<u8>) -> Seq<u8> {
    s.map_values(|b: u8| lower_byte(b))
}

/// The resolution key of a raw link target.
pub open spec fn link_key(raw: Seq<u8>) -> Seq<u8> {
    match spec_file_name(raw) {
        Some(n) => lower_ascii(n),
        None => lower_ascii(raw),
    }
}

/// Decides `is_space(b)`.
fn is_space_b(b: u8) -> (r: bool)
    ensures
        r == is_space(b),
{
    b == 32 || b == 9 || b == 10 || b == 13
}

/// Trims ASCII whitespace from both ends of `s`.
pub fn trim(s: &[u8]) -> (r: Vec<u8>)
    ensures
        r@ == trim_bytes(s@),
{
    let mut a: usize = 0;
    proof {
        assert(s@.skip(0) =~= s@);
    }
    while a < s.len() && is_space_b(s[a])
        invariant
            a <= s@.len(),
            trim_front(s@) == trim_front(s@.skip(a as int)),
        decreases s@.len() - a,
    {
        proof {
            assert(s@.skip(a as int)[0] == s@[a as int]);
            assert(s@.skip(a as int).skip(1) =~= s@.skip(a as int + 1));
        }
        a += 1;
    }
    proof {
        assert(trim_front(s@) == s@.skip(a as int));
    }
    let ghost t = s@.skip(a as int);
    let mut z: usize = s.len();
    proof {
        assert(t.take(z - a) =~= t);
    }
    while z > a && is_space_b(s[z - 1])
        invariant
            a <= z <= s@.len(),
            trim_back(t) == trim_back(t.take(z - a)),
            t == s@.skip(a as int),
        decreases z,
    {
        proof {
            assert(t.take(z - a).last() == s@[z - 1]);
            assert(t.take(z - a).drop_last() =~= t.take(z - a - 1));
        }
        z -= 1;
    }
    proof {
        if z == a {
            assert(t.take(0) =~= Seq::<u8>::empty());
            assert(trim_back(t) == t.take(z - a));
        } else {
            assert(t.take(z - a).last() == s@[z - 1]);
            assert(trim_back(t) == t.take(z - a));
        }
    }
    let r = copy_bytes(&s[a..z]);
    proof {
        assert(r@ =~= t.take(z - a));
    }
    r
}

/// The end of the run of target bytes starting at `from`.
fn target_end(s: &[u8], from: usize) -> (e: usize)
    requires
        from <= s@.len(),
    ensures
        from <= e <= s@.len(),
        e as int == run_stop(s@, from as int, target_ok()),
{
    let mut e: usize = from;
    while e < s.len() && !(s[e] == 93 || s[e] == 124 || s[e] == 35)
        invariant
            from <= e <= s@.len(),
            run_stop(s@, from as int, target_ok()) == run_stop(s@, e as int, target_ok()),
        decreases s@.len() - e,
    {
        e += 1;
    }
    e
}

/// The end of the run of fragment bytes starting at `from`.
fn frag_end(s: &[u8], from: usize) -> (e: usize)
    requires
        from <= s@.len(),
    ensures
        from <= e <= s@.len(),
        e as int == run_stop(s@, from as int, frag_ok()),
{
    let mut e: usize = from;
    while e < s.len() && !(s[e] == 93 || s[e] == 124)
        invariant
            from <= e <= s@.len(),
            run_stop(s@, from as int, frag_ok()) == run_stop(s@, e as int, frag_ok()),
        decreases s@.len() - e,
    {
        e += 1;
    }
    e
}

/// The end of the run of alias bytes starting at `from`.
fn alias_end(s: &[u8], from: usize) -> (e: usize)
    requires
        from <= s@.len(),
    ensures
        from <= e <= s@.len(),
        e as int == run_stop(s@, from as int, alias_ok()),
{
    let mut e: usize = from;
    while e < s.len() && s[e] != 93
        invariant
            from <= e <= s@.len(),
            run_stop(s@, from as int, alias_ok()) == run_stop(s@, e as int, alias_ok()),
        decreases s@.len() - e,
    {
        e += 1;
    }
    e
}

/// The raw target and end position of a marker starting exactly at `i`.
fn try_link_at(s: &[u8], i: usize) -> (r: Option<(Vec<u8>, usize)>)
    ensures
        match r {
            Some(hit) => {
                &&& link_at(s@, i as int) == Some((hit.0@, hit.1 as int))
                &&& i + 1 < hit.1 <= s@.len()
            },
            None => link_at(s@, i as int) is None,
        },
{
    if i >= s.len() {
        return None;
    }
    if !(i + 1 < s.len() && s[i] == 91 && s[i + 1] == 91) {
        return None;
    }
    let g = target_end(s, i + 2);
    if g == i + 2 {
        return None;
    }
    let h: usize = if g < s.len() && s[g] == 35 {
        let h0 = frag_end(s, g + 1);
        if h0 == g + 1 {
            return None;
        }
        h0
    } else {
        g
    };
    let q: usize = if h < s.len() && s[h] == 124 {
        let q0 = alias_end(s, h + 1);
        if q0 == h + 1 {
            return None;
        }
        q0
    } else {
        h
    };
    if q < s.len() && q + 1 < s.len() && s[q] == 93 && s[q + 1] == 93 {
        let raw = copy_bytes(&s[i + 2..g]);
        proof {
            assert(raw@ =~= s@.subrange(i as int + 2, g as int));
        }
        Some((raw, q + 2))
    } else {
        None
    }
}

/// The trimmed raw targets of all cross-reference markers of `content`,
/// leftmost first, non-overlapping.
pub fn extract_links(content: &[u8]) -> (r: Vec<Vec<u8>>)
    ensures
        r.deep_view() == spec_links(content@),
{
    let mut r: Vec<Vec<u8>> = Vec::new();
    let mut i: usize = 0;
    while i < content.len()
        invariant
            i <= content@.len(),
            spec_links(content@) == r.deep_view() + links_from(content@, i as int),
        decreases content@.len() - i,
    {
        match try_link_at(content, i) {
            Some(hit) => {
                let ghost old_r = r.deep_view();
                let ghost raw = hit.0@;
                let t = trim(hit.0.as_slice());
                proof {
                    lemma_bytes_deep_view(t);
                }
                let end = hit.1;
                r.push(t);
                proof {
                    assert(r.deep_view() =~= old_r.push(trim_bytes(raw)));
                    assert(old_r.push(trim_bytes(raw)) =~= old_r + seq![trim_bytes(raw)]);
                    assert(r.deep_view() + links_from(content@, end as int) =~= old_r + (seq![
                        trim_bytes(raw),
                    ] + links_from(content@, end as int)));
                }
                i = end;
            },
            None => {
                i += 1;
            },
        }
    }
    proof {
        assert(r.deep_view() + links_from(content@, i as int) =~= r.deep_view());
    }
    r
}

/// Computes `link_key(raw@)`: the lowercased final path component of the raw
/// target, or the whole text lowercased when it has no such component.
pub fn key_of_link(raw: &[u8]) -> (r: Vec<u8>)
    ensures
        r@ == link_key(raw@),
{
    let named = crate::paths::file_name_of(raw);
    match named {
        Some(n) => lower_ascii_vec(n.as_slice()),
        None => lower_ascii_vec(raw),
    }
}

/// ASCII-lowercases all bytes of `s`.
pub fn lower_ascii_vec(s: &[u8]) -> (r: Vec<u8>)
    ensures
        r@ == lower_ascii(s@),
{
    let mut r: Vec<u8> = Vec::new();
    let mut i: usize = 0;
    while i < s.len()
        invariant
            i <= s@.len(),
            r@.len() == i,
            forall|j: int| 0 <= j < i ==> r@[j] == lower_byte(s@[j]),
        decreases s@.len() - i,
    {
        let b = s[i];
        if 65 <= b && b <= 90 {
            r.push(b + 32);
        } else {
            r.push(b);
        }
        i += 1;
    }
    proof {
        assert(r@ =~= lower_ascii(s@));
    }
    r
}

} // verus!
