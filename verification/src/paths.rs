//! Path handling on byte strings: segments, file names, stems, extensions,
//! and root-relative note identities.
//!
//! A path is a UTF-8 byte string with `/` as separator. Splitting a path on
//! `/` and dropping empty and `.` segments gives its meaningful segments, as
//! the platform path type does when it iterates components.
use vstd::prelude::*;

use crate::bytes::append_bytes;
use crate::bytes::bytes_eq;
use crate::bytes::copy_bytes;
use crate::bytes::lemma_bytes_deep_view;
use crate::text::lower_byte;

verus! {

/// A segment is kept when it is neither empty nor the `.` segment.
pub open spec fn keep_segment(cur: Seq<u8>) -> bool {
    cur.len() > 0 && cur != seq![46u8]
}

/// The pending segment, emitted at a separator or at the end when kept.
pub open spec fn seg_flush(cur: Seq<u8>) -> Seq<Seq<u8>> {
    if keep_segment(cur) {
        seq![cur]
    } else {
        Seq::empty()
    }
}

/// Segments still to come when scanning `p` from position `i` with the
/// partial segment `cur` at hand.
pub open spec fn segs_from(p: Seq<u8>, i: int, cur: Seq<u8>) -> Seq<Seq<u8>>
    decreases p.len() - i,
{
    if i < 0 || i >= p.len() {
        seg_flush(cur)
    } else if p[i] == 47 {
        seg_flush(cur) + segs_from(p, i + 1, Seq::empty())
    } else {
        segs_from(p, i + 1, cur.push(p[i]))
    }
}

/// The meaningful segments of a path.
pub open spec fn path_segments(p: Seq<u8>) -> Seq<Seq<u8>> {
    segs_from(p, 0, Seq::empty())
}

/// Segments joined with `/` between them.
pub open spec fn join_segments(segs: Seq<Seq<u8>>) -> Seq<u8>
    decreases segs.len(),
{
    if segs.len() == 0 {
        Seq::empty()
    } else if segs.len() == 1 {
        segs[0]
    } else {
        join_segments(segs.drop_last()) + seq![47u8] + segs.last()
    }
}

/// The `..` segment, which never names a file.
pub open spec fn parent_marker() -> Seq<u8> {
    seq![46u8, 46u8]
}

/// The final path component: the last meaningful segment, unless it is `..`.
pub open spec fn spec_file_name(p: Seq<u8>) -> Option<Seq<u8>> {
    let segs = path_segments(p);
    if segs.len() > 0 && segs.last() != parent_marker() {
        Some(segs.last())
    } else {
        None
    }
}

/// `j` is the position of the last `.` of the name `n`, a leading `.` not
/// counted.
pub open spec fn last_dot_at(n: Seq<u8>, j: int) -> bool {
    &&& 1 <= j < n.len()
    &&& n[j] == 46
    &&& forall|m: int| j < m < n.len() ==> n[m] != 46
}

/// The name has a dot that begins an extension.
pub open spec fn has_ext_dot(n: Seq<u8>) -> bool {
    exists|j: int| last_dot_at(n, j)
}

/// The position of the extension dot.
pub open spec fn ext_dot_index(n: Seq<u8>) -> int {
    choose|j: int| last_dot_at(n, j)
}

/// The stem of a name: the part before the extension dot, the whole name
/// when there is none.
pub open spec fn name_stem(n: Seq<u8>) -> Seq<u8> {
    if has_ext_dot(n) {
        n.take(ext_dot_index(n))
    } else {
        n
    }
}

/// The extension of a name: the part after the extension dot, if any.
pub open spec fn name_ext(n: Seq<u8>) -> Option<Seq<u8>> {
    if has_ext_dot(n) {
        Some(n.skip(ext_dot_index(n) + 1))
    } else {
        None
    }
}

/// The stem of a path's file name.
pub open spec fn spec_file_stem(p: Seq<u8>) -> Option<Seq<u8>> {
    match spec_file_name(p) {
        Some(n) => Some(name_stem(n)),
        None => None,
    }
}

/// The extension of a path's file name.
pub open spec fn spec_extension(p: Seq<u8>) -> Option<Seq<u8>> {
    match spec_file_name(p) {
        Some(n) => name_ext(n),
        None => None,
    }
}

/// The extension `md`, case-insensitively.
pub open spec fn is_md_ext(e: Seq<u8>) -> bool {
    e.len() == 2 && lower_byte(e[0]) == 109 && lower_byte(e[1]) == 100
}

/// Whether a path names a markdown file.
pub open spec fn is_markdown(p: Seq<u8>) -> bool {
    match spec_extension(p) {
        Some(e) => is_md_ext(e),
        None => false,
    }
}

/// The remainder of `note` after the directory prefix `base`, `None` when
/// `note` does not lie under `base`.
pub open spec fn strip_base(note: Seq<u8>, base: Seq<u8>) -> Option<Seq<u8>> {
    if base.len() == 0 {
        Some(note)
    } else if note.len() >= base.len() && note.take(base.len() as int) == base {
        if note.len() == base.len() {
            Some(Seq::empty())
        } else if base.last() == 47 {
            Some(note.skip(base.len() as int))
        } else if note[base.len() as int] == 47 {
            Some(note.skip(base.len() as int + 1))
        } else {
            None
        }
    } else {
        None
    }
}

/// Root-relative identity of a note: the remainder of `note` after `base`,
/// its meaningful segments joined with `/`.
pub open spec fn spec_note_id(note: Seq<u8>, base: Seq<u8>) -> Option<Seq<u8>> {
    match strip_base(note, base) {
        Some(rel) => Some(join_segments(path_segments(rel))),
        None => None,
    }
}

/// The meaningful segments of `p`, as fresh vectors.
pub fn segments_of(p: &[u8]) -> (r: Vec<Vec<u8>>)
    ensures
        r.deep_view() == path_segments(p@),
{
    let mut r: Vec<Vec<u8>> = Vec::new();
    let mut cur: Vec<u8> = Vec::new();
    let mut i: usize = 0;
    while i < p.len()
        invariant
            i <= p@.len(),
            path_segments(p@) == r.deep_view() + segs_from(p@, i as int, cur@),
        decreases p@.len() - i,
    {
        let b = p[i];
        if b == 47 {
            let keep = cur.len() > 1 || (cur.len() == 1 && cur[0] != 46);
            proof {
                assert(cur@ == seq![46u8] ==> (cur@.len() == 1 && cur@[0] == 46));
                assert((cur@.len() == 1 && cur@[0] == 46) ==> cur@ =~= seq![46u8]);
                assert(keep == keep_segment(cur@));
            }
            if keep {
                let ghost old_r = r.deep_view();
                let ghost done = cur@;
                proof {
                    lemma_bytes_deep_view(cur);
                }
                r.push(cur);
                cur = Vec::new();
                proof {
                    assert(r.deep_view() =~= old_r.push(done));
                    assert(old_r.push(done) =~= old_r + seg_flush(done));
                    assert(r.deep_view() + segs_from(p@, i as int + 1, cur@) =~= old_r + (seg_flush(
                        done,
                    ) + segs_from(p@, i as int + 1, Seq::empty())));
                }
            } else {
                cur.clear();
                proof {
                    assert(seg_flush(cur@) + segs_from(p@, i as int + 1, cur@) =~= segs_from(
                        p@,
                        i as int + 1,
                        cur@,
                    ));
                }
            }
        } else {
            cur.push(b);
        }
        i += 1;
    }
    let keep = cur.len() > 1 || (cur.len() == 1 && cur[0] != 46);
    proof {
        assert(cur@ == seq![46u8] ==> (cur@.len() == 1 && cur@[0] == 46));
        assert((cur@.len() == 1 && cur@[0] == 46) ==> cur@ =~= seq![46u8]);
        assert(keep == keep_segment(cur@));
    }
    if keep {
        let ghost old_r = r.deep_view();
        let ghost done = cur@;
        proof {
            lemma_bytes_deep_view(cur);
        }
        r.push(cur);
        proof {
            assert(r.deep_view() =~= old_r.push(done));
            assert(old_r.push(done) =~= old_r + seg_flush(done));
        }
    } else {
        proof {
            assert(r.deep_view() + seg_flush(cur@) =~= r.deep_view());
        }
    }
    r
}

/// Joins segments with `/`.
pub fn join_segs(segs: &Vec<Vec<u8>>) -> (r: Vec<u8>)
    ensures
        r@ == join_segments(segs.deep_view()),
{
    let mut r: Vec<u8> = Vec::new();
    proof {
        assert(segs.deep_view().take(0) =~= Seq::<Seq<u8>>::empty());
    }
    let mut i: usize = 0;
    while i < segs.len()
        invariant
            i <= segs@.len(),
            r@ == join_segments(segs.deep_view().take(i as int)),
        decreases segs@.len() - i,
    {
        let ghost pre = r@;
        if i > 0 {
            r.push(47);
        }
        append_bytes(&mut r, segs[i].as_slice());
        proof {
            lemma_bytes_deep_view(segs@[i as int]);
            let t1 = segs.deep_view().take(i as int + 1);
            assert(t1.drop_last() =~= segs.deep_view().take(i as int));
            assert(t1.last() == segs.deep_view()[i as int]);
            if i == 0 {
                assert(r@ =~= t1.last());
                assert(r@ == join_segments(t1));
            } else {
                assert(r@ =~= join_segments(segs.deep_view().take(i as int)) + seq![47u8]
                    + t1.last());
            }
        }
        i += 1;
    }
    proof {
        assert(segs.deep_view().take(segs@.len() as int) =~= segs.deep_view());
    }
    r
}

/// Whether `s` is the `..` segment.
fn is_parent_seg(s: &[u8]) -> (r: bool)
    ensures
        r == (s@ == parent_marker()),
{
    let r = s.len() == 2 && s[0] == 46 && s[1] == 46;
    proof {
        if r {
            assert(s@ =~= parent_marker());
        }
    }
    r
}

/// The final path component of `p`, if any.
pub fn file_name_of(p: &[u8]) -> (r: Option<Vec<u8>>)
    ensures
        r.deep_view() == spec_file_name(p@),
{
    let segs = segments_of(p);
    if segs.len() == 0 {
        return None;
    }
    let last = &segs[segs.len() - 1];
    proof {
        lemma_bytes_deep_view(segs@[segs@.len() - 1]);
        assert(segs.deep_view().last() == segs@[segs@.len() - 1]@);
    }
    if is_parent_seg(last.as_slice()) {
        None
    } else {
        Some(copy_bytes(last.as_slice()))
    }
}

/// The position of the extension dot of the name `n`, if any.
fn ext_dot_of(n: &[u8]) -> (r: Option<usize>)
    ensures
        match r {
            Some(j) => last_dot_at(n@, j as int),
            None => !has_ext_dot(n@),
        },
{
    let mut j: usize = n.len();
    while j > 1
        invariant
            j <= n@.len() || (j == n@.len() && n@.len() == 0),
            j <= n@.len() + 1,
            forall|m: int| j <= m < n@.len() ==> n@[m] != 46,
        decreases j,
    {
        if n[j - 1] == 46 {
            return Some(j - 1);
        }
        j -= 1;
    }
    proof {
        if has_ext_dot(n@) {
            let w = ext_dot_index(n@);
            assert(last_dot_at(n@, w));
            assert(n@[w] != 46);
        }
    }
    None
}

/// The stem of `p`'s file name: the name without its extension.
pub fn file_stem_of(p: &[u8]) -> (r: Option<Vec<u8>>)
    ensures
        r.deep_view() == spec_file_stem(p@),
{
    match file_name_of(p) {
        None => None,
        Some(name) => {
            proof {
                lemma_bytes_deep_view(name);
            }
            match ext_dot_of(name.as_slice()) {
                Some(j) => {
                    proof {
                        assert(1 <= j as int && (j as int) < name@.len());
                        let w = ext_dot_index(name@);
                        assert(last_dot_at(name@, w));
                        assert(w == j as int) by {
                            if w < j as int {
                                assert(name@[j as int] != 46);
                            }
                            if (j as int) < w {
                                assert(name@[w] != 46);
                            }
                        }
                    }
                    let stem = copy_bytes(&name[0..j]);
                    proof {
                        assert(stem@ =~= name@.take(j as int));
                        lemma_bytes_deep_view(stem);
                    }
                    Some(stem)
                },
                None => Some(name),
            }
        },
    }
}

/// The extension of `p`'s file name, if any.
pub fn extension_of(p: &[u8]) -> (r: Option<Vec<u8>>)
    ensures
        r.deep_view() == spec_extension(p@),
{
    match file_name_of(p) {
        None => None,
        Some(name) => {
            proof {
                lemma_bytes_deep_view(name);
            }
            match ext_dot_of(name.as_slice()) {
                Some(j) => {
                    proof {
                        assert(1 <= j as int && (j as int) < name@.len());
                        let w = ext_dot_index(name@);
                        assert(last_dot_at(name@, w));
                        assert(w == j as int) by {
                            if w < j as int {
                                assert(name@[j as int] != 46);
                            }
                            if (j as int) < w {
                                assert(name@[w] != 46);
                            }
                        }
                    }
                    let e = copy_bytes(&name[j + 1..name.len()]);
                    proof {
                        assert(e@ =~= name@.skip(j as int + 1));
                        lemma_bytes_deep_view(e);
                    }
                    Some(e)
                },
                None => None,
            }
        },
    }
}

/// Whether `p` names a markdown file: extension `md`, case-insensitive.
pub fn is_markdown_path(p: &[u8]) -> (r: bool)
    ensures
        r == is_markdown(p@),
{
    match extension_of(p) {
        None => false,
        Some(e) => {
            if e.len() != 2 {
                false
            } else {
                let a = e[0];
                let b = e[1];
                let m = if 65 <= a && a <= 90 {
                    a + 32
                } else {
                    a
                };
                let d = if 65 <= b && b <= 90 {
                    b + 32
                } else {
                    b
                };
                m == 109 && d == 100
            }
        },
    }
}

/// Root-relative identity of `note` under `base`: the remainder after the
/// `base` prefix, meaningful segments joined with `/`; `None` when `note` is
/// not under `base`.
pub fn relative_note_id(note: &[u8], base: &[u8]) -> (r: Option<Vec<u8>>)
    ensures
        r.deep_view() == spec_note_id(note@, base@),
{
    if base.len() == 0 {
        let segs = segments_of(note);
        return Some(join_segs(&segs));
    }
    if note.len() < base.len() {
        return None;
    }
    let pre = &note[0..base.len()];
    proof {
        assert(pre@ =~= note@.take(base@.len() as int));
    }
    if !bytes_eq(pre, base) {
        return None;
    }
    if note.len() == base.len() {
        proof {
            assert(path_segments(Seq::<u8>::empty()) =~= Seq::<Seq<u8>>::empty());
        }
        return Some(Vec::new());
    }
    let start: usize = if base[base.len() - 1] == 47 {
        base.len()
    } else if note[base.len()] == 47 {
        base.len() + 1
    } else {
        return None;
    };
    let rel = copy_bytes(&note[start..note.len()]);
    proof {
        assert(rel@ =~= note@.skip(start as int));
    }
    let segs = segments_of(rel.as_slice());
    Some(join_segs(&segs))
}

} // verus!
