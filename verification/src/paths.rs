//! Archive path arithmetic: OPF-relative hrefs, archive paths, fragments.

use crate::text::{
    chars_of, find, find_from, push_all, slice_of, starts_with,
    string_of,
};
use crate::writer::{dir_of_chars, dir_part, views};
use vstd::prelude::*;

verus! {

/// `s.split(c)`: the pieces between occurrences of `c` (always at least one).
pub open spec fn split_on(s: Seq<char>, c: char) -> Seq<Seq<char>>
    decreases s.len(),
{
    if s.len() == 0 {
        seq![Seq::empty()]
    } else {
        let p = split_on(s.drop_last(), c);
        if s.last() == c {
            p.push(Seq::empty())
        } else {
            p.update(p.len() - 1, p.last().push(s.last()))
        }
    }
}

/// The segments kept by path normalisation: empty and `.` segments are
/// skipped, `..` drops the previous kept segment (if any).
pub open spec fn kept_segments(segs: Seq<Seq<char>>) -> Seq<Seq<char>>
    decreases segs.len(),
{
    if segs.len() == 0 {
        Seq::empty()
    } else {
        let p = kept_segments(segs.drop_last());
        let seg = segs.last();
        if seg.len() == 0 || seg == seq!['.'] {
            p
        } else if seg == seq!['.', '.'] {
            if p.len() > 0 {
                p.drop_last()
            } else {
                p
            }
        } else {
            p.push(seg)
        }
    }
}

/// `parts.join(sep)`.
pub open spec fn joined(parts: Seq<Seq<char>>, sep: char) -> Seq<char>
    decreases parts.len(),
{
    if parts.len() == 0 {
        Seq::empty()
    } else if parts.len() == 1 {
        parts[0]
    } else {
        joined(parts.drop_last(), sep).push(sep) + parts.last()
    }
}

/// A normalised `/`-separated path: no empty, `.` or `..` segments.
pub open spec fn normalized(path: Seq<char>) -> Seq<char> {
    joined(kept_segments(split_on(path, '/')), '/')
}

proof fn lemma_split_nonempty(s: Seq<char>, c: char)
    ensures
        split_on(s, c).len() > 0,
    decreases s.len(),
{
    if s.len() > 0 {
        lemma_split_nonempty(s.drop_last(), c);
    }
}

#[verifier::spinoff_prover]
#[verifier::rlimit(30)]
fn split_exec(s: &[char], c: char) -> (r: Vec<Vec<char>>)
    ensures
        r@.len() == split_on(s@, c).len(),
        forall|k: int| 0 <= k < r@.len() ==> r@[k]@ == split_on(s@, c)[k],
{
    let mut parts: Vec<Vec<char>> = Vec::new();
    let mut cur: Vec<char> = Vec::new();
    let mut i: usize = 0;
    while i < s.len()
        invariant
            i <= s@.len(),
            parts@.len() + 1 == split_on(s@.subrange(0, i as int), c).len(),
            forall|k: int|
                0 <= k < parts@.len() ==> parts@[k]@ == split_on(s@.subrange(0, i as int), c)[k],
            cur@ == split_on(s@.subrange(0, i as int), c).last(),
        decreases s@.len() - i,
    {
        assert(s@.subrange(0, i + 1).drop_last() =~= s@.subrange(0, i as int));
        proof {
            lemma_split_nonempty(s@.subrange(0, i as int), c);
        }
        if s[i] == c {
            parts.push(cur);
            cur = Vec::new();
            assert(cur@ =~= Seq::<char>::empty());
        } else {
            cur.push(s[i]);
        }
        i = i + 1;
    }
    parts.push(cur);
    assert(s@.subrange(0, s@.len() as int) =~= s@);
    parts
}

#[verifier::spinoff_prover]
#[verifier::rlimit(30)]
fn kept_segments_exec(segs: &Vec<Vec<char>>) -> (r: Vec<Vec<char>>)
    ensures
        views(r@) == kept_segments(views(segs@)),
{
    let ghost all = views(segs@);
    let mut parts: Vec<Vec<char>> = Vec::new();
    let n = segs.len();
    for i in 0..n
        invariant
            n == segs@.len(),
            all == views(segs@),
            views(parts@) == kept_segments(all.take(i as int)),
    {
        assert(all.take(i + 1).drop_last() =~= all.take(i as int));
        assert(all.take(i + 1).last() == segs@[i as int]@);
        let seg = &segs[i];
        let is_dot = seg.len() == 1 && seg[0] == '.';
        let is_dotdot = seg.len() == 2 && seg[0] == '.' && seg[1] == '.';
        proof {
            if is_dot {
                assert(seg@ =~= seq!['.']);
            }
            if is_dotdot {
                assert(seg@ =~= seq!['.', '.']);
            }
            if seg@ == seq!['.'] {
                assert(seg@[0] == '.');
            }
            if seg@ == seq!['.', '.'] {
                assert(seg@[0] == '.' && seg@[1] == '.');
            }
        }
        let ghost before = views(parts@);
        if seg.len() == 0 || is_dot {
        } else if is_dotdot {
            if parts.len() > 0 {
                parts.pop();
                assert(views(parts@) =~= before.drop_last());
            }
        } else {
            parts.push(slice_of(seg.as_slice(), 0, seg.len()));
            assert(seg@.subrange(0, seg@.len() as int) =~= seg@);
            assert(views(parts@) =~= before.push(seg@));
        }
    }
    assert(all.take(n as int) =~= all);
    parts
}

fn join_exec(parts: &Vec<Vec<char>>, sep: char) -> (r: Vec<char>)
    ensures
        r@ == joined(views(parts@), sep),
{
    let ghost all = views(parts@);
    let mut out: Vec<char> = Vec::new();
    let n = parts.len();
    for i in 0..n
        invariant
            n == parts@.len(),
            all == views(parts@),
            out@ == joined(all.take(i as int), sep),
    {
        assert(all.take(i + 1).drop_last() =~= all.take(i as int));
        if i > 0 {
            out.push(sep);
        } else {
            assert(out@ =~= Seq::<char>::empty());
        }
        push_all(&mut out, parts[i].as_slice());
        assert(out@ =~= joined(all.take(i + 1), sep));
    }
    assert(all.take(n as int) =~= all);
    out
}

#[verifier::spinoff_prover]
#[verifier::rlimit(30)]
pub fn normalize_chars(path: &[char]) -> (r: Vec<char>)
    ensures
        r@ == normalized(path@),
{
    let segs = split_exec(path, '/');
    assert(views(segs@) =~= split_on(path@, '/'));
    let kept = kept_segments_exec(&segs);
    join_exec(&kept, '/')
}

/// Collapses `.`, `..` and empty segments of a `/`-separated path.
pub fn normalize_path(path: &str) -> (r: String)
    ensures
        r@ == normalized(path@),
{
    let p = chars_of(path);
    let r = normalize_chars(p.as_slice());
    string_of(r.as_slice())
}

/// The part of an href before its first `#`.
pub open spec fn without_fragment(href: Seq<char>) -> Seq<char> {
    match find_from(href, seq!['#'], 0) {
        Some(i) => href.subrange(0, i),
        None => href,
    }
}

pub fn strip_fragment_chars(href: &[char]) -> (r: Vec<char>)
    ensures
        r@ == without_fragment(href@),
{
    let hash = vec!['#'];
    assert(hash@ =~= seq!['#']);
    match find(href, hash.as_slice(), 0) {
        Some(i) => slice_of(href, 0, i),
        None => {
            let r = slice_of(href, 0, href.len());
            assert(r@ =~= href@);
            r
        },
    }
}

/// The part of an href before its first `#`.
pub fn strip_fragment(href: &str) -> (r: String)
    ensures
        r@ == without_fragment(href@),
{
    let h = chars_of(href);
    let r = strip_fragment_chars(h.as_slice());
    string_of(r.as_slice())
}

/// The archive path of an href found in the OPF whose directory is
/// `opf_dir`: fragment dropped, joined to the directory unless absolute,
/// normalised.
pub open spec fn archive_path(opf_dir: Seq<char>, href: Seq<char>) -> Seq<char> {
    let h = without_fragment(href);
    if starts_with(h, seq!['/']) || opf_dir.len() == 0 {
        normalized(h)
    } else {
        normalized(opf_dir + h)
    }
}

pub fn archive_path_chars(opf_dir: &[char], href: &[char]) -> (r: Vec<char>)
    ensures
        r@ == archive_path(opf_dir@, href@),
{
    let h = strip_fragment_chars(href);
    let slash = vec!['/'];
    assert(slash@ =~= seq!['/']);
    if crate::text::matches_at_exec(h.as_slice(), slash.as_slice(), 0) || opf_dir.len() == 0 {
        return normalize_chars(h.as_slice());
    }
    let mut joined_path: Vec<char> = Vec::new();
    push_all(&mut joined_path, opf_dir);
    push_all(&mut joined_path, h.as_slice());
    normalize_chars(joined_path.as_slice())
}

/// Resolves an OPF-relative href to a normalised archive path.
pub fn resolve_archive_path(opf_dir: &str, href: &str) -> (r: String)
    ensures
        r@ == archive_path(opf_dir@, href@),
{
    let d = chars_of(opf_dir);
    let h = chars_of(href);
    let r = archive_path_chars(d.as_slice(), h.as_slice());
    string_of(r.as_slice())
}

/// Base directory of the OPF file within the archive, with its trailing `/`.
pub fn opf_dir(opf_path: &str) -> (r: String)
    ensures
        r@ == dir_part(opf_path@),
{
    let p = chars_of(opf_path);
    let d = dir_of_chars(p.as_slice());
    string_of(d.as_slice())
}

/// Directory of an OPF-relative href (fragment dropped), with its trailing `/`.
pub fn parent_dir(opf_relative_href: &str) -> (r: String)
    ensures
        r@ == dir_part(without_fragment(opf_relative_href@)),
{
    let h = chars_of(opf_relative_href);
    let s = strip_fragment_chars(h.as_slice());
    let d = dir_of_chars(s.as_slice());
    string_of(d.as_slice())
}

/// An href found in a TOC file whose directory is `toc_dir`, made
/// OPF-relative: normalised, with a non-empty fragment kept.
pub open spec fn resolved_within(toc_dir: Seq<char>, href: Seq<char>) -> Seq<char> {
    let stripped = without_fragment(href);
    let combined = if starts_with(stripped, seq!['/']) || toc_dir.len() == 0 {
        stripped
    } else {
        toc_dir + stripped
    };
    let n = normalized(combined);
    match find_from(href, seq!['#'], 0) {
        Some(i) => if i + 1 < href.len() {
            n.push('#') + href.subrange(i + 1, href.len() as int)
        } else {
            n
        },
        None => n,
    }
}

#[verifier::spinoff_prover]
#[verifier::rlimit(30)]
pub fn resolve_within_chars(toc_dir: &[char], href: &[char]) -> (r: Vec<char>)
    ensures
        r@ == resolved_within(toc_dir@, href@),
{
    let stripped = strip_fragment_chars(href);
    let slash = vec!['/'];
    assert(slash@ =~= seq!['/']);
    let combined = if crate::text::matches_at_exec(stripped.as_slice(), slash.as_slice(), 0)
        || toc_dir.len() == 0 {
        stripped
    } else {
        let mut c: Vec<char> = Vec::new();
        push_all(&mut c, toc_dir);
        push_all(&mut c, stripped.as_slice());
        c
    };
    let mut n = normalize_chars(combined.as_slice());
    let hash = vec!['#'];
    assert(hash@ =~= seq!['#']);
    match find(href, hash.as_slice(), 0) {
        Some(i) => {
            if i + 1 < href.len() {
                n.push('#');
                let frag = slice_of(href, i + 1, href.len());
                push_all(&mut n, frag.as_slice());
            }
            n
        },
        None => n,
    }
}

/// Resolves an href found in a TOC file relative to the TOC's directory,
/// keeping a non-empty fragment.
pub fn resolve_within(toc_dir: &str, href: &str) -> (r: String)
    ensures
        r@ == resolved_within(toc_dir@, href@),
{
    let d = chars_of(toc_dir);
    let h = chars_of(href);
    let r = resolve_within_chars(d.as_slice(), h.as_slice());
    string_of(r.as_slice())
}

} // verus!
