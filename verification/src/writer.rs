//! EPUB writer.
//!
//! We always emit EPUB 3, generated by epub-builder from the document (see
//! `generator`), after the document is validated. The generated package is
//! then post-processed: the OPF gets the document's own identifier verbatim, the
//! Dublin Core elements the generator does not emit, rendition layout
//! metadata and the requested page-progression direction; `nav.xhtml` loses
//! an empty landmarks nav and is oriented for right-to-left books; `toc.ncx`
//! gets its `playOrder` values renumbered so that entries for the same target
//! share one value.
//!
//! All post-processing is plain text surgery on the generated files.

use crate::text::{
    matches_at, matches_at_exec, is_whitespace, starts_with, chars_of, contains, contains_exec, find, find_from, is_ws, lemma_find_from, lemma_rfind_char,
    push_all, push_str, rfind, rfind_char, slice_of, string_of, trim_end, trim_end_exec,
};
use crate::types::{chapters_view, metadata_view, opt_view, Document};
use crate::text::{eq_chars, str_eq, strs, utf8_str};
use crate::error::{AppError, ErrorV};
use crate::generator::{
    generator_content, generator_cover_image, generator_epub3, generator_generate,
    generator_metadata, generator_new, generator_resource, generator_set_uuid,
    generator_stylesheet, generator_steps, toc_element, toc_element_child, toc_entry, zip_library,
    generated_from, metadata_key_known, plain_path, refuses_content, step_file, stored_at,
    stores_files, GenStep, Generator,
};
use crate::ident::{identifier_to_uuid, uuid_for};
use crate::xml::{is_well_formed_xml, well_formed_xml};
use crate::paths::without_fragment;
use crate::types::{navs_view, nav_view, Asset, Chapter, ChapterV, NavItem, NavV};
use crate::zipio::{
    archive_add_deflated, archive_entries, archive_finish, archive_raw_copy, archive_writer,
    entry_limit, entry_reads_back, finished_bytes, has_name, last_fits, name_fits, reads_back,
    zip_count, zip_name,
    zip_entry, zip_entry_count, zip_entry_name, zip_read, ArchiveWriter, RawCopy, ZipRead, ZipReadV,
};
use vstd::prelude::*;
use vstd::string::StringSliceAdditionalSpecFns;

verus! {

// ---------------------------------------------------------------------------
// Escaping

/// The escaped form of one character in XML text or attribute values.
pub open spec fn escape_char(c: char) -> Seq<char> {
    if c == '&' {
        seq!['&', 'a', 'm', 'p', ';']
    } else if c == '<' {
        seq!['&', 'l', 't', ';']
    } else if c == '>' {
        seq!['&', 'g', 't', ';']
    } else if c == '"' {
        seq!['&', 'q', 'u', 'o', 't', ';']
    } else if c == '\'' {
        seq!['&', 'a', 'p', 'o', 's', ';']
    } else {
        seq![c]
    }
}

/// `s` with `&`, `<`, `>`, `"` and `'` replaced by their predefined entities.
pub open spec fn escaped(s: Seq<char>) -> Seq<char>
    decreases s.len(),
{
    if s.len() == 0 {
        Seq::empty()
    } else {
        escaped(s.drop_last()) + escape_char(s.last())
    }
}

/// Text escaped for XML holds no `<`, `>`, `"` or `'`: it can stand in an
/// element or a quoted attribute value without ending either.
pub proof fn escaped_has_no_markup(s: Seq<char>)
    ensures
        forall|i: int|
            0 <= i < escaped(s).len() ==> {
                let c = #[trigger] escaped(s)[i];
                c != '<' && c != '>' && c != '"' && c != '\''
            },
    decreases s.len(),
{
    if s.len() > 0 {
        escaped_has_no_markup(s.drop_last());
        let a = escaped(s.drop_last());
        let b = escape_char(s.last());
        assert forall|i: int| 0 <= i < escaped(s).len() implies {
            let c = #[trigger] escaped(s)[i];
            c != '<' && c != '>' && c != '"' && c != '\''
        } by {
            if i < a.len() {
                assert(escaped(s)[i] == a[i]);
            } else {
                assert(escaped(s)[i] == b[i - a.len()]);
            }
        }
    }
}

fn push_escaped_char(out: &mut Vec<char>, c: char)
    ensures
        final(out)@ == old(out)@ + escape_char(c),
{
    if c == '&' {
        out.push('&');
        out.push('a');
        out.push('m');
        out.push('p');
        out.push(';');
    } else if c == '<' {
        out.push('&');
        out.push('l');
        out.push('t');
        out.push(';');
    } else if c == '>' {
        out.push('&');
        out.push('g');
        out.push('t');
        out.push(';');
    } else if c == '"' {
        out.push('&');
        out.push('q');
        out.push('u');
        out.push('o');
        out.push('t');
        out.push(';');
    } else if c == '\'' {
        out.push('&');
        out.push('a');
        out.push('p');
        out.push('o');
        out.push('s');
        out.push(';');
    } else {
        out.push(c);
    }
}

/// Appends the escaped form of `s` to `out`.
pub fn push_escaped(out: &mut Vec<char>, s: &[char])
    ensures
        final(out)@ == old(out)@ + escaped(s@),
{
    let mut i: usize = 0;
    while i < s.len()
        invariant
            i <= s@.len(),
            out@ == old(out)@ + escaped(s@.subrange(0, i as int)),
        decreases s@.len() - i,
    {
        assert(s@.subrange(0, i + 1).drop_last() =~= s@.subrange(0, i as int));
        push_escaped_char(out, s[i]);
        i = i + 1;
    }
    assert(s@.subrange(0, s@.len() as int) =~= s@);
}

/// Escapes the five XML special characters.
pub fn xml_escape(s: &str) -> (r: String)
    ensures
        r@ == escaped(s@),
{
    let cs = chars_of(s);
    let mut out: Vec<char> = Vec::new();
    push_escaped(&mut out, cs.as_slice());
    string_of(out.as_slice())
}

// ---------------------------------------------------------------------------
// Paths

/// Directory part of a path, up to and including its last `/` (empty when
/// there is none).
pub open spec fn dir_part(path: Seq<char>) -> Seq<char> {
    match rfind_char(path, '/') {
        Some(i) => path.subrange(0, i + 1),
        None => Seq::empty(),
    }
}

pub fn dir_of_chars(path: &[char]) -> (r: Vec<char>)
    ensures
        r@ == dir_part(path@),
{
    proof {
        lemma_rfind_char(path@, '/');
    }
    match rfind(path, '/') {
        Some(i) => slice_of(path, 0, i + 1),
        None => Vec::new(),
    }
}

/// Directory portion of an archive path (e.g. `"OEBPS/content.opf"` →
/// `"OEBPS/"`).
pub fn dir_of(path: &str) -> (r: String)
    ensures
        r@ == dir_part(path@),
{
    let p = chars_of(path);
    let d = dir_of_chars(p.as_slice());
    string_of(d.as_slice())
}

// ---------------------------------------------------------------------------
// Viewport detection

/// Some `<meta ...>` tag at or after `from` declares the viewport.
pub open spec fn viewport_from(s: Seq<char>, from: int) -> bool
    decreases s.len() + 1 - from,
{
    if from < 0 || from > s.len() {
        false
    } else {
        match find_from(s, "<meta"@, from) {
            None => false,
            Some(start) => match find_from(s, ">"@, start) {
                None => false,
                Some(gt) => {
                    let tag = s.subrange(start, gt + 1);
                    if contains(tag, "name=\"viewport\""@) || contains(tag, "name='viewport'"@) {
                        true
                    } else {
                        proof {
                            lemma_find_from(s, "<meta"@, from);
                            lemma_find_from(s, ">"@, start);
                        }
                        viewport_from(s, gt + 1)
                    }
                },
            },
        }
    }
}

/// Checks an XHTML text for a viewport `<meta>` declaration without parsing
/// XML. Attribute order is irrelevant; both XML quote styles are accepted.
pub fn has_viewport_meta_chars(xhtml: &[char]) -> (r: bool)
    ensures
        r == viewport_from(xhtml@, 0),
{
    proof {
        reveal_strlit(">");
    }
    let meta = chars_of("<meta");
    let gt = chars_of(">");
    let dq = chars_of("name=\"viewport\"");
    let sq = chars_of("name='viewport'");
    let mut search_from: usize = 0;
    loop
        invariant
            search_from <= xhtml@.len(),
            viewport_from(xhtml@, 0) == viewport_from(xhtml@, search_from as int),
            meta@ == "<meta"@,
            gt@ == ">"@,
            dq@ == "name=\"viewport\""@,
            sq@ == "name='viewport'"@,
        decreases xhtml@.len() - search_from,
    {
        proof {
            reveal_strlit(">");
            lemma_find_from(xhtml@, meta@, search_from as int);
        }
        let start = match find(xhtml, meta.as_slice(), search_from) {
            Some(s) => s,
            None => return false,
        };
        proof {
            lemma_find_from(xhtml@, gt@, start as int);
        }
        let close = match find(xhtml, gt.as_slice(), start) {
            Some(e) => e,
            None => return false,
        };
        let end = close + 1;
        let tag = slice_of(xhtml, start, end);
        if contains_exec(tag.as_slice(), dq.as_slice()) || contains_exec(
            tag.as_slice(),
            sq.as_slice(),
        ) {
            return true;
        }
        search_from = end;
    }
}

pub fn has_viewport_meta(xhtml: &str) -> (r: bool)
    ensures
        r == viewport_from(xhtml@, 0),
{
    let cs = chars_of(xhtml);
    has_viewport_meta_chars(cs.as_slice())
}

// ---------------------------------------------------------------------------
// Attribute surgery

/// `needle` occurs at `i` at the start of an attribute: at the start of the
/// string or right after whitespace.
pub open spec fn attr_at(s: Seq<char>, needle: Seq<char>, i: int) -> bool {
    matches_at(s, needle, i) && (i == 0 || is_ws(s[i - 1]))
}

/// First index `>= from` at which `needle` starts an attribute.
pub open spec fn find_attr(s: Seq<char>, needle: Seq<char>, from: int) -> Option<int>
    decreases s.len() + 1 - from,
{
    if from < 0 || from > s.len() || from + needle.len() > s.len() {
        None
    } else if attr_at(s, needle, from) {
        Some(from)
    } else {
        find_attr(s, needle, from + 1)
    }
}

fn find_attr_exec(s: &[char], needle: &[char], from: usize) -> (r: Option<usize>)
    ensures
        r matches Some(i) ==> find_attr(s@, needle@, from as int) == Some(i as int),
        r matches Some(i) ==> i + needle@.len() <= s.len(),
        r is None ==> find_attr(s@, needle@, from as int) is None,
{
    if from > s.len() {
        return None;
    }
    let mut i = from;
    loop
        invariant
            from <= i <= s@.len(),
            find_attr(s@, needle@, from as int) == find_attr(s@, needle@, i as int),
        decreases s@.len() - i,
    {
        if needle.len() > s.len() - i {
            return None;
        }
        if matches_at_exec(s, needle, i) && (i == 0 || is_whitespace(s[i - 1])) {
            return Some(i);
        }
        if i == s.len() {
            assert(find_attr(s@, needle@, i + 1) is None);
            return None;
        }
        i = i + 1;
    }
}

/// `attrs` without the attribute `name="..."` (and the whitespace run before
/// it); unchanged when no attribute of that name is present (a name that
/// only ends another attribute's name does not count) or when its value is
/// unterminated.
pub open spec fn attr_removed(attrs: Seq<char>, name: Seq<char>) -> Seq<char> {
    let needle = name + "=\""@;
    match find_attr(attrs, needle, 0) {
        None => attrs,
        Some(pos) => match find_from(attrs, "\""@, pos + needle.len()) {
            None => attrs,
            Some(q) => {
                let keep_end = trim_end(attrs.subrange(0, pos)).len();
                attrs.subrange(0, keep_end as int) + attrs.subrange(q + 1, attrs.len() as int)
            },
        },
    }
}

proof fn lemma_trim_end_prefix(s: Seq<char>)
    ensures
        trim_end(s).len() <= s.len(),
        trim_end(s) == s.subrange(0, trim_end(s).len() as int),
    decreases s.len(),
{
    if s.len() > 0 && is_ws(s.last()) {
        lemma_trim_end_prefix(s.drop_last());
        assert(s.drop_last().subrange(0, trim_end(s).len() as int) =~= s.subrange(
            0,
            trim_end(s).len() as int,
        ));
    } else {
        assert(s.subrange(0, s.len() as int) =~= s);
    }
}

fn remove_attr_chars(attrs: &[char], name: &[char]) -> (r: Vec<char>)
    ensures
        r@ == attr_removed(attrs@, name@),
{
    proof {
        reveal_strlit("\"");
    }
    let mut needle: Vec<char> = Vec::new();
    push_all(&mut needle, name);
    push_str(&mut needle, "=\"");
    let quote = chars_of("\"");
    let pos = match find_attr_exec(attrs, needle.as_slice(), 0) {
        Some(p) => p,
        None => return slice_of(attrs, 0, attrs.len()),
    };
    let val_start = pos + needle.len();
    proof {
        lemma_find_from(attrs@, quote@, val_start as int);
    }
    let q = match find(attrs, quote.as_slice(), val_start) {
        Some(q) => q,
        None => {
            let r = slice_of(attrs, 0, attrs.len());
            assert(r@ =~= attrs@);
            return r;
        },
    };
    let end = q + 1;
    let before = slice_of(attrs, 0, pos);
    let kept = trim_end_exec(before.as_slice());
    proof {
        lemma_trim_end_prefix(before@);
    }
    let keep_end = kept.len();
    let mut out = slice_of(attrs, 0, keep_end);
    let rest = slice_of(attrs, end, attrs.len());
    push_all(&mut out, rest.as_slice());
    out
}

/// Removes a `name="..."` attribute (and one run of leading whitespace) from
/// an element's attribute string. Returns the input unchanged if the attribute
/// is absent or unterminated.
pub fn remove_attr(attrs: &str, name: &str) -> (r: String)
    ensures
        r@ == attr_removed(attrs@, name@),
{
    let a = chars_of(attrs);
    let n = chars_of(name);
    let r = remove_attr_chars(a.as_slice(), n.as_slice());
    string_of(r.as_slice())
}

/// The OPF with its `<spine ...>` opening tag's `page-progression-direction`
/// set to `dir`, or removed when `dir` is `None`. Other attributes are kept.
pub open spec fn spine_direction_set(opf: Seq<char>, dir: Option<Seq<char>>) -> Seq<char> {
    match find_from(opf, "<spine"@, 0) {
        None => opf,
        Some(p) => {
            let attrs_start = p + "<spine"@.len();
            match find_from(opf, ">"@, attrs_start) {
                None => opf,
                Some(tag_end) => {
                    let attrs = opf.subrange(attrs_start, tag_end);
                    let kept = trim_end(attr_removed(attrs, "page-progression-direction"@));
                    let added = match dir {
                        Some(d) => " page-progression-direction=\""@ + d + "\""@,
                        None => Seq::empty(),
                    };
                    opf.subrange(0, attrs_start) + kept + added + opf.subrange(
                        tag_end,
                        opf.len() as int,
                    )
                },
            }
        },
    }
}

#[verifier::spinoff_prover]
#[verifier::rlimit(30)]
fn set_spine_direction_chars(opf: &[char], dir: Option<&str>) -> (r: Vec<char>)
    ensures
        r@ == spine_direction_set(
            opf@,
            match dir {
                Some(d) => Some(d@),
                None => None,
            },
        ),
{
    let spine = chars_of("<spine");
    let gt = chars_of(">");
    proof {
        lemma_find_from(opf@, spine@, 0);
    }
    let spine_pos = match find(opf, spine.as_slice(), 0) {
        Some(p) => p,
        None => {
            let r = slice_of(opf, 0, opf.len());
            assert(r@ =~= opf@);
            return r;
        },
    };
    let attrs_start = spine_pos + spine.len();
    proof {
        lemma_find_from(opf@, gt@, attrs_start as int);
    }
    let tag_end = match find(opf, gt.as_slice(), attrs_start) {
        Some(e) => e,
        None => {
            let r = slice_of(opf, 0, opf.len());
            assert(r@ =~= opf@);
            return r;
        },
    };
    let attrs = slice_of(opf, attrs_start, tag_end);
    let ppd = chars_of("page-progression-direction");
    let removed = remove_attr_chars(attrs.as_slice(), ppd.as_slice());
    let kept = trim_end_exec(removed.as_slice());
    let mut out = slice_of(opf, 0, attrs_start);
    push_all(&mut out, kept.as_slice());
    match dir {
        Some(d) => {
            push_str(&mut out, " page-progression-direction=\"");
            push_str(&mut out, d);
            push_str(&mut out, "\"");
        },
        None => {},
    }
    let rest = slice_of(opf, tag_end, opf.len());
    push_all(&mut out, rest.as_slice());
    out
}

/// Rewrites the `<spine>` opening tag's `page-progression-direction`: strips
/// whatever was emitted and re-adds it iff the document sets a direction.
pub fn set_spine_direction(opf: &str, doc: &Document) -> (r: String)
    ensures
        r@ == spine_direction_set(opf@, opt_view(doc.page_progression_direction)),
{
    let o = chars_of(opf);
    let dir: Option<&str> = match &doc.page_progression_direction {
        Some(d) => Some(d.as_str()),
        None => None,
    };
    let r = set_spine_direction_chars(o.as_slice(), dir);
    string_of(r.as_slice())
}

// ---------------------------------------------------------------------------
// NCX play order

pub open spec fn digit_char(d: nat) -> char {
    if d == 0 {
        '0'
    } else if d == 1 {
        '1'
    } else if d == 2 {
        '2'
    } else if d == 3 {
        '3'
    } else if d == 4 {
        '4'
    } else if d == 5 {
        '5'
    } else if d == 6 {
        '6'
    } else if d == 7 {
        '7'
    } else if d == 8 {
        '8'
    } else {
        '9'
    }
}

/// Decimal representation of `n` (`n.to_string()`).
pub open spec fn decimal(n: nat) -> Seq<char>
    decreases n,
{
    if n < 10 {
        seq![digit_char(n)]
    } else {
        decimal(n / 10).push(digit_char(n % 10))
    }
}

fn digit_exec(d: usize) -> (c: char)
    requires
        d < 10,
    ensures
        c == digit_char(d as nat),
{
    if d == 0 {
        '0'
    } else if d == 1 {
        '1'
    } else if d == 2 {
        '2'
    } else if d == 3 {
        '3'
    } else if d == 4 {
        '4'
    } else if d == 5 {
        '5'
    } else if d == 6 {
        '6'
    } else if d == 7 {
        '7'
    } else if d == 8 {
        '8'
    } else {
        '9'
    }
}

/// Appends the decimal representation of `n`.
pub fn push_decimal(out: &mut Vec<char>, n: usize)
    ensures
        final(out)@ == old(out)@ + decimal(n as nat),
    decreases n,
{
    if n >= 10 {
        push_decimal(out, n / 10);
    }
    out.push(digit_exec(n % 10));
    assert(out@ =~= old(out)@ + decimal(n as nat));
}

/// A `<navPoint ...>` opening tag with its `playOrder` value replaced by `n`
/// (or, when the tag has none, inserted right after the element name).
pub open spec fn play_order_set(tag: Seq<char>, n: nat) -> Seq<char> {
    let needle = "playOrder=\""@;
    let fallback = "<navPoint playOrder=\""@ + decimal(n) + "\""@ + tag.subrange(
        "<navPoint"@.len() as int,
        tag.len() as int,
    );
    match find_from(tag, needle, 0) {
        Some(a) => match find_from(tag, "\""@, a + needle.len()) {
            Some(ve) => tag.subrange(0, a + needle.len()) + decimal(n) + tag.subrange(
                ve,
                tag.len() as int,
            ),
            None => fallback,
        },
        None => fallback,
    }
}

fn set_play_order_chars(tag: &[char], n: usize) -> (r: Vec<char>)
    requires
        starts_with(tag@, "<navPoint"@),
    ensures
        r@ == play_order_set(tag@, n as nat),
{
    let needle = chars_of("playOrder=\"");
    let quote = chars_of("\"");
    let nav = chars_of("<navPoint");
    if let Some(a) = find(tag, needle.as_slice(), 0) {
        let vstart = a + needle.len();
        if let Some(vend) = find(tag, quote.as_slice(), vstart) {
            let mut out = slice_of(tag, 0, vstart);
            push_decimal(&mut out, n);
            let rest = slice_of(tag, vend, tag.len());
            push_all(&mut out, rest.as_slice());
            return out;
        }
    }
    let mut out = chars_of("<navPoint playOrder=\"");
    push_decimal(&mut out, n);
    push_str(&mut out, "\"");
    let rest = slice_of(tag, nav.len(), tag.len());
    push_all(&mut out, rest.as_slice());
    out
}

/// Replaces (or, defensively, inserts) the `playOrder` attribute value inside
/// a `<navPoint ...>` opening tag.
pub fn set_play_order(tag: &str, n: usize) -> (r: String)
    requires
        starts_with(tag@, "<navPoint"@),
    ensures
        r@ == play_order_set(tag@, n as nat),
{
    let t = chars_of(tag);
    let r = set_play_order_chars(t.as_slice(), n);
    string_of(r.as_slice())
}

/// Opening tags `open...>` in `s` at or after `from`, as `(start, end)`
/// index pairs (end is just past the `>`), in document order.
pub open spec fn tags_from(s: Seq<char>, open: Seq<char>, from: int) -> Seq<(int, int)>
    decreases s.len() + 1 - from,
{
    if from < 0 || from > s.len() {
        Seq::empty()
    } else {
        match find_from(s, open, from) {
            None => Seq::empty(),
            Some(st) => match find_from(s, ">"@, st) {
                None => Seq::empty(),
                Some(gt) => {
                    proof {
                        lemma_find_from(s, open, from);
                        lemma_find_from(s, ">"@, st);
                        reveal_strlit(">");
                    }
                    seq![(st, gt + 1)] + tags_from(s, open, gt + 1)
                },
            },
        }
    }
}

/// The value of the first `src="..."` attribute inside a tag, if terminated.
pub open spec fn src_of(tag: Seq<char>) -> Option<Seq<char>> {
    match find_from(tag, "src=\""@, 0) {
        None => None,
        Some(a) => match find_from(tag, "\""@, a + "src=\""@.len()) {
            None => None,
            Some(e) => Some(tag.subrange(a + "src=\""@.len(), e)),
        },
    }
}

/// `tag` is `pre`, then `src="`, then `v`, then `"`, then `post`, where no
/// `src="` starts earlier than `pre`'s end and `v` holds no quote.
pub open spec fn src_split(tag: Seq<char>, pre: Seq<char>, v: Seq<char>, post: Seq<char>) -> bool {
    &&& tag == pre + "src=\""@ + v + "\""@ + post
    &&& forall|j: int| 0 <= j < pre.len() ==> !matches_at(tag, "src=\""@, j)
    &&& forall|j: int| 0 <= j < v.len() ==> v[j] != '"'
}

/// The tag of `s` at `t` splits around the quoted value `v` (`src_split`).
pub open spec fn src_tag_split(s: Seq<char>, t: (int, int), v: Seq<char>) -> bool {
    exists|pre: Seq<char>, post: Seq<char>| src_split(s.subrange(t.0, t.1), pre, v, post)
}

/// The `src` of a tag is the whole text between its first `src="` and the
/// next quote, fragment included: nothing is cut from it.
pub proof fn src_is_the_whole_quoted_value(tag: Seq<char>, pre: Seq<char>, v: Seq<char>, post: Seq<char>)
    requires
        src_split(tag, pre, v, post),
    ensures
        src_of(tag) == Some(v),
{
    let key = "src=\""@;
    let q = "\""@;
    reveal_strlit("src=\"");
    reveal_strlit("\"");
    let a = pre.len() as int;
    assert(tag.subrange(a, a + key.len()) =~= key);
    lemma_find_first(tag, key, 0, a);
    let vs = a + key.len();
    let e = vs + v.len();
    assert(tag.subrange(e, e + 1) =~= q);
    assert forall|j: int| vs <= j < e implies !matches_at(tag, q, j) by {
        assert(tag[j] == v[j - vs]);
        if matches_at(tag, q, j) {
            assert(tag.subrange(j, j + 1)[0] == tag[j]);
        }
    }
    lemma_find_first(tag, q, vs, e);
    assert(tag.subrange(vs, e) =~= v);
}

/// The `src` values collected from `<content>` tags are, in order, the whole
/// quoted values of those tags: when every tag splits as `src_split` says,
/// the values are exactly the quoted parts, so two navPoints get the same
/// playOrder only when their `src` strings are equal, fragment included.
pub proof fn content_srcs_are_the_quoted_values(
    s: Seq<char>,
    tags: Seq<(int, int)>,
    vs: Seq<Seq<char>>,
)
    requires
        vs.len() == tags.len(),
        forall|k: int| 0 <= k < tags.len() ==> #[trigger] src_tag_split(s, tags[k], vs[k]),
    ensures
        content_srcs(s, tags) == vs,
    decreases tags.len(),
{
    if tags.len() > 0 {
        let k = tags.len() - 1;
        assert(src_tag_split(s, tags[k], vs[k]));
        let (pre, post) = choose|pre: Seq<char>, post: Seq<char>|
            src_split(s.subrange(tags[k].0, tags[k].1), pre, vs[k], post);
        src_is_the_whole_quoted_value(s.subrange(tags[k].0, tags[k].1), pre, vs[k], post);
        assert(src_tag_split(s, tags[k], vs[k]));
        assert forall|j: int| 0 <= j < tags.drop_last().len() implies #[trigger] src_tag_split(
            s,
            tags.drop_last()[j],
            vs.drop_last()[j],
        ) by {
            assert(tags.drop_last()[j] == tags[j]);
            assert(vs.drop_last()[j] == vs[j]);
            assert(src_tag_split(s, tags[j], vs[j]));
        }
        content_srcs_are_the_quoted_values(s, tags.drop_last(), vs.drop_last());
        assert(vs =~= vs.drop_last().push(vs[k]));
    } else {
        assert(vs =~= Seq::<Seq<char>>::empty());
    }
}

/// The `src` values of the `<content ...>` tags (those that have one), in
/// document order.
pub open spec fn content_srcs(s: Seq<char>, tags: Seq<(int, int)>) -> Seq<Seq<char>>
    decreases tags.len(),
{
    if tags.len() == 0 {
        Seq::empty()
    } else {
        let t = tags.last();
        let rest = content_srcs(s, tags.drop_last());
        match src_of(s.subrange(t.0, t.1)) {
            Some(v) => rest.push(v),
            None => rest,
        }
    }
}

/// Index of the first occurrence of `x` in `v` at or after `j` (or `v.len()`).
pub open spec fn first_from(v: Seq<Seq<char>>, x: Seq<char>, j: int) -> int
    decreases v.len() - j,
{
    if j < 0 || j >= v.len() {
        v.len() as int
    } else if v[j] == x {
        j
    } else {
        first_from(v, x, j + 1)
    }
}

/// Index of the first entry equal to `v[i]`.
pub open spec fn first_index(v: Seq<Seq<char>>, i: int) -> int {
    first_from(v, v[i], 0)
}

/// How many distinct values occur in `v[..i]`.
pub open spec fn distinct_before(v: Seq<Seq<char>>, i: int) -> nat
    decreases i,
{
    if i <= 0 {
        0
    } else if first_index(v, i - 1) == i - 1 {
        distinct_before(v, i - 1) + 1
    } else {
        distinct_before(v, i - 1)
    }
}

/// The play order given to entry `i`: entries are numbered from 1 in order of
/// first appearance of their target; repeated targets reuse that number.
pub open spec fn play_number(v: Seq<Seq<char>>, i: int) -> nat {
    distinct_before(v, first_index(v, i)) + 1
}

/// `s[cursor..]` with the tags `tags[k..]` given the play orders `nums[k..]`.
pub open spec fn renumbered_from(
    s: Seq<char>,
    tags: Seq<(int, int)>,
    nums: Seq<nat>,
    k: int,
    cursor: int,
) -> Seq<char>
    decreases tags.len() - k,
{
    if k < 0 || k >= tags.len() {
        s.subrange(cursor, s.len() as int)
    } else {
        s.subrange(cursor, tags[k].0) + play_order_set(s.subrange(tags[k].0, tags[k].1), nums[k])
            + renumbered_from(s, tags, nums, k + 1, tags[k].1)
    }
}

/// The NCX with every navPoint's `playOrder` renumbered; unchanged when the
/// navPoint and `<content>` tags do not pair up one to one.
pub open spec fn ncx_renumbered(ncx: Seq<char>) -> Seq<char> {
    let tags = tags_from(ncx, "<navPoint"@, 0);
    let srcs = content_srcs(ncx, tags_from(ncx, "<content"@, 0));
    if tags.len() != srcs.len() || tags.len() == 0 {
        ncx
    } else {
        renumbered_from(ncx, tags, Seq::new(srcs.len(), |i: int| play_number(srcs, i)), 0, 0)
    }
}

/// Facts about the tags found from `from`: ordered, within bounds, each one
/// starting with `open`.
pub proof fn lemma_tags_from(s: Seq<char>, open: Seq<char>, from: int)
    requires
        0 <= from,
    ensures
        forall|k: int|
            0 <= k < tags_from(s, open, from).len() ==> {
                let t = #[trigger] tags_from(s, open, from)[k];
                &&& from <= t.0 < t.1 <= s.len()
                &&& matches_at(s, open, t.0)
                &&& s[t.1 - 1] == '>'
                &&& k + 1 < tags_from(s, open, from).len() ==> t.1 <= tags_from(
                    s,
                    open,
                    from,
                )[k + 1].0
            },
    decreases s.len() + 1 - from,
{
    if from > s.len() {
    } else {
        lemma_find_from(s, open, from);
        match find_from(s, open, from) {
            None => {},
            Some(st) => {
                lemma_find_from(s, ">"@, st);
                reveal_strlit(">");
                match find_from(s, ">"@, st) {
                    None => {},
                    Some(gt) => {
                        lemma_tags_from(s, open, gt + 1);
                        let rest = tags_from(s, open, gt + 1);
                        let all = tags_from(s, open, from);
                        assert(all == seq![(st, gt + 1)] + rest);
                        assert(s.subrange(gt, gt + 1)[0] == s[gt]);
                        assert forall|k: int| 0 <= k < all.len() implies {
                            let t = #[trigger] all[k];
                            &&& from <= t.0 < t.1 <= s.len()
                            &&& matches_at(s, open, t.0)
                            &&& s[t.1 - 1] == '>'
                            &&& k + 1 < all.len() ==> t.1 <= all[k + 1].0
                        } by {
                            if k > 0 {
                                assert(all[k] == rest[k - 1]);
                            }
                            if k + 1 < all.len() {
                                assert(all[k + 1] == rest[k]);
                            }
                        }
                    },
                }
            },
        }
    }
}

pub proof fn lemma_first_from(v: Seq<Seq<char>>, x: Seq<char>, j: int)
    requires
        0 <= j <= v.len(),
    ensures
        j <= first_from(v, x, j) <= v.len(),
        first_from(v, x, j) < v.len() ==> v[first_from(v, x, j)] == x,
        forall|m: int| j <= m < first_from(v, x, j) ==> v[m] != x,
    decreases v.len() - j,
{
    if j < v.len() && v[j] != x {
        lemma_first_from(v, x, j + 1);
    }
}

pub proof fn lemma_first_index(v: Seq<Seq<char>>, i: int)
    requires
        0 <= i < v.len(),
    ensures
        0 <= first_index(v, i) <= i,
        v[first_index(v, i)] == v[i],
        first_index(v, first_index(v, i)) == first_index(v, i),
        forall|m: int| 0 <= m < first_index(v, i) ==> v[m] != v[i],
{
    lemma_first_from(v, v[i], 0);
    let j = first_index(v, i);
    lemma_first_from(v, v[j], 0);
}

proof fn lemma_distinct_before_mono(v: Seq<Seq<char>>, a: int, b: int)
    requires
        0 <= a <= b,
    ensures
        distinct_before(v, a) <= distinct_before(v, b),
    decreases b - a,
{
    if a < b {
        lemma_distinct_before_mono(v, a, b - 1);
    }
}

/// The play orders given to the navPoints of an NCX whose targets are `v`:
/// two navPoints share a number exactly when they share a target; numbers
/// start at 1, grow with the order in which targets first appear, and the
/// first navPoint of each target gets one more than the number of targets
/// seen before it.
pub proof fn play_numbers_follow_first_appearance(v: Seq<Seq<char>>, i: int, j: int)
    requires
        0 <= i < v.len(),
        0 <= j < v.len(),
    ensures
        (v[i] == v[j]) <==> (play_number(v, i) == play_number(v, j)),
        first_index(v, i) < first_index(v, j) ==> play_number(v, i) < play_number(v, j),
        play_number(v, 0) == 1,
        first_index(v, i) == i ==> play_number(v, i) == distinct_before(v, i) + 1,
        1 <= play_number(v, i) <= i + 1,
{
    lemma_first_index(v, i);
    lemma_first_index(v, j);
    lemma_first_index(v, 0);
    let fi = first_index(v, i);
    let fj = first_index(v, j);
    assert(distinct_before(v, 0) == 0);
    if fi < fj {
        lemma_distinct_before_mono(v, fi + 1, fj);
        assert(first_index(v, fi) == fi);
        assert(distinct_before(v, fi + 1) == distinct_before(v, fi) + 1);
    }
    if fj < fi {
        lemma_distinct_before_mono(v, fj + 1, fi);
        assert(first_index(v, fj) == fj);
        assert(distinct_before(v, fj + 1) == distinct_before(v, fj) + 1);
    }
    if v[i] == v[j] {
        assert(fi == fj);
    } else {
        if fi == fj {
            assert(v[fi] == v[i] && v[fj] == v[j]);
        }
    }
    lemma_distinct_before_le(v, fi);
}

proof fn lemma_distinct_before_le(v: Seq<Seq<char>>, i: int)
    requires
        0 <= i,
    ensures
        distinct_before(v, i) <= i,
    decreases i,
{
    if i > 0 {
        lemma_distinct_before_le(v, i - 1);
    }
}

/// The view of a vector of character vectors.
pub open spec fn views(v: Seq<Vec<char>>) -> Seq<Seq<char>> {
    Seq::new(v.len(), |i: int| v[i]@)
}

#[verifier::spinoff_prover]
#[verifier::rlimit(30)]
fn play_numbers_exec(srcs: &Vec<Vec<char>>) -> (r: Vec<usize>)
    ensures
        r@.len() == srcs@.len(),
        forall|k: int| 0 <= k < r@.len() ==> r@[k] as nat == play_number(views(srcs@), k),
{
    let ghost v = views(srcs@);
    let mut nums: Vec<usize> = Vec::new();
    let mut next: usize = 0;
    let n = srcs.len();
    for i in 0..n
        invariant
            n == srcs@.len(),
            v == views(srcs@),
            nums@.len() == i,
            next == distinct_before(v, i as int),
            next <= i,
            forall|k: int| 0 <= k < i ==> nums@[k] as nat == play_number(v, k),
    {
        let mut j: usize = 0;
        let mut found = false;
        while j < i && !found
            invariant
                found ==> j < i && v[j as int] == v[i as int],
                n == srcs@.len(),
                v == views(srcs@),
                i < n,
                j <= i,
                forall|m: int| 0 <= m < j ==> v[m] != v[i as int],
            decreases i - j + (if found { 0int } else { 1int }),
        {
            if crate::text::eq_chars(srcs[j].as_slice(), srcs[i].as_slice()) {
                found = true;
            } else {
                j = j + 1;
            }
        }
        proof {
            lemma_first_index(v, i as int);
            lemma_first_from(v, v[i as int], 0);
        }
        assert(j == first_index(v, i as int));
        if j == i {
            next = next + 1;
            assert(play_number(v, i as int) == next as nat);
            nums.push(next);
        } else {
            assert(first_index(v, j as int) == j);
            assert(play_number(v, i as int) == play_number(v, j as int));
            let x = nums[j];
            nums.push(x);
        }
        assert(forall|k: int| 0 <= k < i + 1 ==> nums@[k] as nat == play_number(v, k));
    }
    nums
}

#[verifier::spinoff_prover]
#[verifier::rlimit(30)]
fn collect_tags(s: &[char], open: &[char]) -> (r: Vec<(usize, usize)>)
    ensures
        r@.len() == tags_from(s@, open@, 0).len(),
        forall|k: int|
            0 <= k < r@.len() ==> r@[k].0 as int == tags_from(s@, open@, 0)[k].0 && r@[k].1 as int
                == tags_from(s@, open@, 0)[k].1,
{
    let gt = chars_of(">");
    let ghost all = tags_from(s@, open@, 0);
    let mut acc: Vec<(usize, usize)> = Vec::new();
    let mut pos: usize = 0;
    loop
        invariant
            gt@ == ">"@,
            pos <= s@.len(),
            all == tags_from(s@, open@, 0),
            all == Seq::new(acc@.len(), |k: int| (acc@[k].0 as int, acc@[k].1 as int))
                + tags_from(s@, open@, pos as int),
        decreases s@.len() - pos,
    {
        proof {
            reveal_strlit(">");
            lemma_find_from(s@, open@, pos as int);
        }
        let st = match find(s, open, pos) {
            Some(st) => st,
            None => {
                assert(all =~= Seq::new(acc@.len(), |k: int| (acc@[k].0 as int, acc@[k].1 as int)));
                return acc;
            },
        };
        proof {
            lemma_find_from(s@, gt@, st as int);
        }
        let close = match find(s, gt.as_slice(), st) {
            Some(c) => c,
            None => {
                assert(all =~= Seq::new(acc@.len(), |k: int| (acc@[k].0 as int, acc@[k].1 as int)));
                return acc;
            },
        };
        let ghost old_acc = Seq::new(acc@.len(), |k: int| (acc@[k].0 as int, acc@[k].1 as int));
        acc.push((st, close + 1));
        assert(Seq::new(acc@.len(), |k: int| (acc@[k].0 as int, acc@[k].1 as int)) =~= old_acc.push(
            (st as int, close + 1),
        ));
        assert(tags_from(s@, open@, pos as int) == seq![(st as int, close + 1)] + tags_from(
            s@,
            open@,
            close + 1,
        ));
        assert(all =~= Seq::new(acc@.len(), |k: int| (acc@[k].0 as int, acc@[k].1 as int))
            + tags_from(s@, open@, close + 1));
        pos = close + 1;
    }
}

fn src_of_exec(tag: &[char]) -> (r: Option<Vec<char>>)
    ensures
        r matches Some(v) ==> src_of(tag@) == Some(v@),
        r is None ==> src_of(tag@) is None,
{
    let needle = chars_of("src=\"");
    let quote = chars_of("\"");
    let a = match find(tag, needle.as_slice(), 0) {
        Some(a) => a,
        None => return None,
    };
    let vstart = a + needle.len();
    match find(tag, quote.as_slice(), vstart) {
        Some(e) => Some(slice_of(tag, vstart, e)),
        None => None,
    }
}

fn collect_srcs(s: &[char], ctags: &Vec<(usize, usize)>) -> (r: Vec<Vec<char>>)
    requires
        ctags@.len() == tags_from(s@, "<content"@, 0).len(),
        forall|k: int|
            0 <= k < ctags@.len() ==> ctags@[k].0 as int == tags_from(s@, "<content"@, 0)[k].0
                && ctags@[k].1 as int == tags_from(s@, "<content"@, 0)[k].1,
    ensures
        views(r@) == content_srcs(s@, tags_from(s@, "<content"@, 0)),
{
    let ghost t = tags_from(s@, "<content"@, 0);
    proof {
        lemma_tags_from(s@, "<content"@, 0);
    }
    let mut out: Vec<Vec<char>> = Vec::new();
    let n = ctags.len();
    for k in 0..n
        invariant
            n == ctags@.len(),
            t == tags_from(s@, "<content"@, 0),
            ctags@.len() == t.len(),
            forall|m: int|
                0 <= m < ctags@.len() ==> ctags@[m].0 as int == t[m].0 && ctags@[m].1 as int
                    == t[m].1,
            forall|m: int| 0 <= m < t.len() ==> 0 <= (#[trigger] t[m]).0 < t[m].1 <= s@.len(),
            views(out@) == content_srcs(s@, t.take(k as int)),
    {
        let (a, b) = ctags[k];
        assert(t.take(k + 1).drop_last() =~= t.take(k as int));
        assert(t.take(k + 1).last() == t[k as int]);
        let tag = slice_of(s, a, b);
        match src_of_exec(tag.as_slice()) {
            Some(v) => {
                let ghost before = views(out@);
                out.push(v);
                assert(views(out@) =~= before.push(v@));
            },
            None => {},
        }
    }
    assert(t.take(n as int) =~= t);
    out
}

fn fixed_nav_tag(ncx: &[char], a: usize, b: usize, n: usize) -> (r: Vec<char>)
    requires
        matches_at(ncx@, "<navPoint"@, a as int),
        a < b <= ncx@.len(),
        ncx@[b - 1] == '>',
    ensures
        r@ == play_order_set(ncx@.subrange(a as int, b as int), n as nat),
{
    let tag = slice_of(ncx, a, b);
    proof {
        lemma_open_tag_closes_after_name(ncx@, a as int, b as int);
        reveal_strlit("<navPoint");
        assert(tag@.subrange(0, 9) =~= ncx@.subrange(a as int, a + 9));
    }
    set_play_order_chars(tag.as_slice(), n)
}

proof fn lemma_renumber_step(
    s: Seq<char>,
    t: Seq<(int, int)>,
    nv: Seq<nat>,
    k: int,
    cursor: int,
    before: Seq<char>,
    gap: Seq<char>,
    fixed: Seq<char>,
    after: Seq<char>,
)
    requires
        0 <= k < t.len(),
        gap == s.subrange(cursor, t[k].0),
        fixed == play_order_set(s.subrange(t[k].0, t[k].1), nv[k]),
        after == before + gap + fixed,
    ensures
        after + renumbered_from(s, t, nv, k + 1, t[k].1) == before + renumbered_from(
            s,
            t,
            nv,
            k,
            cursor,
        ),
{
    assert(after + renumbered_from(s, t, nv, k + 1, t[k].1) =~= before + (gap + fixed
        + renumbered_from(s, t, nv, k + 1, t[k].1)));
}

#[verifier::rlimit(40)]
#[verifier::spinoff_prover]
fn renumber_chars(ncx: &[char]) -> (r: Vec<char>)
    ensures
        r@ == ncx_renumbered(ncx@),
{
    let open = chars_of("<navPoint");
    let content = chars_of("<content");
    let tags = collect_tags(ncx, open.as_slice());
    let ctags = collect_tags(ncx, content.as_slice());
    let srcs = collect_srcs(ncx, &ctags);
    let ghost t = tags_from(ncx@, "<navPoint"@, 0);
    let ghost v = content_srcs(ncx@, tags_from(ncx@, "<content"@, 0));
    if tags.len() != srcs.len() || tags.len() == 0 {
        return slice_of(ncx, 0, ncx.len());
    }
    let nums = play_numbers_exec(&srcs);
    let ghost nv = Seq::new(v.len(), |i: int| play_number(v, i));
    proof {
        lemma_tags_from(ncx@, "<navPoint"@, 0);
    }
    let mut out: Vec<char> = Vec::new();
    let mut cursor: usize = 0;
    let n = tags.len();
    for k in 0..n
        invariant
            n == tags@.len(),
            n == t.len(),
            n == nums@.len(),
            nv.len() == n,
            t == tags_from(ncx@, "<navPoint"@, 0),
            forall|m: int|
                0 <= m < n ==> tags@[m].0 as int == t[m].0 && tags@[m].1 as int == t[m].1,
            forall|m: int| 0 <= m < n ==> nums@[m] as nat == nv[m],
            forall|m: int|
                0 <= m < n ==> {
                    let tm = #[trigger] t[m];
                    &&& 0 <= tm.0 < tm.1 <= ncx@.len()
                    &&& matches_at(ncx@, "<navPoint"@, tm.0)
                    &&& ncx@[tm.1 - 1] == '>'
                    &&& m + 1 < n ==> tm.1 <= t[m + 1].0
                },
            cursor <= ncx@.len(),
            k < n ==> cursor <= t[k as int].0,
            k > 0 ==> cursor == t[k - 1].1,
            out@ + renumbered_from(ncx@, t, nv, k as int, cursor as int) == renumbered_from(
                ncx@,
                t,
                nv,
                0,
                0,
            ),
    {
        let (a, b) = tags[k];
        let ghost before = out@;
        let ghost c0 = cursor as int;
        let gap = slice_of(ncx, cursor, a);
        push_all(&mut out, gap.as_slice());
        let fixed = fixed_nav_tag(ncx, a, b, nums[k]);
        push_all(&mut out, fixed.as_slice());
        cursor = b;
        proof {
            lemma_renumber_step(ncx@, t, nv, k as int, c0, before, gap@, fixed@, out@);
        }
    }
    assert(renumbered_from(ncx@, t, nv, n as int, cursor as int) == ncx@.subrange(
        cursor as int,
        ncx@.len() as int,
    ));
    let rest = slice_of(ncx, cursor, ncx.len());
    push_all(&mut out, rest.as_slice());
    out
}

/// The `>` that ends a `<navPoint` tag lies after the element name.
proof fn lemma_open_tag_closes_after_name(s: Seq<char>, a: int, b: int)
    requires
        matches_at(s, "<navPoint"@, a),
        a < b <= s.len(),
        s[b - 1] == '>',
    ensures
        a + 9 <= b,
{
    reveal_strlit("<navPoint");
    if b - 1 < a + 9 {
        assert(s.subrange(a, a + 9)[b - 1 - a] == s[b - 1]);
    }
}

/// Renumbers every `navPoint`'s `playOrder` in a generated toc.ncx, in
/// document order and 1-based, advancing only on the first appearance of each
/// content `src`: navPoints that refer to the same target share one value.
pub fn renumber_ncx_play_order(ncx: &str) -> (r: String)
    ensures
        r@ == ncx_renumbered(ncx@),
{
    let c = chars_of(ncx);
    let r = renumber_chars(c.as_slice());
    string_of(r.as_slice())
}

// ---------------------------------------------------------------------------
// nav.xhtml and OPF text surgery

/// The text with `orientation_attrs` inserted right after the name of its
/// first `<html` tag (unchanged when there is no such tag, no `>` after it,
/// or nothing to add).
pub open spec fn html_oriented(x: Seq<char>, dir: Seq<char>, lang: Option<Seq<char>>) -> Seq<char> {
    match find_from(x, "<html"@, 0) {
        None => x,
        Some(p) => {
            let a = p + "<html"@.len();
            match find_from(x, ">"@, a) {
                None => x,
                Some(te) => {
                    let inject = orientation_attrs(x.subrange(a, te), dir, lang);
                    if inject.len() == 0 {
                        x
                    } else {
                        x.subrange(0, a) + inject + x.subrange(a, x.len() as int)
                    }
                },
            }
        },
    }
}

/// The attributes added to an `<html>` tag whose attributes are `existing`:
/// `dir`, `xml:lang` and `lang`, each unless already present.
pub open spec fn orientation_attrs(existing: Seq<char>, dir: Seq<char>, lang: Option<Seq<char>>) -> Seq<
    char,
> {
    let dir_part = if !contains(existing, " dir="@) {
        " dir=\""@ + escaped(dir) + "\""@
    } else {
        Seq::empty()
    };
    let lang_part = match lang {
        Some(l) => (if !contains(existing, "xml:lang="@) {
            " xml:lang=\""@ + escaped(l) + "\""@
        } else {
            Seq::empty()
        }) + (if !contains(existing, " lang="@) {
            " lang=\""@ + escaped(l) + "\""@
        } else {
            Seq::empty()
        }),
        None => Seq::empty(),
    };
    dir_part + lang_part
}

fn orientation_attrs_exec(existing: &[char], dir: &[char], lang: Option<&[char]>) -> (r: Vec<char>)
    ensures
        r@ == orientation_attrs(
            existing@,
            dir@,
            match lang {
                Some(l) => Some(l@),
                None => None,
            },
        ),
{
    let mut inject: Vec<char> = Vec::new();
    let dir_key = chars_of(" dir=");
    if !contains_exec(existing, dir_key.as_slice()) {
        push_str(&mut inject, " dir=\"");
        push_escaped(&mut inject, dir);
        push_str(&mut inject, "\"");
    }
    match lang {
        Some(l) => {
            let xml_lang = chars_of("xml:lang=");
            let lang_key = chars_of(" lang=");
            let mut lang_part: Vec<char> = Vec::new();
            if !contains_exec(existing, xml_lang.as_slice()) {
                push_str(&mut lang_part, " xml:lang=\"");
                push_escaped(&mut lang_part, l);
                push_str(&mut lang_part, "\"");
            }
            if !contains_exec(existing, lang_key.as_slice()) {
                push_str(&mut lang_part, " lang=\"");
                push_escaped(&mut lang_part, l);
                push_str(&mut lang_part, "\"");
            }
            push_all(&mut inject, lang_part.as_slice());
        },
        None => {},
    }
    inject
}

#[verifier::spinoff_prover]
#[verifier::rlimit(30)]
fn add_dir_and_lang_chars(x: &[char], dir: &[char], lang: Option<&[char]>) -> (r: Vec<char>)
    ensures
        r@ == html_oriented(
            x@,
            dir@,
            match lang {
                Some(l) => Some(l@),
                None => None,
            },
        ),
{
    let html = chars_of("<html");
    let gt = chars_of(">");
    let p = match find(x, html.as_slice(), 0) {
        Some(p) => p,
        None => {
            let r = slice_of(x, 0, x.len());
            assert(r@ =~= x@);
            return r;
        },
    };
    let attrs_start = p + html.len();
    let tag_end = match find(x, gt.as_slice(), attrs_start) {
        Some(e) => e,
        None => {
            let r = slice_of(x, 0, x.len());
            assert(r@ =~= x@);
            return r;
        },
    };
    let existing = slice_of(x, attrs_start, tag_end);
    let inject = orientation_attrs_exec(existing.as_slice(), dir, lang);
    if inject.len() == 0 {
        let r = slice_of(x, 0, x.len());
        assert(r@ =~= x@);
        return r;
    }
    let mut out = slice_of(x, 0, attrs_start);
    push_all(&mut out, inject.as_slice());
    let rest = slice_of(x, attrs_start, x.len());
    push_all(&mut out, rest.as_slice());
    out
}

/// Injects `dir` and the document language onto the root `<html>` element of
/// an XHTML text (used to orient the generated nav.xhtml for RTL books).
/// Existing `dir`/`lang` attributes are left untouched.
pub fn add_dir_and_lang_to_html(xhtml: &str, dir: &str, lang: Option<&str>) -> (r: String)
    ensures
        r@ == html_oriented(
            xhtml@,
            dir@,
            match lang {
                Some(l) => Some(l@),
                None => None,
            },
        ),
{
    let x = chars_of(xhtml);
    let d = chars_of(dir);
    let r = match lang {
        Some(l) => {
            let lc = chars_of(l);
            add_dir_and_lang_chars(x.as_slice(), d.as_slice(), Some(lc.as_slice()))
        },
        None => add_dir_and_lang_chars(x.as_slice(), d.as_slice(), None),
    };
    string_of(r.as_slice())
}

/// `s[pos..]` with every non-overlapping occurrence of `a` (scanning left to
/// right) replaced by `b`, as `str::replace` does for a non-empty pattern.
pub open spec fn replaced_from(s: Seq<char>, a: Seq<char>, b: Seq<char>, pos: int) -> Seq<char>
    decreases s.len() + 1 - pos,
{
    if pos < 0 || pos > s.len() || a.len() == 0 {
        s.subrange(pos, s.len() as int)
    } else {
        match find_from(s, a, pos) {
            None => s.subrange(pos, s.len() as int),
            Some(i) => {
                proof {
                    lemma_find_from(s, a, pos);
                }
                s.subrange(pos, i) + b + replaced_from(s, a, b, i + a.len())
            },
        }
    }
}

/// `s.replace(a, b)` for a non-empty `a`.
pub fn replace_chars(s: &[char], a: &[char], b: &[char]) -> (r: Vec<char>)
    requires
        a@.len() > 0,
    ensures
        r@ == replaced_from(s@, a@, b@, 0),
{
    let mut out: Vec<char> = Vec::new();
    let mut pos: usize = 0;
    loop
        invariant
            a@.len() > 0,
            pos <= s@.len(),
            out@ + replaced_from(s@, a@, b@, pos as int) == replaced_from(s@, a@, b@, 0),
        decreases s@.len() - pos,
    {
        match find(s, a, pos) {
            None => {
                let rest = slice_of(s, pos, s.len());
                push_all(&mut out, rest.as_slice());
                return out;
            },
            Some(i) => {
                let gap = slice_of(s, pos, i);
                push_all(&mut out, gap.as_slice());
                push_all(&mut out, b);
                assert(out@ + replaced_from(s@, a@, b@, i + a@.len()) =~= replaced_from(
                    s@,
                    a@,
                    b@,
                    0,
                ));
                pos = i + a.len();
            },
        }
    }
}

/// Every `<dc:language ...>` opening tag with `id="epub-creator-` renamed to
/// `id="epub-lang-`, from index `cursor` on.
pub open spec fn lang_ids_fixed_from(opf: Seq<char>, cursor: int) -> Seq<char>
    decreases opf.len() + 1 - cursor,
{
    if cursor < 0 || cursor > opf.len() {
        Seq::empty()
    } else {
        match find_from(opf, "<dc:language "@, cursor) {
            None => opf.subrange(cursor, opf.len() as int),
            Some(abs) => match find_from(opf, ">"@, abs) {
                None => opf.subrange(cursor, opf.len() as int),
                Some(gt) => {
                    proof {
                        lemma_find_from(opf, "<dc:language "@, cursor);
                        lemma_find_from(opf, ">"@, abs);
                        reveal_strlit(">");
                    }
                    opf.subrange(cursor, abs) + replaced_from(
                        opf.subrange(abs, gt + 1),
                        "id=\"epub-creator-"@,
                        "id=\"epub-lang-"@,
                        0,
                    ) + lang_ids_fixed_from(opf, gt + 1)
                },
            },
        }
    }
}

proof fn lemma_no_creator_id(t: Seq<char>, pos: int)
    requires
        0 <= pos <= t.len(),
    ensures
        forall|k: int|
            !matches_at(
                #[trigger] replaced_from(t, "id=\"epub-creator-"@, "id=\"epub-lang-"@, pos),
                "id=\"epub-creator-"@,
                k,
            ),
    decreases t.len() + 1 - pos,
{
    let a = "id=\"epub-creator-"@;
    let b = "id=\"epub-lang-"@;
    reveal_strlit("id=\"epub-creator-");
    reveal_strlit("id=\"epub-lang-");
    lemma_find_from(t, a, pos);
    let r = replaced_from(t, a, b, pos);
    match find_from(t, a, pos) {
        None => {
            assert(r == t.subrange(pos, t.len() as int));
            assert forall|k: int| !matches_at(r, a, k) by {
                if matches_at(r, a, k) {
                    assert(t.subrange(pos + k, pos + k + a.len()) =~= r.subrange(k, k + a.len()));
                    assert(matches_at(t, a, pos + k));
                }
            }
        },
        Some(i) => {
            lemma_no_creator_id(t, i + a.len());
            let x = t.subrange(pos, i);
            let y = replaced_from(t, a, b, i + a.len());
            assert(r == x + b + y);
            assert forall|k: int| !matches_at(r, a, k) by {
                if matches_at(r, a, k) {
                    let w = r.subrange(k, k + a.len());
                    assert(w == a);
                    if k + a.len() <= x.len() {
                        assert(t.subrange(pos + k, pos + k + a.len()) =~= w);
                        assert(matches_at(t, a, pos + k));
                    } else if k < x.len() {
                        let j = x.len() - k;
                        assert(w[j] == r[x.len() as int]);
                        assert(r[x.len() as int] == b[0]);
                    } else if k == x.len() {
                        assert(w[9] == r[k + 9]);
                        assert(r[k + 9] == b[9]);
                    } else if k < x.len() + b.len() {
                        assert(w[0] == r[k]);
                        assert(r[k] == b[k - x.len()]);
                    } else {
                        let k2 = k - x.len() - b.len();
                        assert(y.subrange(k2, k2 + a.len()) =~= w);
                        assert(matches_at(y, a, k2));
                    }
                }
            }
        },
    }
}

/// A `<dc:language>` tag rewritten by `fix_language_id_collision` keeps no
/// `id="epub-creator-...` attribute: the generator's colliding ids are all
/// renamed.
pub proof fn language_tag_keeps_no_creator_id(tag: Seq<char>)
    ensures
        !contains(
            replaced_from(tag, "id=\"epub-creator-"@, "id=\"epub-lang-"@, 0),
            "id=\"epub-creator-"@,
        ),
{
    let r = replaced_from(tag, "id=\"epub-creator-"@, "id=\"epub-lang-"@, 0);
    lemma_no_creator_id(tag, 0);
    lemma_find_from(r, "id=\"epub-creator-"@, 0);
    if contains(r, "id=\"epub-creator-"@) {
        let k = find_from(r, "id=\"epub-creator-"@, 0)->0;
        assert(matches_at(r, "id=\"epub-creator-"@, k));
    }
}

#[verifier::spinoff_prover]
#[verifier::rlimit(30)]
fn fix_language_chars(opf: &[char]) -> (r: Vec<char>)
    ensures
        r@ == lang_ids_fixed_from(opf@, 0),
{
    let open = chars_of("<dc:language ");
    let gt = chars_of(">");
    let old_id = chars_of("id=\"epub-creator-");
    let new_id = chars_of("id=\"epub-lang-");
    let mut out: Vec<char> = Vec::new();
    let mut cursor: usize = 0;
    loop
        invariant
            open@ == "<dc:language "@,
            gt@ == ">"@,
            old_id@ == "id=\"epub-creator-"@,
            new_id@ == "id=\"epub-lang-"@,
            cursor <= opf@.len(),
            out@ + lang_ids_fixed_from(opf@, cursor as int) == lang_ids_fixed_from(opf@, 0),
        decreases opf@.len() - cursor,
    {
        proof {
            reveal_strlit(">");
            reveal_strlit("id=\"epub-creator-");
        }
        let abs = match find(opf, open.as_slice(), cursor) {
            Some(a) => a,
            None => {
                let rest = slice_of(opf, cursor, opf.len());
                push_all(&mut out, rest.as_slice());
                return out;
            },
        };
        let close = match find(opf, gt.as_slice(), abs) {
            Some(c) => c,
            None => {
                let rest = slice_of(opf, cursor, opf.len());
                push_all(&mut out, rest.as_slice());
                return out;
            },
        };
        let tag_end = close + 1;
        let gap = slice_of(opf, cursor, abs);
        push_all(&mut out, gap.as_slice());
        let tag = slice_of(opf, abs, tag_end);
        let patched = replace_chars(tag.as_slice(), old_id.as_slice(), new_id.as_slice());
        push_all(&mut out, patched.as_slice());
        assert(out@ + lang_ids_fixed_from(opf@, tag_end as int) =~= lang_ids_fixed_from(opf@, 0));
        cursor = tag_end;
    }
}

/// In every `<dc:language ` start tag (up to its first `>`), replaces each
/// `id="epub-creator-` with `id="epub-lang-` (`lang_ids_fixed_from`); the
/// rest of the text is kept as it is.
pub fn fix_language_id_collision(opf: &str) -> (r: String)
    ensures
        r@ == lang_ids_fixed_from(opf@, 0),
{
    let o = chars_of(opf);
    let r = fix_language_chars(o.as_slice());
    string_of(r.as_slice())
}

/// `find_from` on `p + s`, from an index inside `s`, is `find_from` on `s`
/// shifted by `p.len()`.
proof fn lemma_find_shift(p: Seq<char>, s: Seq<char>, pat: Seq<char>, k: int)
    requires
        0 <= k,
    ensures
        find_from(p + s, pat, p.len() + k) == (match find_from(s, pat, k) {
            Some(i) => Some(i + p.len()),
            None => None::<int>,
        }),
    decreases s.len() + 1 - k,
{
    let ps = p + s;
    if k > s.len() || k + pat.len() > s.len() {
    } else {
        assert(ps.subrange(p.len() + k, p.len() + k + pat.len()) =~= s.subrange(k, k + pat.len()));
        assert(matches_at(ps, pat, p.len() + k) == matches_at(s, pat, k));
        if !matches_at(s, pat, k) {
            lemma_find_shift(p, s, pat, k + 1);
        }
    }
}

/// `lang_ids_fixed_from` on `p + s`, from an index inside `s`, only reads
/// `s`.
proof fn lemma_fixed_shift(p: Seq<char>, s: Seq<char>, k: int)
    requires
        0 <= k <= s.len(),
    ensures
        lang_ids_fixed_from(p + s, p.len() + k) == lang_ids_fixed_from(s, k),
    decreases s.len() + 1 - k,
{
    let ps = p + s;
    let open = "<dc:language "@;
    lemma_find_shift(p, s, open, k);
    match find_from(s, open, k) {
        None => {
            assert(ps.subrange(p.len() + k, ps.len() as int) =~= s.subrange(k, s.len() as int));
        },
        Some(abs) => {
            lemma_find_from(s, open, k);
            lemma_find_shift(p, s, ">"@, abs);
            match find_from(s, ">"@, abs) {
                None => {
                    assert(ps.subrange(p.len() + k, ps.len() as int) =~= s.subrange(
                        k,
                        s.len() as int,
                    ));
                },
                Some(gt) => {
                    lemma_find_from(s, ">"@, abs);
                    reveal_strlit(">");
                    lemma_fixed_shift(p, s, gt + 1);
                    assert(ps.subrange(p.len() + k, p.len() + abs) =~= s.subrange(k, abs));
                    assert(ps.subrange(p.len() + abs, p.len() + gt + 1) =~= s.subrange(abs, gt + 1));
                },
            }
        },
    }
}

/// Renaming the ids inside a `<dc:language ` tag leaves its opening
/// `<dc:language ` in place.
proof fn lemma_replaced_keeps_open(tag: Seq<char>)
    requires
        matches_at(tag, "<dc:language "@, 0),
    ensures
        ({
            let t = replaced_from(tag, "id=\"epub-creator-"@, "id=\"epub-lang-"@, 0);
            t.len() >= 13 && t.subrange(0, 13) == "<dc:language "@
        }),
{
    let a = "id=\"epub-creator-"@;
    let b = "id=\"epub-lang-"@;
    let open = "<dc:language "@;
    reveal_strlit("id=\"epub-creator-");
    reveal_strlit("id=\"epub-lang-");
    reveal_strlit("<dc:language ");
    lemma_find_from(tag, a, 0);
    assert(tag.subrange(0, 13) == open);
    match find_from(tag, a, 0) {
        None => {
            assert(tag.subrange(0, tag.len() as int) =~= tag);
        },
        Some(i) => {
            if i < 13 {
                assert(tag[i] == a[0]);
                assert(tag[i] == open[i]);
                assert(false);
            }
            let t = replaced_from(tag, a, b, 0);
            assert(t == tag.subrange(0, i) + b + replaced_from(tag, a, b, i + a.len()));
            assert(t.subrange(0, 13) =~= tag.subrange(0, 13));
        },
    }
}

/// Renaming the ids inside a tag that ends at its only `>` gives a text that
/// also ends at its only `>`.
proof fn lemma_replaced_one_gt(t: Seq<char>, pos: int)
    requires
        0 <= pos < t.len(),
        t.last() == '>',
        forall|j: int| pos <= j < t.len() - 1 ==> t[j] != '>',
    ensures
        ({
            let r = replaced_from(t, "id=\"epub-creator-"@, "id=\"epub-lang-"@, pos);
            &&& r.len() >= 1
            &&& r.last() == '>'
            &&& forall|j: int| 0 <= j < r.len() - 1 ==> r[j] != '>'
        }),
    decreases t.len() + 1 - pos,
{
    let a = "id=\"epub-creator-"@;
    let b = "id=\"epub-lang-"@;
    reveal_strlit("id=\"epub-creator-");
    reveal_strlit("id=\"epub-lang-");
    lemma_find_from(t, a, pos);
    match find_from(t, a, pos) {
        None => {},
        Some(i) => {
            assert(t[i + a.len() - 1] == a[a.len() - 1]);
            assert(i + a.len() < t.len());
            lemma_replaced_one_gt(t, i + a.len());
            let rest = replaced_from(t, a, b, i + a.len());
            let r = replaced_from(t, a, b, pos);
            let head = t.subrange(pos, i);
            assert(r == head + b + rest);
            assert forall|j: int| 0 <= j < r.len() - 1 implies r[j] != '>' by {
                if j < head.len() {
                    assert(r[j] == t[pos + j]);
                } else if j < head.len() + b.len() {
                    assert(r[j] == b[j - head.len()]);
                } else {
                    assert(r[j] == rest[j - head.len() - b.len()]);
                }
            }
        },
    }
}

/// `find_from` gives the first match: a match at `m` with none between
/// `from` and `m` is what it finds.
proof fn lemma_find_first(s: Seq<char>, p: Seq<char>, from: int, m: int)
    requires
        0 <= from <= m,
        matches_at(s, p, m),
        forall|j: int| from <= j < m ==> !matches_at(s, p, j),
    ensures
        find_from(s, p, from) == Some(m),
{
    lemma_find_from(s, p, from);
}

proof fn lemma_fixed_idempotent_from(x: Seq<char>, c: int)
    requires
        0 <= c <= x.len(),
    ensures
        lang_ids_fixed_from(lang_ids_fixed_from(x, c), 0) == lang_ids_fixed_from(x, c),
    decreases x.len() + 1 - c,
{
    let open = "<dc:language "@;
    let a = "id=\"epub-creator-"@;
    let b = "id=\"epub-lang-"@;
    reveal_strlit(">");
    reveal_strlit("<dc:language ");
    reveal_strlit("id=\"epub-creator-");
    let pre = x.subrange(0, c);
    let suf = x.subrange(c, x.len() as int);
    assert(x =~= pre + suf);
    lemma_find_shift(pre, suf, open, 0);
    lemma_find_from(x, open, c);
    match find_from(x, open, c) {
        None => {
            let y = suf;
            assert(lang_ids_fixed_from(x, c) == y);
            assert(find_from(y, open, 0) is None);
            assert(y.subrange(0, y.len() as int) =~= y);
        },
        Some(abs) => {
            lemma_find_shift(pre, suf, ">"@, abs - c);
            lemma_find_from(x, ">"@, abs);
            match find_from(x, ">"@, abs) {
                None => {
                    let y = suf;
                    assert(lang_ids_fixed_from(x, c) == y);
                    assert(find_from(y, open, 0) == Some(abs - c));
                    assert(find_from(y, ">"@, abs - c) is None);
                    assert(y.subrange(0, y.len() as int) =~= y);
                },
                Some(gt) => {
                    let seg = x.subrange(c, abs);
                    let tag = x.subrange(abs, gt + 1);
                    let t = replaced_from(tag, a, b, 0);
                    let rest = lang_ids_fixed_from(x, gt + 1);
                    let y = seg + t + rest;
                    assert(lang_ids_fixed_from(x, c) == y);
                    // the tag keeps its opening, ends at its only `>`, and
                    // holds no creator id any more
                    assert(gt >= abs + 13) by {
                        if gt < abs + 13 {
                            assert(x[gt] == x.subrange(abs, abs + 13)[gt - abs]);
                            assert(x.subrange(gt, gt + 1)[0] == x[gt]);
                        }
                    }
                    assert(tag.subrange(0, 13) =~= x.subrange(abs, abs + 13));
                    lemma_replaced_keeps_open(tag);
                    assert forall|j: int| 0 <= j < tag.len() - 1 implies tag[j] != '>' by {
                        assert(!matches_at(x, ">"@, abs + j));
                        if tag[j] == '>' {
                            assert(x.subrange(abs + j, abs + j + 1) =~= ">"@);
                        }
                    }
                    assert(x.subrange(gt, gt + 1)[0] == x[gt]);
                    assert(tag.last() == '>');
                    lemma_replaced_one_gt(tag, 0);
                    lemma_no_creator_id(tag, 0);
                    // in y, the first `<dc:language ` is the tag's
                    assert forall|j: int| 0 <= j < seg.len() implies !matches_at(y, open, j) by {
                        if matches_at(y, open, j) {
                            let ys = y.subrange(j, j + 13);
                            let xs = x.subrange(c + j, c + j + 13);
                            assert forall|q: int| 0 <= q < 13 implies #[trigger] ys[q] == xs[q] by {
                                if j + q < seg.len() {
                                } else {
                                    assert(y[j + q] == t[j + q - seg.len()]);
                                    assert(t[j + q - seg.len()] == t.subrange(0, 13)[j + q - seg.len()]);
                                    assert(x[c + j + q] == tag[j + q - seg.len()]);
                                    assert(tag[j + q - seg.len()] == tag.subrange(0, 13)[j + q - seg.len()]);
                                }
                            }
                            assert(xs =~= ys);
                            assert(matches_at(x, open, c + j));
                        }
                    }
                    assert(y.subrange(seg.len() as int, seg.len() + 13int) =~= t.subrange(0, 13));
                    lemma_find_first(y, open, 0, seg.len() as int);
                    // and its `>` is the tag's last character
                    let e = seg.len() + t.len() - 1;
                    assert(y[e] == t[t.len() - 1]);
                    assert(y.subrange(e, e + 1) =~= ">"@);
                    assert forall|j: int| seg.len() <= j < e implies !matches_at(y, ">"@, j) by {
                        assert(y[j] == t[j - seg.len()]);
                        if matches_at(y, ">"@, j) {
                            assert(y.subrange(j, j + 1)[0] == y[j]);
                        }
                    }
                    lemma_find_first(y, ">"@, seg.len() as int, e);
                    // renaming again changes nothing in it
                    assert(y.subrange(seg.len() as int, e + 1) =~= t);
                    lemma_find_from(t, a, 0);
                    assert(replaced_from(t, a, b, 0) == t.subrange(0, t.len() as int));
                    assert(t.subrange(0, t.len() as int) =~= t);
                    // and the rest is fixed already
                    lemma_fixed_shift(seg + t, rest, 0);
                    assert((seg + t) + rest =~= y);
                    lemma_fixed_idempotent_from(x, gt + 1);
                    assert(y.subrange(0, seg.len() as int) =~= seg);
                    assert(lang_ids_fixed_from(y, 0) == y.subrange(0, seg.len() as int) + replaced_from(
                        y.subrange(seg.len() as int, e + 1),
                        a,
                        b,
                        0,
                    ) + lang_ids_fixed_from(y, e + 1));
                },
            }
        },
    }
}

/// Fixing the language ids is idempotent: once every `<dc:language>` id is
/// renamed, a second pass changes nothing.
pub proof fn language_id_fix_is_idempotent(opf: Seq<char>)
    ensures
        lang_ids_fixed_from(lang_ids_fixed_from(opf, 0), 0) == lang_ids_fixed_from(opf, 0),
{
    lemma_fixed_idempotent_from(opf, 0);
}

/// Skipping positions where the pattern does not start changes nothing.
proof fn lemma_find_skip(t: Seq<char>, pat: Seq<char>, a: int, b: int)
    requires
        0 <= a <= b <= t.len(),
        forall|j: int| a <= j < b ==> !matches_at(t, pat, j),
    ensures
        find_from(t, pat, a) == find_from(t, pat, b),
    decreases b - a,
{
    if a < b {
        lemma_find_skip(t, pat, a + 1, b);
    }
}

/// The fix only touches `<dc:language ` start tags: a leading part of the
/// text in which no such tag starts is kept as it is, and the rest is fixed
/// on its own. In particular a text without any `<dc:language ` tag is kept
/// whole (take `s` empty).
pub proof fn language_id_fix_keeps_other_text(p: Seq<char>, s: Seq<char>)
    requires
        forall|j: int| 0 <= j < p.len() ==> !matches_at(p + s, "<dc:language "@, j),
    ensures
        lang_ids_fixed_from(p + s, 0) == p + lang_ids_fixed_from(s, 0),
{
    let open = "<dc:language "@;
    let ps = p + s;
    lemma_find_skip(ps, open, 0, p.len() as int);
    lemma_find_shift(p, s, open, 0);
    lemma_find_from(s, open, 0);
    match find_from(s, open, 0) {
        None => {
            assert(ps.subrange(0, ps.len() as int) =~= p + s.subrange(0, s.len() as int));
        },
        Some(abs) => {
            lemma_find_shift(p, s, ">"@, abs);
            lemma_find_from(s, ">"@, abs);
            match find_from(s, ">"@, abs) {
                None => {
                    assert(ps.subrange(0, ps.len() as int) =~= p + s.subrange(0, s.len() as int));
                },
                Some(gt) => {
                    reveal_strlit(">");
                    lemma_fixed_shift(p, s, gt + 1);
                    assert(ps.subrange(0, p.len() + abs) =~= p + s.subrange(0, abs));
                    assert(ps.subrange(p.len() + abs, p.len() + gt + 1) =~= s.subrange(abs, gt + 1));
                },
            }
        },
    }
}

/// A text without any `<dc:language ` tag is kept as it is.
pub proof fn language_id_fix_without_language_tags(opf: Seq<char>)
    requires
        find_from(opf, "<dc:language "@, 0) is None,
    ensures
        lang_ids_fixed_from(opf, 0) == opf,
{
    lemma_find_from(opf, "<dc:language "@, 0);
    assert(opf.subrange(0, opf.len() as int) =~= opf);
}

/// Every character is a space or a tab.
pub open spec fn all_blank(s: Seq<char>) -> bool {
    forall|i: int| 0 <= i < s.len() ==> s[i] == ' ' || s[i] == '\t'
}

/// `r` with every landmarks `<nav>` at or after `from` that has no `<li`
/// entry removed, together with its own-line indentation and one trailing
/// newline.
pub open spec fn landmarks_stripped(r: Seq<char>, from: int) -> Seq<char>
    decreases r.len(), r.len() + 1 - from,
{
    if from < 0 || from > r.len() {
        r
    } else {
        match find_from(r, "<nav"@, from) {
            None => r,
            Some(start) => match find_from(r, ">"@, start) {
                None => r,
                Some(gt) => {
                    proof {
                        lemma_find_from(r, "<nav"@, from);
                        lemma_find_from(r, ">"@, start);
                        reveal_strlit(">");
                        reveal_strlit("</nav>");
                    }
                    let tag_end = gt + 1;
                    if !contains(r.subrange(start, tag_end), "landmarks"@) {
                        landmarks_stripped(r, tag_end)
                    } else {
                        match find_from(r, "</nav>"@, tag_end) {
                            None => r,
                            Some(close) => {
                                proof {
                                    lemma_find_from(r, "</nav>"@, tag_end);
                                }
                                let close_end = close + "</nav>"@.len();
                                if contains(r.subrange(tag_end, close), "<li"@) {
                                    landmarks_stripped(r, close_end)
                                } else {
                                    let line_start = match rfind_char(r.subrange(0, start), '\n') {
                                        Some(i) => i + 1,
                                        None => 0,
                                    };
                                    proof {
                                        lemma_rfind_char(r.subrange(0, start), '\n');
                                        reveal_strlit("\n");
                                    }
                                    let removal_start = if all_blank(r.subrange(line_start, start)) {
                                        line_start
                                    } else {
                                        start
                                    };
                                    let removal_end = if starts_with(
                                        r.subrange(close_end, r.len() as int),
                                        "\n"@,
                                    ) {
                                        close_end + 1
                                    } else {
                                        close_end
                                    };
                                    landmarks_stripped(
                                        r.subrange(0, removal_start) + r.subrange(
                                            removal_end,
                                            r.len() as int,
                                        ),
                                        removal_start,
                                    )
                                }
                            },
                        }
                    }
                },
            },
        }
    }
}

/// Scanning `r` from `from` as `landmarks_stripped` does meets a landmarks
/// `<nav>` with no `<li` entry.
pub open spec fn meets_empty_landmarks(r: Seq<char>, from: int) -> bool
    decreases r.len() + 1 - from,
{
    if from < 0 || from > r.len() {
        false
    } else {
        match find_from(r, "<nav"@, from) {
            None => false,
            Some(start) => match find_from(r, ">"@, start) {
                None => false,
                Some(gt) => {
                    proof {
                        lemma_find_from(r, "<nav"@, from);
                        lemma_find_from(r, ">"@, start);
                        reveal_strlit(">");
                        reveal_strlit("</nav>");
                    }
                    let tag_end = gt + 1;
                    if !contains(r.subrange(start, tag_end), "landmarks"@) {
                        meets_empty_landmarks(r, tag_end)
                    } else {
                        match find_from(r, "</nav>"@, tag_end) {
                            None => false,
                            Some(close) => {
                                proof {
                                    lemma_find_from(r, "</nav>"@, tag_end);
                                }
                                if contains(r.subrange(tag_end, close), "<li"@) {
                                    meets_empty_landmarks(r, close + "</nav>"@.len())
                                } else {
                                    true
                                }
                            },
                        }
                    }
                },
            },
        }
    }
}

/// A navigation document whose landmarks navs all have entries is kept
/// verbatim.
pub proof fn landmarks_with_entries_kept(r: Seq<char>, from: int)
    requires
        !meets_empty_landmarks(r, from),
    ensures
        landmarks_stripped(r, from) == r,
    decreases r.len() + 1 - from,
{
    if 0 <= from <= r.len() {
        match find_from(r, "<nav"@, from) {
            None => {},
            Some(start) => match find_from(r, ">"@, start) {
                None => {},
                Some(gt) => {
                    lemma_find_from(r, "<nav"@, from);
                    lemma_find_from(r, ">"@, start);
                    reveal_strlit(">");
                    reveal_strlit("</nav>");
                    let tag_end = gt + 1;
                    if !contains(r.subrange(start, tag_end), "landmarks"@) {
                        landmarks_with_entries_kept(r, tag_end);
                    } else {
                        match find_from(r, "</nav>"@, tag_end) {
                            None => {},
                            Some(close) => {
                                lemma_find_from(r, "</nav>"@, tag_end);
                                landmarks_with_entries_kept(r, close + "</nav>"@.len());
                            },
                        }
                    }
                },
            },
        }
    }
}

proof fn lemma_stripped_not_longer(r: Seq<char>, from: int)
    ensures
        landmarks_stripped(r, from).len() <= r.len(),
        meets_empty_landmarks(r, from) ==> landmarks_stripped(r, from).len() < r.len(),
    decreases r.len(), r.len() + 1 - from,
{
    if 0 <= from <= r.len() {
        match find_from(r, "<nav"@, from) {
            None => {},
            Some(start) => match find_from(r, ">"@, start) {
                None => {},
                Some(gt) => {
                    lemma_find_from(r, "<nav"@, from);
                    lemma_find_from(r, ">"@, start);
                    reveal_strlit(">");
                    reveal_strlit("</nav>");
                    let tag_end = gt + 1;
                    if !contains(r.subrange(start, tag_end), "landmarks"@) {
                        lemma_stripped_not_longer(r, tag_end);
                    } else {
                        match find_from(r, "</nav>"@, tag_end) {
                            None => {},
                            Some(close) => {
                                lemma_find_from(r, "</nav>"@, tag_end);
                                let close_end = close + "</nav>"@.len();
                                if contains(r.subrange(tag_end, close), "<li"@) {
                                    lemma_stripped_not_longer(r, close_end);
                                } else {
                                    let line_start = match rfind_char(r.subrange(0, start), '\n') {
                                        Some(i) => i + 1,
                                        None => 0,
                                    };
                                    lemma_rfind_char(r.subrange(0, start), '\n');
                                    reveal_strlit("\n");
                                    let removal_start = if all_blank(r.subrange(line_start, start)) {
                                        line_start
                                    } else {
                                        start
                                    };
                                    let removal_end = if starts_with(
                                        r.subrange(close_end, r.len() as int),
                                        "\n"@,
                                    ) {
                                        close_end + 1
                                    } else {
                                        close_end
                                    };
                                    let shorter = r.subrange(0, removal_start) + r.subrange(
                                        removal_end,
                                        r.len() as int,
                                    );
                                    lemma_stripped_not_longer(shorter, removal_start);
                                }
                            },
                        }
                    }
                },
            },
        }
    }
}

/// A landmarks nav with no entry that the scan meets is removed: the
/// document comes out shorter. (With `landmarks_with_entries_kept`: the
/// document changes exactly when it holds such a nav.)
pub proof fn empty_landmarks_removed(r: Seq<char>, from: int)
    requires
        meets_empty_landmarks(r, from),
    ensures
        landmarks_stripped(r, from).len() < r.len(),
{
    lemma_stripped_not_longer(r, from);
}

fn all_blank_exec(s: &[char], a: usize, b: usize) -> (r: bool)
    requires
        a <= b <= s@.len(),
    ensures
        r == all_blank(s@.subrange(a as int, b as int)),
{
    let mut i = a;
    while i < b
        invariant
            a <= i <= b <= s@.len(),
            forall|k: int| a <= k < i ==> s@[k] == ' ' || s@[k] == '\t',
        decreases b - i,
    {
        if s[i] != ' ' && s[i] != '\t' {
            assert(s@.subrange(a as int, b as int)[i - a] == s@[i as int]);
            return false;
        }
        i = i + 1;
    }
    assert forall|k: int| 0 <= k < b - a implies s@.subrange(a as int, b as int)[k] == ' '
        || s@.subrange(a as int, b as int)[k] == '\t' by {
        assert(s@.subrange(a as int, b as int)[k] == s@[a + k]);
    }
    true
}

#[verifier::spinoff_prover]
#[verifier::rlimit(30)]
fn strip_landmarks_chars(xhtml: &[char]) -> (r: Vec<char>)
    ensures
        r@ == landmarks_stripped(xhtml@, 0),
{
    let nav = chars_of("<nav");
    let gt = chars_of(">");
    let landmarks = chars_of("landmarks");
    let close_nav = chars_of("</nav>");
    let li = chars_of("<li");
    let nl = chars_of("\n");
    let mut result = slice_of(xhtml, 0, xhtml.len());
    assert(result@ =~= xhtml@);
    let mut search_from: usize = 0;
    loop
        invariant
            nav@ == "<nav"@,
            gt@ == ">"@,
            landmarks@ == "landmarks"@,
            close_nav@ == "</nav>"@,
            li@ == "<li"@,
            nl@ == "\n"@,
            search_from <= result@.len(),
            landmarks_stripped(result@, search_from as int) == landmarks_stripped(xhtml@, 0),
        decreases result@.len(), result@.len() - search_from,
    {
        proof {
            reveal_strlit(">");
            reveal_strlit("</nav>");
            reveal_strlit("\n");
            lemma_find_from(result@, nav@, search_from as int);
        }
        let start = match find(result.as_slice(), nav.as_slice(), search_from) {
            Some(s) => s,
            None => return result,
        };
        proof {
            lemma_find_from(result@, gt@, start as int);
        }
        let close_gt = match find(result.as_slice(), gt.as_slice(), start) {
            Some(e) => e,
            None => return result,
        };
        let tag_end = close_gt + 1;
        let tag = slice_of(result.as_slice(), start, tag_end);
        if !contains_exec(tag.as_slice(), landmarks.as_slice()) {
            search_from = tag_end;
            continue;
        }
        proof {
            lemma_find_from(result@, close_nav@, tag_end as int);
        }
        let close = match find(result.as_slice(), close_nav.as_slice(), tag_end) {
            Some(c) => c,
            None => return result,
        };
        let close_end = close + close_nav.len();
        let inner = slice_of(result.as_slice(), tag_end, close);
        if contains_exec(inner.as_slice(), li.as_slice()) {
            search_from = close_end;
            continue;
        }
        let head = slice_of(result.as_slice(), 0, start);
        proof {
            lemma_rfind_char(head@, '\n');
        }
        let line_start = match rfind(head.as_slice(), '\n') {
            Some(i) => i + 1,
            None => 0,
        };
        let removal_start = if all_blank_exec(result.as_slice(), line_start, start) {
            line_start
        } else {
            start
        };
        let tail = slice_of(result.as_slice(), close_end, result.len());
        let removal_end = if crate::text::matches_at_exec(tail.as_slice(), nl.as_slice(), 0) {
            close_end + 1
        } else {
            close_end
        };
        let mut next = slice_of(result.as_slice(), 0, removal_start);
        let after = slice_of(result.as_slice(), removal_end, result.len());
        push_all(&mut next, after.as_slice());
        result = next;
        search_from = removal_start;
    }
}

/// Removes an empty `<nav epub:type="landmarks">` element from a generated
/// nav.xhtml. A landmarks nav with `<li>` entries is kept verbatim.
pub fn strip_empty_landmarks_nav(xhtml: &str) -> (r: String)
    ensures
        r@ == landmarks_stripped(xhtml@, 0),
{
    let x = chars_of(xhtml);
    let r = strip_landmarks_chars(x.as_slice());
    string_of(r.as_slice())
}

// ---------------------------------------------------------------------------
// OPF metadata

/// One injected Dublin Core line; nothing for an empty value.
pub open spec fn dc_line(tag: Seq<char>, value: Seq<char>) -> Seq<char> {
    if value.len() == 0 {
        Seq::empty()
    } else {
        "    <dc:"@ + tag + ">"@ + escaped(value) + "</dc:"@ + tag + ">\n"@
    }
}

pub open spec fn opt_line(tag: Seq<char>, value: Option<Seq<char>>) -> Seq<char> {
    match value {
        Some(v) => dc_line(tag, v),
        None => Seq::empty(),
    }
}

/// One line per value, all with the same tag.
pub open spec fn value_lines(tag: Seq<char>, values: Seq<Seq<char>>) -> Seq<char>
    decreases values.len(),
{
    if values.len() == 0 {
        Seq::empty()
    } else {
        value_lines(tag, values.drop_last()) + dc_line(tag, values.last())
    }
}

/// The lines of every `(tag, values)` entry, in order.
pub open spec fn metadata_lines(m: Seq<(Seq<char>, Seq<Seq<char>>)>) -> Seq<char>
    decreases m.len(),
{
    if m.len() == 0 {
        Seq::empty()
    } else {
        metadata_lines(m.drop_last()) + value_lines(m.last().0, m.last().1)
    }
}

/// The Dublin Core elements the generator does not emit: publisher, date,
/// rights, then the custom entries of the metadata list.
pub open spec fn extra_dc(doc: Document) -> Seq<char> {
    opt_line("publisher"@, opt_view(doc.publisher)) + opt_line("date"@, opt_view(doc.date))
        + opt_line("rights"@, opt_view(doc.rights)) + metadata_lines(metadata_view(doc.metadata@))
}

fn push_dc_line(out: &mut Vec<char>, tag: &[char], value: &[char])
    ensures
        final(out)@ == old(out)@ + dc_line(tag@, value@),
{
    if value.len() == 0 {
        assert(old(out)@ + dc_line(tag@, value@) =~= old(out)@);
        return;
    }
    push_str(out, "    <dc:");
    push_all(out, tag);
    push_str(out, ">");
    push_escaped(out, value);
    push_str(out, "</dc:");
    push_all(out, tag);
    push_str(out, ">\n");
}

fn push_opt_line(out: &mut Vec<char>, tag: &str, value: &Option<String>)
    ensures
        final(out)@ == old(out)@ + opt_line(tag@, opt_view(*value)),
{
    match value {
        Some(v) => {
            let t = chars_of(tag);
            let vc = chars_of(v.as_str());
            push_dc_line(out, t.as_slice(), vc.as_slice());
        },
        None => {
            assert(old(out)@ + opt_line(tag@, opt_view(*value)) =~= old(out)@);
        },
    }
}

/// The injected Dublin Core lines of a document.
pub fn build_extra_dc_xml(doc: &Document) -> (r: String)
    ensures
        r@ == extra_dc(*doc),
{
    let mut out: Vec<char> = Vec::new();
    push_opt_line(&mut out, "publisher", &doc.publisher);
    push_opt_line(&mut out, "date", &doc.date);
    push_opt_line(&mut out, "rights", &doc.rights);
    let ghost head = out@;
    let ghost m = metadata_view(doc.metadata@);
    let n = doc.metadata.len();
    for i in 0..n
        invariant
            n == doc.metadata@.len(),
            m == metadata_view(doc.metadata@),
            out@ == head + metadata_lines(m.take(i as int)),
    {
        let tag = chars_of(doc.metadata[i].0.as_str());
        let values = &doc.metadata[i].1;
        let ghost vs = strs(values@);
        let ghost before = out@;
        let k = values.len();
        for j in 0..k
            invariant
                k == values@.len(),
                vs == strs(values@),
                tag@ == m[i as int].0,
                out@ == before + value_lines(tag@, vs.take(j as int)),
        {
            let v = chars_of(values[j].as_str());
            push_dc_line(&mut out, tag.as_slice(), v.as_slice());
            assert(vs.take(j + 1).drop_last() =~= vs.take(j as int));
        }
        assert(vs.take(k as int) =~= vs);
        assert(m.take(i + 1).drop_last() =~= m.take(i as int));
        assert(m[i as int].1 == vs);
    }
    assert(m.take(n as int) =~= m);
    string_of(out.as_slice())
}

/// The OPF with the content of the primary `<dc:identifier>` replaced by the
/// escaped identifier.
pub open spec fn identifier_replaced(opf: Seq<char>, id: Seq<char>) -> Seq<char> {
    let open = "<dc:identifier id=\"epub-id-1\">"@;
    match find_from(opf, open, 0) {
        None => opf,
        Some(st) => {
            let cs = st + open.len();
            match find_from(opf, "</dc:identifier>"@, cs) {
                None => opf,
                Some(end) => opf.subrange(0, cs) + escaped(id) + opf.subrange(end, opf.len() as int),
            }
        },
    }
}

/// The identifier is put back verbatim: where the generated OPF holds the
/// primary `<dc:identifier id="epub-id-1">...</dc:identifier>`, the
/// rewritten OPF holds, at the same place, that element with the document's
/// identifier (escaped) as its content.
pub proof fn identifier_reinjected(opf: Seq<char>, id: Seq<char>)
    requires
        find_from(opf, "<dc:identifier id=\"epub-id-1\">"@, 0) is Some,
        find_from(
            opf,
            "</dc:identifier>"@,
            find_from(opf, "<dc:identifier id=\"epub-id-1\">"@, 0)->0
                + "<dc:identifier id=\"epub-id-1\">"@.len(),
        ) is Some,
    ensures
        matches_at(
            identifier_replaced(opf, id),
            "<dc:identifier id=\"epub-id-1\">"@ + escaped(id) + "</dc:identifier>"@,
            find_from(opf, "<dc:identifier id=\"epub-id-1\">"@, 0)->0,
        ),
{
    let open = "<dc:identifier id=\"epub-id-1\">"@;
    let close = "</dc:identifier>"@;
    lemma_find_from(opf, open, 0);
    let st = find_from(opf, open, 0)->0;
    let cs = st + open.len();
    lemma_find_from(opf, close, cs);
    let end = find_from(opf, close, cs)->0;
    let r = identifier_replaced(opf, id);
    let want = open + escaped(id) + close;
    assert(r == opf.subrange(0, cs) + escaped(id) + opf.subrange(end, opf.len() as int));
    assert(opf.subrange(st, cs) =~= open);
    assert(opf.subrange(end, end + close.len()) =~= close);
    assert(r.subrange(st, st + want.len()) =~= want);
}

/// `extra` inserted just before the first `</metadata>` (when non-empty).
pub open spec fn inserted_before_metadata_end(opf: Seq<char>, extra: Seq<char>) -> Seq<char> {
    if extra.len() == 0 {
        opf
    } else {
        match find_from(opf, "</metadata>"@, 0) {
            None => opf,
            Some(i) => opf.subrange(0, i) + extra + opf.subrange(i, opf.len() as int),
        }
    }
}

/// The explicit rendition layout metadata line, when a layout is requested.
pub open spec fn layout_line(layout: Option<Seq<char>>) -> Seq<char> {
    match layout {
        Some(l) => "    <meta property=\"rendition:layout\">"@ + escaped(l) + "</meta>\n"@,
        None => Seq::empty(),
    }
}

/// The rewritten OPF: identifier, injected metadata, language id and spine
/// direction.
pub open spec fn opf_rewritten(opf: Seq<char>, doc: Document) -> Seq<char> {
    let with_id = identifier_replaced(opf, doc.identifier@);
    let with_extra = inserted_before_metadata_end(
        with_id,
        extra_dc(doc) + layout_line(opt_view(doc.rendition_layout)),
    );
    spine_direction_set(
        lang_ids_fixed_from(with_extra, 0),
        opt_view(doc.page_progression_direction),
    )
}

/// Rewrites the OPF `<metadata>` section and spine for the document: the
/// primary identifier verbatim, the missing Dublin Core elements and
/// `rendition:layout` before `</metadata>`, the language id collision fix, and
/// the spine direction.
#[verifier::spinoff_prover]
#[verifier::rlimit(30)]
pub fn rewrite_opf_metadata(opf: &str, doc: &Document) -> (r: String)
    ensures
        r@ == opf_rewritten(opf@, *doc),
{
    let o = chars_of(opf);
    let id_open = chars_of("<dc:identifier id=\"epub-id-1\">");
    let id_close = chars_of("</dc:identifier>");
    let mut result = slice_of(o.as_slice(), 0, o.len());
    assert(result@ =~= o@);
    if let Some(start) = find(o.as_slice(), id_open.as_slice(), 0) {
        let content_start = start + id_open.len();
        if let Some(end) = find(o.as_slice(), id_close.as_slice(), content_start) {
            let mut next = slice_of(o.as_slice(), 0, content_start);
            let id = chars_of(doc.identifier.as_str());
            push_escaped(&mut next, id.as_slice());
            let rest = slice_of(o.as_slice(), end, o.len());
            push_all(&mut next, rest.as_slice());
            result = next;
        }
    }
    assert(result@ == identifier_replaced(opf@, doc.identifier@));
    let extra_s = build_extra_dc_xml(doc);
    let mut extra = chars_of(extra_s.as_str());
    match &doc.rendition_layout {
        Some(l) => {
            push_str(&mut extra, "    <meta property=\"rendition:layout\">");
            let lc = chars_of(l.as_str());
            push_escaped(&mut extra, lc.as_slice());
            push_str(&mut extra, "</meta>\n");
        },
        None => {},
    }
    assert(extra@ =~= extra_dc(*doc) + layout_line(opt_view(doc.rendition_layout)));
    if extra.len() > 0 {
        let md_close = chars_of("</metadata>");
        if let Some(idx) = find(result.as_slice(), md_close.as_slice(), 0) {
            let mut next = slice_of(result.as_slice(), 0, idx);
            push_all(&mut next, extra.as_slice());
            let rest = slice_of(result.as_slice(), idx, result.len());
            push_all(&mut next, rest.as_slice());
            result = next;
        }
    }
    let fixed = fix_language_chars(result.as_slice());
    let dir: Option<&str> = match &doc.page_progression_direction {
        Some(d) => Some(d.as_str()),
        None => None,
    };
    let r = set_spine_direction_chars(fixed.as_slice(), dir);
    string_of(r.as_slice())
}

// ---------------------------------------------------------------------------
// Validation

/// Why a document cannot be built.
pub enum Invalid {
    MissingField(Seq<char>),
    Direction(Seq<char>),
    Layout(Seq<char>),
    Duplicate(Seq<char>),
    NotUtf8(Seq<char>),
    NotXhtml(Seq<char>),
    NoViewport(Seq<char>),
}

/// Chapter `k` repeats the id of an earlier chapter.
pub open spec fn repeats_earlier_chapter_id(doc: Document, k: int) -> bool {
    exists|j: int| 0 <= j < k && doc.spine@[j].id@ == doc.spine@[k].id@
}

/// The problem with chapter `k`, if any: a repeated id, data that is not
/// UTF-8, data that is not well-formed XHTML, or (for a pre-paginated XHTML
/// chapter) no viewport declaration.
pub open spec fn chapter_problem(doc: Document, k: int) -> Option<Invalid> {
    let ch = doc.spine@[k];
    if repeats_earlier_chapter_id(doc, k) {
        Some(Invalid::Duplicate(ch.id@))
    } else if !vstd::utf8::valid_utf8(ch.data.0@) {
        Some(Invalid::NotUtf8(ch.id@))
    } else if !well_formed_xml(ch.data.0@) {
        Some(Invalid::NotXhtml(ch.id@))
    } else if opt_view(doc.rendition_layout) == Some("pre-paginated"@) && ch.media_type@
        == "application/xhtml+xml"@ && !viewport_from(vstd::utf8::decode_utf8(ch.data.0@), 0) {
        Some(Invalid::NoViewport(ch.id@))
    } else {
        None
    }
}

/// The first problem among chapters `k..`.
pub open spec fn spine_problem_from(doc: Document, k: int) -> Option<Invalid>
    decreases doc.spine@.len() - k,
{
    if k < 0 || k >= doc.spine@.len() {
        None
    } else {
        match chapter_problem(doc, k) {
            Some(p) => Some(p),
            None => spine_problem_from(doc, k + 1),
        }
    }
}

/// Asset `k` repeats the id of a chapter or of an earlier asset.
pub open spec fn asset_id_taken(doc: Document, k: int) -> bool {
    ||| exists|j: int| 0 <= j < doc.spine@.len() && doc.spine@[j].id@ == doc.assets@[k].id@
    ||| exists|j: int| 0 <= j < k && doc.assets@[j].id@ == doc.assets@[k].id@
}

/// The first asset among `k..` whose id is already taken.
pub open spec fn asset_problem_from(doc: Document, k: int) -> Option<Invalid>
    decreases doc.assets@.len() - k,
{
    if k < 0 || k >= doc.assets@.len() {
        None
    } else if asset_id_taken(doc, k) {
        Some(Invalid::Duplicate(doc.assets@[k].id@))
    } else {
        asset_problem_from(doc, k + 1)
    }
}

/// The first reason, in checking order, why `doc` cannot be built.
pub open spec fn validation(doc: Document) -> Option<Invalid> {
    if doc.title@.len() == 0 {
        Some(Invalid::MissingField("title"@))
    } else if doc.identifier@.len() == 0 {
        Some(Invalid::MissingField("identifier"@))
    } else if opt_view(doc.language) is None || opt_view(doc.language) == Some(Seq::<char>::empty()) {
        Some(Invalid::MissingField("language"@))
    } else if opt_view(doc.page_progression_direction) is Some && opt_view(
        doc.page_progression_direction,
    )->0 != "rtl"@ && opt_view(doc.page_progression_direction)->0 != "ltr"@ {
        Some(Invalid::Direction(opt_view(doc.page_progression_direction)->0))
    } else if opt_view(doc.rendition_layout) is Some && opt_view(doc.rendition_layout)->0
        != "pre-paginated"@ && opt_view(doc.rendition_layout)->0 != "reflowable"@ {
        Some(Invalid::Layout(opt_view(doc.rendition_layout)->0))
    } else if spine_problem_from(doc, 0) is Some {
        spine_problem_from(doc, 0)
    } else {
        asset_problem_from(doc, 0)
    }
}

proof fn lemma_spine_clean(doc: Document, k: int)
    requires
        0 <= k,
        spine_problem_from(doc, k) is None,
    ensures
        forall|m: int| k <= m < doc.spine@.len() ==> #[trigger] chapter_problem(doc, m) is None,
    decreases doc.spine@.len() - k,
{
    if k < doc.spine@.len() {
        lemma_spine_clean(doc, k + 1);
    }
}

proof fn lemma_assets_clean(doc: Document, k: int)
    requires
        0 <= k,
        asset_problem_from(doc, k) is None,
    ensures
        forall|m: int| k <= m < doc.assets@.len() ==> !#[trigger] asset_id_taken(doc, m),
    decreases doc.assets@.len() - k,
{
    if k < doc.assets@.len() {
        lemma_assets_clean(doc, k + 1);
    }
}

/// What a document that passes validation has: a title, an identifier and
/// a language, all non-empty; a page-progression direction that is `rtl`,
/// `ltr` or none, and a rendition layout that is `pre-paginated`,
/// `reflowable` or none; chapter data that is UTF-8 and well-formed XHTML;
/// and ids that are all
/// different, among the chapters, among the assets, and between the two.
pub proof fn validated_document(doc: Document)
    requires
        validation(doc) is None,
    ensures
        doc.title@.len() > 0,
        doc.identifier@.len() > 0,
        opt_view(doc.language) matches Some(l) && l.len() > 0,
        opt_view(doc.page_progression_direction) matches Some(d) ==> d == "rtl"@ || d == "ltr"@,
        opt_view(doc.rendition_layout) matches Some(l) ==> l == "pre-paginated"@ || l
            == "reflowable"@,
        forall|i: int|
            0 <= i < doc.spine@.len() ==> vstd::utf8::valid_utf8(#[trigger] doc.spine@[i].data.0@),
        forall|i: int|
            0 <= i < doc.spine@.len() ==> well_formed_xml(#[trigger] doc.spine@[i].data.0@),
        forall|i: int, j: int|
            0 <= i < j < doc.spine@.len() ==> #[trigger] doc.spine@[i].id@ != #[trigger] doc.spine@[j].id@,
        forall|i: int, j: int|
            0 <= i < j < doc.assets@.len() ==> #[trigger] doc.assets@[i].id@ != #[trigger] doc.assets@[j].id@,
        forall|i: int, j: int|
            0 <= i < doc.spine@.len() && 0 <= j < doc.assets@.len() ==> #[trigger] doc.spine@[i].id@
                != #[trigger] doc.assets@[j].id@,
{
    lemma_spine_clean(doc, 0);
    lemma_assets_clean(doc, 0);
    match opt_view(doc.language) {
        Some(l) => {
            if l.len() == 0 {
                assert(l =~= Seq::<char>::empty());
            }
        },
        None => {},
    }
    assert forall|i: int| 0 <= i < doc.spine@.len() implies vstd::utf8::valid_utf8(
        #[trigger] doc.spine@[i].data.0@,
    ) by {
        assert(chapter_problem(doc, i) is None);
    }
    assert forall|i: int| 0 <= i < doc.spine@.len() implies well_formed_xml(
        #[trigger] doc.spine@[i].data.0@,
    ) by {
        assert(chapter_problem(doc, i) is None);
    }
    assert forall|i: int, j: int| 0 <= i < j < doc.spine@.len() implies #[trigger] doc.spine@[i].id@
        != #[trigger] doc.spine@[j].id@ by {
        assert(chapter_problem(doc, j) is None);
    }
    assert forall|i: int, j: int| 0 <= i < j < doc.assets@.len() implies #[trigger] doc.assets@[i].id@
        != #[trigger] doc.assets@[j].id@ by {
        assert(!asset_id_taken(doc, j));
    }
    assert forall|i: int, j: int|
        0 <= i < doc.spine@.len() && 0 <= j < doc.assets@.len() implies #[trigger] doc.spine@[i].id@
        != #[trigger] doc.assets@[j].id@ by {
        assert(!asset_id_taken(doc, j));
    }
}

proof fn lemma_spine_problem_same(d1: Document, d2: Document, k: int)
    requires
        d1.spine == d2.spine,
        d1.rendition_layout == d2.rendition_layout,
    ensures
        spine_problem_from(d1, k) == spine_problem_from(d2, k),
    decreases d1.spine@.len() - k,
{
    if 0 <= k < d1.spine@.len() {
        lemma_spine_problem_same(d1, d2, k + 1);
        assert(chapter_problem(d1, k) == chapter_problem(d2, k));
    }
}

proof fn lemma_asset_problem_same(d1: Document, d2: Document, k: int)
    requires
        d1.spine == d2.spine,
        d1.assets == d2.assets,
    ensures
        asset_problem_from(d1, k) == asset_problem_from(d2, k),
    decreases d1.assets@.len() - k,
{
    if 0 <= k < d1.assets@.len() {
        lemma_asset_problem_same(d1, d2, k + 1);
        assert(asset_id_taken(d1, k) == asset_id_taken(d2, k));
    }
}

/// A page-progression direction of `rtl` or `ltr` is never a problem: a
/// document that states one validates exactly as the same document without
/// a direction. Any other direction is reported, once title, identifier and
/// language are present.
pub proof fn ltr_and_rtl_directions_are_accepted(doc: Document)
    ensures
        opt_view(doc.page_progression_direction) == Some("rtl"@) || opt_view(
            doc.page_progression_direction,
        ) == Some("ltr"@) ==> validation(doc) == validation(
            Document { page_progression_direction: None, ..doc },
        ),
        ({
            let d = opt_view(doc.page_progression_direction);
            &&& d matches Some(v) && v != "rtl"@ && v != "ltr"@
            &&& doc.title@.len() > 0
            &&& doc.identifier@.len() > 0
            &&& opt_view(doc.language) matches Some(l) && l.len() > 0
        }) ==> validation(doc) == Some(
            Invalid::Direction(opt_view(doc.page_progression_direction)->0),
        ),
{
    let other = Document { page_progression_direction: None, ..doc };
    lemma_spine_problem_same(doc, other, 0);
    lemma_asset_problem_same(doc, other, 0);
    match opt_view(doc.language) {
        Some(l) => {
            if l.len() == 0 {
                assert(l =~= Seq::<char>::empty());
            }
        },
        None => {},
    }
}

/// The error reports the problem.
pub open spec fn reports(e: AppError, p: Invalid) -> bool {
    match p {
        Invalid::MissingField(f) => e matches AppError::MissingRequiredField(x) && x@ == f,
        Invalid::Direction(d) => e matches AppError::InvalidPageDirection(x) && x@ == d,
        Invalid::Layout(l) => e matches AppError::InvalidRenditionLayout(x) && x@ == l,
        Invalid::Duplicate(id) => e matches AppError::DuplicateId(x) && x@ == id,
        Invalid::NotUtf8(id) => e matches AppError::InvalidChapter(x, m) && x@ == id && m@
            == "data is not valid UTF-8"@,
        Invalid::NotXhtml(id) => e matches AppError::InvalidChapter(x, m) && x@ == id && m@
            == "data is not well-formed XHTML"@,
        Invalid::NoViewport(id) => e matches AppError::MissingViewport(x) && x@ == id,
    }
}

fn opt_is(o: &Option<String>, lit: &str) -> (r: bool)
    ensures
        r == (opt_view(*o) == Some(lit@)),
{
    match o {
        Some(v) => str_eq(v.as_str(), lit),
        None => false,
    }
}

fn chapter_id_repeats(doc: &Document, k: usize) -> (r: bool)
    requires
        k < doc.spine@.len(),
    ensures
        r == repeats_earlier_chapter_id(*doc, k as int),
{
    let mut j: usize = 0;
    while j < k
        invariant
            k < doc.spine@.len(),
            j <= k,
            forall|m: int| 0 <= m < j ==> doc.spine@[m].id@ != doc.spine@[k as int].id@,
        decreases k - j,
    {
        if doc.spine[j].id == doc.spine[k].id {
            return true;
        }
        j = j + 1;
    }
    false
}

fn asset_id_in_use(doc: &Document, k: usize) -> (r: bool)
    requires
        k < doc.assets@.len(),
    ensures
        r == asset_id_taken(*doc, k as int),
{
    let n = doc.spine.len();
    let mut j: usize = 0;
    while j < n
        invariant
            n == doc.spine@.len(),
            k < doc.assets@.len(),
            j <= n,
            forall|i: int| 0 <= i < j ==> doc.spine@[i].id@ != doc.assets@[k as int].id@,
        decreases n - j,
    {
        if doc.spine[j].id == doc.assets[k].id {
            return true;
        }
        j = j + 1;
    }
    let mut j: usize = 0;
    while j < k
        invariant
            k < doc.assets@.len(),
            j <= k,
            forall|i: int| 0 <= i < j ==> doc.assets@[i].id@ != doc.assets@[k as int].id@,
            forall|i: int| 0 <= i < doc.spine@.len() ==> doc.spine@[i].id@ != doc.assets@[k as int].id@,
        decreases k - j,
    {
        if doc.assets[j].id == doc.assets[k].id {
            return true;
        }
        j = j + 1;
    }
    false
}

/// Checks the required fields, the page direction and rendition layout
/// values, id uniqueness across chapters and assets, UTF-8 chapter data, and
/// (for pre-paginated books) a viewport in every XHTML chapter.
#[verifier::spinoff_prover]
#[verifier::rlimit(30)]
pub fn validate(doc: &Document) -> (r: Result<(), AppError>)
    ensures
        r is Ok <==> validation(*doc) is None,
        r matches Err(e) ==> reports(e, validation(*doc)->0),
{
    if doc.title.as_str().is_empty() {
        return Err(AppError::MissingRequiredField("title"));
    }
    if doc.identifier.as_str().is_empty() {
        return Err(AppError::MissingRequiredField("identifier"));
    }
    match &doc.language {
        None => return Err(AppError::MissingRequiredField("language")),
        Some(l) => {
            if l.as_str().is_empty() {
                assert(l@ =~= Seq::<char>::empty());
                return Err(AppError::MissingRequiredField("language"));
            }
        },
    }
    match &doc.page_progression_direction {
        Some(d) => {
            if !str_eq(d.as_str(), "rtl") && !str_eq(d.as_str(), "ltr") {
                return Err(AppError::InvalidPageDirection(d.clone()));
            }
        },
        None => {},
    }
    match &doc.rendition_layout {
        Some(l) => {
            if !str_eq(l.as_str(), "pre-paginated") && !str_eq(l.as_str(), "reflowable") {
                return Err(AppError::InvalidRenditionLayout(l.clone()));
            }
        },
        None => {},
    }
    let pre_paginated = opt_is(&doc.rendition_layout, "pre-paginated");
    let n = doc.spine.len();
    for k in 0..n
        invariant
            n == doc.spine@.len(),
            pre_paginated == (opt_view(doc.rendition_layout) == Some("pre-paginated"@)),
            validation(*doc) == (if spine_problem_from(*doc, 0) is Some {
                spine_problem_from(*doc, 0)
            } else {
                asset_problem_from(*doc, 0)
            }),
            spine_problem_from(*doc, 0) == spine_problem_from(*doc, k as int),
    {
        let ch = &doc.spine[k];
        if chapter_id_repeats(doc, k) {
            return Err(AppError::DuplicateId(ch.id.clone()));
        }
        let text = match utf8_str(ch.data.0.as_slice()) {
            Some(t) => t,
            None => {
                let msg = chars_of("data is not valid UTF-8");
                return Err(AppError::InvalidChapter(ch.id.clone(), string_of(msg.as_slice())));
            },
        };
        if !is_well_formed_xml(ch.data.0.as_slice()) {
            let msg = chars_of("data is not well-formed XHTML");
            return Err(AppError::InvalidChapter(ch.id.clone(), string_of(msg.as_slice())));
        }
        if pre_paginated && str_eq(ch.media_type.as_str(), "application/xhtml+xml")
            && !has_viewport_meta(text) {
            return Err(AppError::MissingViewport(ch.id.clone()));
        }
    }
    let m = doc.assets.len();
    for k in 0..m
        invariant
            m == doc.assets@.len(),
            validation(*doc) == asset_problem_from(*doc, 0),
            asset_problem_from(*doc, 0) == asset_problem_from(*doc, k as int),
    {
        if asset_id_in_use(doc, k) {
            return Err(AppError::DuplicateId(doc.assets[k].id.clone()));
        }
    }
    Ok(())
}

// ---------------------------------------------------------------------------
// Generating the package

/// What the generator is asked to do with an asset.
pub enum AssetAction {
    /// The file is one the generator writes itself.
    Skip,
    Cover,
    Stylesheet,
    Resource,
}

/// An asset whose file is `nav.xhtml`, `toc.ncx` or `content.opf` is
/// skipped (the generator writes those); the cover asset is added as the
/// cover image; `stylesheet.css` becomes the stylesheet; any other asset is
/// added as a resource.
pub open spec fn asset_action_of(cover: Option<Seq<char>>, a: Asset) -> AssetAction {
    let f = a.file_name@;
    if f == "nav.xhtml"@ || f == "toc.ncx"@ || f == "content.opf"@ {
        AssetAction::Skip
    } else if cover == Some(a.id@) {
        AssetAction::Cover
    } else if f == "stylesheet.css"@ {
        AssetAction::Stylesheet
    } else {
        AssetAction::Resource
    }
}

/// What the generator is asked to do with `asset`, as `asset_action_of`
/// says.
pub fn asset_action(doc: &Document, asset: &Asset) -> (r: AssetAction)
    ensures
        r == asset_action_of(opt_view(doc.cover_asset_id), *asset),
{
    let f = asset.file_name.as_str();
    if str_eq(f, "nav.xhtml") || str_eq(f, "toc.ncx") || str_eq(f, "content.opf") {
        return AssetAction::Skip;
    }
    let is_cover = match &doc.cover_asset_id {
        Some(cid) => str_eq(cid.as_str(), asset.id.as_str()),
        None => false,
    };
    if is_cover {
        AssetAction::Cover
    } else if str_eq(f, "stylesheet.css") {
        AssetAction::Stylesheet
    } else {
        AssetAction::Resource
    }
}

/// Index of the last TOC entry whose href is exactly `f` (entries without
/// an href left out).
pub open spec fn last_exact(toc: Seq<NavV>, f: Seq<char>) -> Option<int>
    decreases toc.len(),
{
    if toc.len() == 0 {
        None
    } else if toc.last().href.len() > 0 && toc.last().href == f {
        Some(toc.len() - 1)
    } else {
        last_exact(toc.drop_last(), f)
    }
}

/// Index of the first TOC entry whose href, up to its first `#`, is `f`
/// (entries without an href left out).
pub open spec fn first_prefix(toc: Seq<NavV>, f: Seq<char>) -> Option<int>
    decreases toc.len(),
{
    if toc.len() == 0 {
        None
    } else {
        match first_prefix(toc.drop_last(), f) {
            Some(i) => Some(i),
            None => if toc.last().href.len() > 0 && without_fragment(toc.last().href) == f {
                Some(toc.len() - 1)
            } else {
                None
            },
        }
    }
}

/// The top-level TOC entry of a chapter file: the last whose href is the
/// file, else the first whose href points into it.
pub open spec fn nav_match(toc: Seq<NavV>, f: Seq<char>) -> Option<int> {
    match last_exact(toc, f) {
        Some(i) => Some(i),
        None => first_prefix(toc, f),
    }
}

proof fn lemma_last_exact(toc: Seq<NavV>, f: Seq<char>)
    ensures
        last_exact(toc, f) matches Some(i) ==> 0 <= i < toc.len() && toc[i].href.len() > 0
            && toc[i].href == f && forall|j: int|
            i < j < toc.len() ==> !(toc[j].href.len() > 0 && toc[j].href == f),
        last_exact(toc, f) is None ==> forall|j: int|
            0 <= j < toc.len() ==> !(toc[j].href.len() > 0 && toc[j].href == f),
    decreases toc.len(),
{
    if toc.len() > 0 {
        let t = toc.drop_last();
        lemma_last_exact(t, f);
        assert forall|j: int| 0 <= j < t.len() implies t[j] == toc[j] by {}
    }
}

proof fn lemma_first_prefix(toc: Seq<NavV>, f: Seq<char>)
    ensures
        first_prefix(toc, f) matches Some(i) ==> 0 <= i < toc.len() && toc[i].href.len() > 0
            && without_fragment(toc[i].href) == f && forall|j: int|
            0 <= j < i ==> !(toc[j].href.len() > 0 && without_fragment(toc[j].href) == f),
        first_prefix(toc, f) is None ==> forall|j: int|
            0 <= j < toc.len() ==> !(toc[j].href.len() > 0 && without_fragment(toc[j].href) == f),
    decreases toc.len(),
{
    if toc.len() > 0 {
        let t = toc.drop_last();
        lemma_first_prefix(t, f);
        assert forall|j: int| 0 <= j < t.len() implies t[j] == toc[j] by {}
    }
}

proof fn lemma_navs_index(s: Seq<NavItem>)
    ensures
        navs_view(s).len() == s.len(),
        forall|i: int| 0 <= i < s.len() ==> navs_view(s)[i] == #[trigger] nav_view(s[i]),
    decreases s.len(),
{
    if s.len() > 0 {
        lemma_navs_index(s.drop_last());
        assert forall|i: int| 0 <= i < s.len() implies navs_view(s)[i] == #[trigger] nav_view(
            s[i],
        ) by {
            if i < s.len() - 1 {
                assert(s.drop_last()[i] == s[i]);
            }
        }
    }
}

/// The top-level TOC entry of a chapter file, as `nav_match` says.
#[verifier::spinoff_prover]
#[verifier::rlimit(30)]
pub fn find_nav_match(toc: &Vec<NavItem>, file_name: &str) -> (r: Option<usize>)
    ensures
        match nav_match(navs_view(toc@), file_name@) {
            Some(i) => r matches Some(k) && k == i && k < toc@.len(),
            None => r is None,
        },
{
    let ghost tv = navs_view(toc@);
    proof {
        lemma_navs_index(toc@);
        lemma_last_exact(tv, file_name@);
        lemma_first_prefix(tv, file_name@);
    }
    let mut i = toc.len();
    while i > 0
        invariant
            tv == navs_view(toc@),
            tv.len() == toc@.len(),
            i <= toc@.len(),
            forall|j: int| 0 <= j < toc@.len() ==> tv[j] == #[trigger] nav_view(toc@[j]),
            forall|j: int| i <= j < tv.len() ==> !(tv[j].href.len() > 0 && tv[j].href == file_name@),
            last_exact(tv, file_name@) matches Some(x) ==> 0 <= x < tv.len() && tv[x].href.len()
                > 0 && tv[x].href == file_name@ && forall|j: int|
                x < j < tv.len() ==> !(tv[j].href.len() > 0 && tv[j].href == file_name@),
            last_exact(tv, file_name@) is None ==> forall|j: int|
                0 <= j < tv.len() ==> !(tv[j].href.len() > 0 && tv[j].href == file_name@),
        decreases i,
    {
        let h = toc[i - 1].href.as_str();
        assert(tv[i - 1] == nav_view(toc@[i - 1]));
        if !h.is_empty() && str_eq(h, file_name) {
            return Some(i - 1);
        }
        i = i - 1;
    }
    let mut k: usize = 0;
    while k < toc.len()
        invariant
            tv == navs_view(toc@),
            tv.len() == toc@.len(),
            k <= toc@.len(),
            last_exact(tv, file_name@) is None,
            forall|j: int| 0 <= j < toc@.len() ==> tv[j] == #[trigger] nav_view(toc@[j]),
            forall|j: int|
                0 <= j < k ==> !(tv[j].href.len() > 0 && without_fragment(tv[j].href)
                    == file_name@),
            first_prefix(tv, file_name@) matches Some(x) ==> 0 <= x < tv.len() && tv[x].href.len()
                > 0 && without_fragment(tv[x].href) == file_name@ && forall|j: int|
                0 <= j < x ==> !(tv[j].href.len() > 0 && without_fragment(tv[j].href)
                    == file_name@),
            first_prefix(tv, file_name@) is None ==> forall|j: int|
                0 <= j < tv.len() ==> !(tv[j].href.len() > 0 && without_fragment(tv[j].href)
                    == file_name@),
        decreases toc@.len() - k,
    {
        let h = toc[k].href.as_str();
        assert(tv[k as int] == nav_view(toc@[k as int]));
        if !h.is_empty() {
            let before = crate::paths::strip_fragment(h);
            if str_eq(before.as_str(), file_name) {
                return Some(k);
            }
        }
        k = k + 1;
    }
    None
}

/// The title a chapter gets in the generated TOC: its own unless empty,
/// else its TOC entry's unless empty, else `Chapter N` (N counting from
/// one).
pub open spec fn chapter_title_of(ch: ChapterV, toc: Seq<NavV>, index: nat) -> Seq<char> {
    let t = match ch.title {
        Some(t) if t.len() > 0 => Some(t),
        _ => match nav_match(toc, ch.file_name) {
            Some(i) => Some(toc[i].title),
            None => None,
        },
    };
    match t {
        Some(s) => if s.len() > 0 {
            s
        } else {
            "Chapter "@ + decimal(index + 1)
        },
        None => "Chapter "@ + decimal(index + 1),
    }
}

/// Every chapter gets a non-empty title in the generated TOC, so the
/// generated navigation has an entry for each chapter.
pub proof fn chapter_titles_are_never_empty(ch: ChapterV, toc: Seq<NavV>, index: nat)
    ensures
        chapter_title_of(ch, toc, index).len() > 0,
        chapter_entry(ch, toc, index).title.len() > 0,
        chapter_entry(ch, toc, index).href == ch.file_name,
{
    let n = (index + 1) as nat;
    assert(decimal(n).len() > 0) by {
        if n >= 10 {
            assert(decimal(n) == decimal(n / 10).push(digit_char(n % 10)));
        }
    }
}

/// A TOC entry as handed to the generator: its subtrees without entries
/// that have no href.
pub open spec fn pruned(n: NavV) -> NavV
    decreases n, 1nat,
{
    NavV { title: n.title, href: n.href, children: pruned_list(n.children) }
}

/// The entries that have an href, pruned, in order.
pub open spec fn pruned_list(s: Seq<NavV>) -> Seq<NavV>
    decreases s, 0nat,
{
    if s.len() == 0 {
        Seq::empty()
    } else if s.last().href.len() == 0 {
        pruned_list(s.drop_last())
    } else {
        pruned_list(s.drop_last()).push(pruned(s.last()))
    }
}

proof fn lemma_pruned_step(kids: Seq<NavItem>, i: int)
    requires
        0 <= i < kids.len(),
    ensures
        pruned_list(navs_view(kids.take(i + 1))) == (if kids[i].href@.len() == 0 {
            pruned_list(navs_view(kids.take(i)))
        } else {
            pruned_list(navs_view(kids.take(i))).push(pruned(kids[i]@))
        }),
{
    let next = kids.take(i + 1);
    assert(next.drop_last() =~= kids.take(i));
    assert(next.last() == kids[i]);
    let nv = navs_view(next);
    assert(nv == navs_view(kids.take(i)).push(nav_view(kids[i])));
    assert(nv.drop_last() =~= navs_view(kids.take(i)));
}

/// The generator's TOC element for a TOC entry; `None` for an entry without
/// an href.
pub fn nav_item_to_toc(nav: &NavItem) -> (r: Option<epub_builder::TocElement>)
    ensures
        nav.href@.len() == 0 ==> r is None,
        nav.href@.len() > 0 ==> (r matches Some(e) && toc_entry(e) == pruned(nav@)),
    decreases nav,
{
    if nav.href.as_str().is_empty() {
        return None;
    }
    let mut el = toc_element(nav.href.as_str(), nav.title.as_str());
    let kids = &nav.children;
    let mut i: usize = 0;
    assert(kids@.take(0) =~= Seq::<NavItem>::empty());
    while i < kids.len()
        invariant
            i <= kids@.len(),
            *kids == nav.children,
            toc_entry(el) == (NavV {
                title: nav.title@,
                href: nav.href@,
                children: pruned_list(navs_view(kids@.take(i as int))),
            }),
        decreases kids@.len() - i,
    {
        proof {
            lemma_pruned_step(kids@, i as int);
        }
        match nav_item_to_toc(&kids[i]) {
            Some(c) => {
                el = toc_element_child(el, c);
            },
            None => {},
        }
        i = i + 1;
    }
    assert(kids@.take(kids@.len() as int) =~= kids@);
    Some(el)
}

/// The generator's TOC entry for chapter `index`: the chapter's file, its
/// title, and the pruned children of its TOC entry.
pub open spec fn chapter_entry(ch: ChapterV, toc: Seq<NavV>, index: nat) -> NavV {
    NavV {
        title: chapter_title_of(ch, toc, index),
        href: ch.file_name,
        children: match nav_match(toc, ch.file_name) {
            Some(i) => pruned_list(toc[i].children),
            None => Seq::empty(),
        },
    }
}

/// The generator's TOC element for chapter `index`, as `chapter_entry`
/// says.
#[verifier::spinoff_prover]
#[verifier::rlimit(30)]
pub fn chapter_toc_element(chapter: &Chapter, toc: &Vec<NavItem>, index: usize) -> (r:
    epub_builder::TocElement)
    requires
        index < usize::MAX,
    ensures
        toc_entry(r) == chapter_entry(chapter@, navs_view(toc@), index as nat),
{
    proof {
        lemma_navs_index(toc@);
    }
    let matched = find_nav_match(toc, chapter.file_name.as_str());
    let own: Option<&String> = match &chapter.title {
        Some(t) => if t.as_str().is_empty() {
            None
        } else {
            Some(t)
        },
        None => None,
    };
    let candidate: Option<&String> = match own {
        Some(t) => Some(t),
        None => match matched {
            Some(k) => Some(&toc[k].title),
            None => None,
        },
    };
    proof {
        match matched {
            Some(k) => {
                assert(navs_view(toc@)[k as int] == nav_view(toc@[k as int]));
            },
            None => {},
        }
    }
    assert(match candidate {
        Some(t) => Some(t@),
        None => None::<Seq<char>>,
    } == match chapter@.title {
        Some(t) if t.len() > 0 => Some(t),
        _ => match nav_match(navs_view(toc@), chapter@.file_name) {
            Some(i) => Some(navs_view(toc@)[i].title),
            None => None,
        },
    });
    let mut fallback = chars_of("Chapter ");
    push_decimal(&mut fallback, index + 1);
    let title: String = match candidate {
        Some(t) => if t.as_str().is_empty() {
            string_of(fallback.as_slice())
        } else {
            t.clone()
        },
        None => string_of(fallback.as_slice()),
    };
    assert(title@ == chapter_title_of(chapter@, navs_view(toc@), index as nat));
    let mut el = toc_element(chapter.file_name.as_str(), title.as_str());
    match matched {
        Some(k) => {
            let nav = &toc[k];
            let kids = &nav.children;
            assert(navs_view(toc@)[k as int] == nav_view(*nav));
            let mut i: usize = 0;
            assert(kids@.take(0) =~= Seq::<NavItem>::empty());
            while i < kids.len()
                invariant
                    i <= kids@.len(),
                    toc_entry(el) == (NavV {
                        title: title@,
                        href: chapter.file_name@,
                        children: pruned_list(navs_view(kids@.take(i as int))),
                    }),
                decreases kids@.len() - i,
            {
                proof {
                    lemma_pruned_step(kids@, i as int);
                }
                match nav_item_to_toc(&kids[i]) {
                    Some(c) => {
                        el = toc_element_child(el, c);
                    },
                    None => {},
                }
                i = i + 1;
            }
            assert(kids@.take(kids@.len() as int) =~= kids@);
        },
        None => {},
    }
    el
}

/// An error of the generator, reported with the step that met it.
pub fn builder_err(context: &str, message: &str) -> (r: AppError)
    ensures
        r@ == ErrorV::Io(context@ + ": "@ + message@),
{
    let mut m = chars_of(context);
    push_str(&mut m, ": ");
    push_str(&mut m, message);
    AppError::Io(string_of(m.as_slice()))
}

/// What the generator is handed for the chapters: for each chapter in
/// order, its content with its TOC entry.
pub open spec fn spine_steps(spine: Seq<ChapterV>, toc: Seq<NavV>) -> Seq<GenStep> {
    Seq::new(
        spine.len(),
        |i: int| GenStep::Content(chapter_entry(spine[i], toc, i as nat), spine[i].data),
    )
}

/// What the generator is handed for one asset, as `asset_action_of` says.
pub open spec fn asset_steps(cover: Option<Seq<char>>, a: Asset) -> Seq<GenStep> {
    match asset_action_of(cover, a) {
        AssetAction::Skip => Seq::empty(),
        AssetAction::Cover => seq![GenStep::CoverImage(a.file_name@, a.data.0@, a.media_type@)],
        AssetAction::Stylesheet => seq![GenStep::Stylesheet(a.data.0@)],
        AssetAction::Resource => seq![GenStep::Resource(a.file_name@, a.data.0@, a.media_type@)],
    }
}

/// What the generator is handed for an asset depends on its file name and on
/// whether it is the cover, never on its media type: nothing for the files
/// the generator writes itself (`nav.xhtml`, `toc.ncx`, `content.opf`); the
/// cover image for the cover; the stylesheet for `stylesheet.css`; and for
/// any other file a resource under its own name, with its data and media
/// type.
pub proof fn assets_are_handed_over_by_file_name(cover: Option<Seq<char>>, a: Asset)
    ensures
        ({
            let f = a.file_name@;
            let generated = f == "nav.xhtml"@ || f == "toc.ncx"@ || f == "content.opf"@;
            &&& generated ==> asset_steps(cover, a) == Seq::<GenStep>::empty()
            &&& !generated && cover == Some(a.id@) ==> asset_steps(cover, a) == seq![
                GenStep::CoverImage(f, a.data.0@, a.media_type@),
            ]
            &&& !generated && cover != Some(a.id@) && f == "stylesheet.css"@ ==> asset_steps(
                cover,
                a,
            ) == seq![GenStep::Stylesheet(a.data.0@)]
            &&& !generated && cover != Some(a.id@) && f != "stylesheet.css"@ ==> asset_steps(
                cover,
                a,
            ) == seq![GenStep::Resource(f, a.data.0@, a.media_type@)]
        }),
{
}

/// What the generator is handed for the first `k` assets, in order.
pub open spec fn assets_steps(cover: Option<Seq<char>>, assets: Seq<Asset>, k: int) -> Seq<GenStep>
    decreases k,
{
    if k <= 0 {
        Seq::empty()
    } else {
        assets_steps(cover, assets, k - 1) + asset_steps(cover, assets[k - 1])
    }
}

/// What the generator is handed for the document's metadata: the title, the
/// language if any, each author in order, the description if any.
pub open spec fn metadata_steps(doc: Document) -> Seq<GenStep> {
    let lang = match opt_view(doc.language) {
        Some(l) => seq![GenStep::Metadata("lang"@, l)],
        None => Seq::empty(),
    };
    let authors = Seq::new(
        doc.creators@.len(),
        |i: int| GenStep::Metadata("author"@, doc.creators@[i]@),
    );
    let desc = match opt_view(doc.description) {
        Some(d) => seq![GenStep::Metadata("description"@, d)],
        None => Seq::empty(),
    };
    seq![GenStep::Metadata("title"@, doc.title@)] + lang + authors + desc
}

/// Everything the generator is handed for a document, in order: EPUB 3,
/// the UUID derived from the identifier, the metadata, the assets, and the
/// chapters with their TOC entries.
pub open spec fn doc_steps(doc: Document) -> Seq<GenStep> {
    seq![GenStep::Epub3, GenStep::Uuid(uuid_for(doc.identifier@))] + metadata_steps(doc)
        + assets_steps(opt_view(doc.cover_asset_id), doc.assets@, doc.assets@.len() as int)
        + spine_steps(chapters_view(doc.spine@), navs_view(doc.toc@))
}

/// Hands the chapters to the generator, in order, each with its TOC entry
/// (`chapter_entry`). Fails with an `Io` error naming the chapter's file
/// when the generator refuses one.
pub fn add_spine_and_toc(g: &mut Generator, spine: &Vec<Chapter>, toc: &Vec<NavItem>) -> (r: Result<
    (),
    AppError,
>)
    ensures
        r is Ok ==> generator_steps(*final(g)) == generator_steps(*old(g)) + spine_steps(
            chapters_view(spine@),
            navs_view(toc@),
        ),
        r matches Err(e) ==> exists|k: int, gk: Generator|
            #![trigger refuses_content(gk, spine@[k].file_name@, spine@[k].data.0@)]
            {
                &&& 0 <= k < spine@.len()
                &&& exists|m: Seq<char>|
                    e@ == ErrorV::Io("add_content("@ + spine@[k].file_name@ + ")"@ + ": "@ + m)
                &&& generator_steps(gk) == generator_steps(*old(g)) + spine_steps(
                    chapters_view(spine@),
                    navs_view(toc@),
                ).take(k)
                &&& refuses_content(gk, spine@[k].file_name@, spine@[k].data.0@)
                &&& generator_steps(*final(g)) == generator_steps(gk)
            },
{
    let ghost start = generator_steps(*g);
    let ghost all = spine_steps(chapters_view(spine@), navs_view(toc@));
    let mut index: usize = 0;
    while index < spine.len()
        invariant
            index <= spine@.len(),
            all == spine_steps(chapters_view(spine@), navs_view(toc@)),
            start == generator_steps(*old(g)),
            generator_steps(*g) == start + all.take(index as int),
        decreases spine@.len() - index,
    {
        let chapter = &spine[index];
        let entry = chapter_toc_element(chapter, toc, index);
        let ghost gk = *g;
        assert(toc_entry(entry).href == chapter@.file_name);
        match generator_content(g, entry, chapter.data.0.as_slice()) {
            Ok(()) => {},
            Err(m) => {
                let mut context = chars_of("add_content(");
                push_str(&mut context, chapter.file_name.as_str());
                push_str(&mut context, ")");
                let e = builder_err(string_of(context.as_slice()).as_str(), m.as_str());
                proof {
                    assert(e@ == ErrorV::Io(
                        "add_content("@ + spine@[index as int].file_name@ + ")"@ + ": "@ + m@,
                    ));
                    assert(refuses_content(
                        gk,
                        spine@[index as int].file_name@,
                        spine@[index as int].data.0@,
                    ));
                    assert(generator_steps(*g) == generator_steps(gk));
                    assert(generator_steps(gk) == generator_steps(*old(g)) + all.take(index as int));
                }
                return Err(e);
            },
        }
        proof {
            assert(all[index as int] == GenStep::Content(toc_entry(entry), chapter.data.0@));
            assert(all.take(index as int + 1) =~= all.take(index as int).push(all[index as int]));
        }
        index = index + 1;
    }
    proof {
        assert(all.take(index as int) =~= all);
    }
    Ok(())
}

/// Hands one metadata entry to the generator; a refusal is an `Io` error
/// naming the key, and a known key is never refused.
fn metadata_step(g: &mut Generator, key: &str, value: &str) -> (r: Result<(), AppError>)
    ensures
        r is Ok ==> generator_steps(*final(g)) == generator_steps(*old(g)).push(
            GenStep::Metadata(key@, value@),
        ),
        metadata_key_known(key@) ==> r is Ok,
        r matches Err(e) ==> exists|m: Seq<char>| e@ == ErrorV::Io(key@ + ": "@ + m),
{
    match generator_metadata(g, key, value) {
        Ok(()) => Ok(()),
        Err(m) => Err(builder_err(key, m.as_str())),
    }
}

/// Generates the EPUB 3 package for the document: metadata (title,
/// language, authors, description), the UUID slot, the assets as
/// `asset_action` decides, and the chapters with their TOC entries
/// (`doc_steps`). The generated archive carries the time of generation; any
/// failure is an `Io` error naming the step.
#[verifier::spinoff_prover]
#[verifier::rlimit(30)]
pub fn build_with_epub_builder(doc: &Document) -> (r: Result<Vec<u8>, AppError>)
    ensures
        r matches Ok(b) ==> generated_from(b@, doc_steps(*doc)),
        r matches Ok(b) ==> stores_files(b@, doc_steps(*doc)),
        r matches Err(e) ==> e@ is Io,
{
    let zip = match zip_library() {
        Ok(z) => z,
        Err(m) => {
            return Err(builder_err("zip init", m.as_str()));
        },
    };
    let mut g = match generator_new(zip) {
        Ok(g) => g,
        Err(m) => {
            return Err(builder_err("epub-builder init", m.as_str()));
        },
    };
    generator_epub3(&mut g);
    generator_set_uuid(&mut g, identifier_to_uuid(doc.identifier.as_str()));
    let ghost head = seq![GenStep::Epub3, GenStep::Uuid(uuid_for(doc.identifier@))];
    assert(generator_steps(g) == head);
    metadata_step(&mut g, "title", doc.title.as_str())?;
    match &doc.language {
        Some(lang) => metadata_step(&mut g, "lang", lang.as_str())?,
        None => {},
    }
    let ghost lang_steps = match opt_view(doc.language) {
        Some(l) => seq![GenStep::Metadata("lang"@, l)],
        None => Seq::<GenStep>::empty(),
    };
    let ghost authors = Seq::new(
        doc.creators@.len(),
        |i: int| GenStep::Metadata("author"@, doc.creators@[i]@),
    );
    let ghost before_authors = head + seq![GenStep::Metadata("title"@, doc.title@)] + lang_steps;
    assert(generator_steps(g) =~= before_authors);
    let mut k: usize = 0;
    while k < doc.creators.len()
        invariant
            k <= doc.creators@.len(),
            authors == Seq::new(
                doc.creators@.len(),
                |i: int| GenStep::Metadata("author"@, doc.creators@[i]@),
            ),
            generator_steps(g) == before_authors + authors.take(k as int),
        decreases doc.creators@.len() - k,
    {
        match generator_metadata(&mut g, "author", doc.creators[k].as_str()) {
            Ok(()) => {},
            Err(m) => {
                return Err(builder_err("author", m.as_str()));
            },
        }
        assert(authors.take(k + 1) =~= authors.take(k as int).push(authors[k as int]));
        k = k + 1;
    }
    assert(authors.take(k as int) =~= authors);
    match &doc.description {
        Some(d) => metadata_step(&mut g, "description", d.as_str())?,
        None => {},
    }
    let ghost cover = opt_view(doc.cover_asset_id);
    let ghost meta_done = head + metadata_steps(*doc);
    assert(generator_steps(g) =~= meta_done);
    let mut a: usize = 0;
    while a < doc.assets.len()
        invariant
            a <= doc.assets@.len(),
            cover == opt_view(doc.cover_asset_id),
            generator_steps(g) == meta_done + assets_steps(cover, doc.assets@, a as int),
        decreases doc.assets@.len() - a,
    {
        let asset = &doc.assets[a];
        let data = asset.data.0.as_slice();
        let step = match asset_action(doc, asset) {
            AssetAction::Skip => Ok(()),
            AssetAction::Cover => match generator_cover_image(
                &mut g,
                asset.file_name.as_str(),
                data,
                asset.media_type.as_str(),
            ) {
                Ok(()) => Ok(()),
                Err(m) => Err(builder_err("add_cover_image", m.as_str())),
            },
            AssetAction::Stylesheet => match generator_stylesheet(&mut g, data) {
                Ok(()) => Ok(()),
                Err(m) => Err(builder_err("stylesheet", m.as_str())),
            },
            AssetAction::Resource => match generator_resource(
                &mut g,
                asset.file_name.as_str(),
                data,
                asset.media_type.as_str(),
            ) {
                Ok(()) => Ok(()),
                Err(m) => Err(builder_err("add_resource", m.as_str())),
            },
        };
        match step {
            Ok(()) => {},
            Err(e) => {
                return Err(e);
            },
        }
        assert(generator_steps(g) =~= meta_done + assets_steps(cover, doc.assets@, a + 1));
        a = a + 1;
    }
    add_spine_and_toc(&mut g, &doc.spine, &doc.toc)?;
    assert(generator_steps(g) =~= doc_steps(*doc));
    match generator_generate(g) {
        Ok(bytes) => Ok(bytes),
        Err(m) => Err(builder_err("generate", m.as_str())),
    }
}

// ---------------------------------------------------------------------------
// Post-processing the generated package

/// Reading an entry of the generated archive: its bytes, or the error,
/// named after the step that met it.
pub open spec fn entry_read(archive: Seq<u8>, name: Seq<char>) -> Result<Seq<u8>, ErrorV> {
    match zip_entry(archive, name) {
        ZipReadV::NotZip(m) => Err(ErrorV::Io("reopen: "@ + m)),
        ZipReadV::Missing(m) => Err(ErrorV::Io("by_name "@ + name + ": "@ + m)),
        ZipReadV::Unreadable(m) => Err(ErrorV::Io("read_to_end "@ + name + ": "@ + m)),
        ZipReadV::Found(b) => Ok(b),
    }
}

fn labelled_io(label: &str, name: &str, m: &str) -> (r: AppError)
    ensures
        r@ == ErrorV::Io(label@ + name@ + ": "@ + m@),
{
    let mut c = chars_of(label);
    push_str(&mut c, name);
    push_str(&mut c, ": ");
    push_str(&mut c, m);
    AppError::Io(string_of(c.as_slice()))
}

fn prefixed_io(label: &str, m: &str) -> (r: AppError)
    ensures
        r@ == ErrorV::Io(label@ + m@),
{
    let mut c = chars_of(label);
    push_str(&mut c, m);
    AppError::Io(string_of(c.as_slice()))
}

/// Reads an entry of the generated archive, as `entry_read` says.
pub fn read_entry(archive: &[u8], name: &str) -> (r: Result<Vec<u8>, AppError>)
    ensures
        match entry_read(archive@, name@) {
            Ok(b) => r matches Ok(v) && v@ == b,
            Err(x) => r matches Err(e) && e@ == x,
        },
{
    match zip_read(archive, name) {
        ZipRead::NotZip(m) => Err(prefixed_io("reopen: ", m.as_str())),
        ZipRead::Missing(m) => Err(labelled_io("by_name ", name, m.as_str())),
        ZipRead::Unreadable(m) => Err(labelled_io("read_to_end ", name, m.as_str())),
        ZipRead::Found(b) => Ok(b),
    }
}

/// The package document's path in the generated archive: the value of the
/// first `full-path="..."` in the container document, found by a plain text
/// search.
pub open spec fn container_opf_path(archive: Seq<u8>) -> Result<Seq<char>, ErrorV> {
    match entry_read(archive, "META-INF/container.xml"@) {
        Err(e) => Err(e),
        Ok(b) => if !vstd::utf8::valid_utf8(b) {
            Err(ErrorV::MalformedOpf("container.xml not utf-8"@))
        } else {
            let s = vstd::utf8::decode_utf8(b);
            match find_from(s, "full-path=\""@, 0) {
                None => Err(ErrorV::MissingContainer),
                Some(p) => {
                    let start = p + "full-path=\""@.len();
                    match find_from(s, "\""@, start) {
                        None => Err(ErrorV::MalformedOpf("unterminated full-path"@)),
                        Some(end) => Ok(s.subrange(start, end)),
                    }
                },
            }
        },
    }
}

/// Finds the package document of the generated archive, as
/// `container_opf_path` says.
pub fn find_opf_path_in_archive(archive: &[u8]) -> (r: Result<String, AppError>)
    ensures
        match container_opf_path(archive@) {
            Ok(p) => r matches Ok(s) && s@ == p,
            Err(x) => r matches Err(e) && e@ == x,
        },
{
    let container = read_entry(archive, "META-INF/container.xml")?;
    let text = match utf8_str(container.as_slice()) {
        Some(t) => t,
        None => {
            return Err(AppError::MalformedOpf("container.xml not utf-8".to_owned()));
        },
    };
    let s = chars_of(text);
    let needle = chars_of("full-path=\"");
    let quote = chars_of("\"");
    let p = match find(s.as_slice(), needle.as_slice(), 0) {
        Some(p) => p,
        None => {
            return Err(AppError::MissingContainer);
        },
    };
    let start = p + needle.len();
    match find(s.as_slice(), quote.as_slice(), start) {
        Some(end) => {
            proof {
                lemma_find_from(s@, quote@, start as int);
            }
            Ok(string_of(slice_of(s.as_slice(), start, end).as_slice()))
        },
        None => Err(AppError::MalformedOpf("unterminated full-path".to_owned())),
    }
}

/// The generated files that are rewritten.
pub enum Rewritten {
    Opf,
    Nav,
    Ncx,
}

/// Which generated file an entry is: the package document, or the
/// `nav.xhtml` or `toc.ncx` written next to it.
pub open spec fn entry_kind(name: Seq<char>, opf_path: Seq<char>) -> Option<Rewritten> {
    if name == opf_path {
        Some(Rewritten::Opf)
    } else if name == dir_part(opf_path) + "nav.xhtml"@ {
        Some(Rewritten::Nav)
    } else if name == dir_part(opf_path) + "toc.ncx"@ {
        Some(Rewritten::Ncx)
    } else {
        None
    }
}

/// The short name of a rewritten file in error messages.
pub open spec fn kind_label(k: Rewritten) -> Seq<char> {
    match k {
        Rewritten::Opf => "opf"@,
        Rewritten::Nav => "nav"@,
        Rewritten::Ncx => "ncx"@,
    }
}

/// The new text of a rewritten file: the OPF rewritten for the document;
/// `nav.xhtml` without an empty landmarks nav and, for a right-to-left
/// document, oriented with `dir="rtl"` and the document language;
/// `toc.ncx` with its `playOrder` values renumbered.
pub open spec fn rewritten_text(k: Rewritten, text: Seq<char>, doc: Document) -> Seq<char> {
    match k {
        Rewritten::Opf => opf_rewritten(text, doc),
        Rewritten::Nav => {
            let stripped = landmarks_stripped(text, 0);
            if opt_view(doc.page_progression_direction) == Some("rtl"@) {
                html_oriented(stripped, "rtl"@, opt_view(doc.language))
            } else {
                stripped
            }
        },
        Rewritten::Ncx => ncx_renumbered(text),
    }
}

/// What becomes of the entry `name` of the generated archive whose package
/// document is at `opf_path`: `None` when it is copied as it is, else the
/// kind and new text of a rewritten file.
pub open spec fn entry_patch(archive: Seq<u8>, name: Seq<char>, opf_path: Seq<char>, doc: Document) -> Result<
    Option<(Rewritten, Seq<char>)>,
    ErrorV,
> {
    match entry_kind(name, opf_path) {
        None => Ok(None),
        Some(k) => match entry_read(archive, name) {
            Err(e) => Err(e),
            Ok(b) => if vstd::utf8::valid_utf8(b) {
                Ok(Some((k, rewritten_text(k, vstd::utf8::decode_utf8(b), doc))))
            } else {
                Err(ErrorV::Io(kind_label(k) + " not utf-8"@))
            },
        },
    }
}

fn kind_label_exec(k: &Rewritten) -> (r: &'static str)
    ensures
        r@ == kind_label(*k),
{
    match k {
        Rewritten::Opf => "opf",
        Rewritten::Nav => "nav",
        Rewritten::Ncx => "ncx",
    }
}

/// What becomes of one entry of the generated archive, as `entry_patch`
/// says.
#[verifier::spinoff_prover]
#[verifier::rlimit(30)]
pub fn patch_entry(archive: &[u8], name: &str, opf_path: &str, doc: &Document) -> (r: Result<
    Option<(Rewritten, String)>,
    AppError,
>)
    ensures
        match entry_patch(archive@, name@, opf_path@, *doc) {
            Ok(None) => r matches Ok(None),
            Ok(Some((k, t))) => r matches Ok(Some((k2, t2))) && k2 == k && t2@ == t,
            Err(x) => r matches Err(e) && e@ == x,
        },
{
    let dir = dir_of(opf_path);
    let mut nav_path = chars_of(dir.as_str());
    push_str(&mut nav_path, "nav.xhtml");
    let mut ncx_path = chars_of(dir.as_str());
    push_str(&mut ncx_path, "toc.ncx");
    let n = chars_of(name);
    let kind = if str_eq(name, opf_path) {
        Rewritten::Opf
    } else if eq_chars(n.as_slice(), nav_path.as_slice()) {
        Rewritten::Nav
    } else if eq_chars(n.as_slice(), ncx_path.as_slice()) {
        Rewritten::Ncx
    } else {
        return Ok(None);
    };
    let stored = read_entry(archive, name)?;
    let text = match utf8_str(stored.as_slice()) {
        Some(t) => t,
        None => {
            let mut m = chars_of(kind_label_exec(&kind));
            push_str(&mut m, " not utf-8");
            return Err(AppError::Io(string_of(m.as_slice())));
        },
    };
    let patched = match kind {
        Rewritten::Opf => rewrite_opf_metadata(text, doc),
        Rewritten::Nav => {
            let stripped = strip_empty_landmarks_nav(text);
            if opt_is(&doc.page_progression_direction, "rtl") {
                let lang: Option<&str> = match &doc.language {
                    Some(l) => Some(l.as_str()),
                    None => None,
                };
                add_dir_and_lang_to_html(stripped.as_str(), "rtl", lang)
            } else {
                stripped
            }
        },
        Rewritten::Ncx => renumber_ncx_play_order(text),
    };
    Ok(Some((kind, patched)))
}

/// Writes one rewritten file into the new archive (deflated): on success
/// the archive has one more entry, named `name`, holding the UTF-8 bytes of
/// `text`. The writer refuses a name already written and accepts a new one
/// within the size limits (`archive_add_deflated`); a failure is an `Io`
/// error naming the kind of file.
fn write_rewritten(w: &mut ArchiveWriter, name: &str, kind: &Rewritten, text: &str) -> (r: Result<
    (),
    AppError,
>)
    ensures
        r is Ok ==> archive_entries(*final(w)) == archive_entries(*old(w)).push(
            (name@, Some(text.spec_bytes())),
        ),
        has_name(archive_entries(*old(w)), name@) ==> r is Err,
        !has_name(archive_entries(*old(w)), name@) && name_fits(name@) && text.spec_bytes().len()
            <= entry_limit() && last_fits(archive_entries(*old(w))) ==> r is Ok,
        r matches Err(e) ==> exists|m: Seq<char>|
            e@ == ErrorV::Io("write "@ + kind_label(*kind) + ": "@ + m),
{
    let label = kind_label_exec(kind);
    match archive_add_deflated(w, name, text.as_bytes()) {
        Ok(()) => Ok(()),
        Err(m) => {
            let mut c = chars_of("write ");
            push_str(&mut c, label);
            let e = builder_err(string_of(c.as_slice()).as_str(), m.as_str());
            proof {
                assert(e@ == ErrorV::Io("write "@ + kind_label(*kind) + ": "@ + m@));
            }
            Err(e)
        },
    }
}

/// The entry that the input entry `name` becomes: same name; the new text
/// (as UTF-8) of a rewritten file; for any other entry the stored data
/// copied as it is, so the same bytes wherever the input entry can be read.
pub open spec fn patched_entry_ok(
    e: (Seq<char>, Option<Seq<u8>>),
    input: Seq<u8>,
    name: Seq<char>,
    opf_path: Seq<char>,
    doc: Document,
) -> bool {
    &&& e.0 == name
    &&& match entry_patch(input, name, opf_path, doc) {
        Ok(Some((_, t))) => e.1 == Some(vstd::utf8::encode_utf8(t)),
        _ => (zip_entry(input, name) matches ZipReadV::Found(x) ==> e.1 == Some(x)),
    }
}

/// The entries `es` are those the first `n` input entries become, in the
/// input's order.
pub open spec fn patched_entries(
    es: Seq<(Seq<char>, Option<Seq<u8>>)>,
    input: Seq<u8>,
    opf_path: Seq<char>,
    doc: Document,
    n: nat,
) -> bool {
    &&& es.len() == n
    &&& forall|i: int| 0 <= i < n ==> #[trigger] patched_at(es, input, opf_path, doc, i)
}

/// Entry `i` of `es` is what input entry `i` becomes.
pub open spec fn patched_at(
    es: Seq<(Seq<char>, Option<Seq<u8>>)>,
    input: Seq<u8>,
    opf_path: Seq<char>,
    doc: Document,
    i: int,
) -> bool {
    match zip_name(input, i as nat) {
        Ok(nm) => patched_entry_ok(es[i], input, nm, opf_path, doc),
        Err(_) => false,
    }
}

/// `out` is the rewritten archive of `input` for `doc`: what a zip writer
/// gives that holds, in order, one entry for each entry of `input`, as
/// `patched_entry_ok` says, each of which reads back from `out` as written.
pub open spec fn patched_archive(input: Seq<u8>, doc: Document, out: Seq<u8>) -> bool {
    match (zip_count(input), container_opf_path(input)) {
        (Ok(n), Ok(opf_path)) => exists|w: ArchiveWriter|
            finished_bytes(w) == out && reads_back(w) && #[trigger] patched_entries(
                archive_entries(w),
                input,
                opf_path,
                doc,
                n,
            ),
        _ => false,
    }
}

/// Input entry `name` can be rewritten within the writer's limits: its name
/// fits a zip header, its rewriting succeeds, and its new text, or for a
/// copied entry its readable data, is within `entry_limit`.
pub open spec fn entry_owed(input: Seq<u8>, name: Seq<char>, opf_path: Seq<char>, doc: Document) -> bool {
    &&& name_fits(name)
    &&& match entry_patch(input, name, opf_path, doc) {
        Ok(Some((_, t))) => vstd::utf8::encode_utf8(t).len() <= entry_limit(),
        Ok(None) => zip_entry(input, name) matches ZipReadV::Found(x) && x.len() <= entry_limit(),
        Err(_) => false,
    }
}

/// Input entry `i` has a name, and that entry can be rewritten.
pub open spec fn entry_owed_at(input: Seq<u8>, opf_path: Seq<char>, doc: Document, i: int) -> bool {
    match zip_name(input, i as nat) {
        Ok(nm) => entry_owed(input, nm, opf_path, doc),
        Err(_) => false,
    }
}

/// The archive can be rewritten: it is within `entry_limit`, its entries
/// can be listed and its package document located, its entry names are
/// all different, and every entry can be rewritten (`entry_owed`).
pub open spec fn patch_owed(input: Seq<u8>, doc: Document) -> bool {
    &&& input.len() <= entry_limit()
    &&& zip_count(input) is Ok
    &&& container_opf_path(input) is Ok
    &&& forall|i: int|
        0 <= i < zip_count(input)->Ok_0 ==> #[trigger] entry_owed_at(
            input,
            container_opf_path(input)->Ok_0,
            doc,
            i,
        )
    &&& forall|i: int, j: int|
        0 <= i < j < zip_count(input)->Ok_0 ==> #[trigger] zip_name(input, i as nat)
            != #[trigger] zip_name(input, j as nat)
}

/// Rewrites the generated archive: the package document (`rewrite_opf_metadata`),
/// `nav.xhtml` and `toc.ncx` next to it are replaced by their rewritten
/// text (`patch_entry`), every other entry is copied as it is, in the
/// archive's own order.
#[verifier::spinoff_prover]
#[verifier::rlimit(30)]
pub fn patch_opf(epub_bytes: Vec<u8>, doc: &Document) -> (r: Result<Vec<u8>, AppError>)
    ensures
        match crate::zipio::zip_count(epub_bytes@) {
            Err(m) => r matches Err(e) && e@ == ErrorV::Io("reopen: "@ + m),
            Ok(_) => match container_opf_path(epub_bytes@) {
                Err(x) => r matches Err(e) && e@ == x,
                Ok(_) => r matches Err(e) ==> (e@ is Io || e@ is MalformedOpf),
            },
        },
        r matches Ok(out) ==> patched_archive(epub_bytes@, *doc, out@),
        patch_owed(epub_bytes@, *doc) ==> r is Ok,
{
    let archive = epub_bytes.as_slice();
    let count = match zip_entry_count(archive) {
        Ok(n) => n,
        Err(m) => {
            return Err(prefixed_io("reopen: ", m.as_str()));
        },
    };
    let opf_path = find_opf_path_in_archive(archive)?;
    let mut w = archive_writer();
    let mut i: usize = 0;
    while i < count
        invariant
            i <= count,
            archive@ == epub_bytes@,
            zip_count(epub_bytes@) == Ok::<nat, Seq<char>>(count as nat),
            container_opf_path(epub_bytes@) == Ok::<Seq<char>, ErrorV>(opf_path@),
            patched_entries(archive_entries(w), epub_bytes@, opf_path@, *doc, i as nat),
            patch_owed(epub_bytes@, *doc) ==> last_fits(archive_entries(w)),
        decreases count - i,
    {
        let ghost before = archive_entries(w);
        let ghost owed = patch_owed(epub_bytes@, *doc);
        proof {
            if owed {
                assert(0 <= i < zip_count(epub_bytes@)->Ok_0);
                assert(entry_owed_at(epub_bytes@, container_opf_path(epub_bytes@)->Ok_0, *doc, i as int));
            }
        }
        let name = match zip_entry_name(archive, i) {
            Ok(n) => n,
            Err(m) => {
                let mut c = chars_of("by_index_raw(");
                push_decimal(&mut c, i);
                push_str(&mut c, ")");
                return Err(builder_err(string_of(c.as_slice()).as_str(), m.as_str()));
            },
        };
        proof {
            if owed {
                assert(!has_name(before, name@)) by {
                    if has_name(before, name@) {
                        let j = choose|j: int| 0 <= j < before.len() && #[trigger] before[j].0 == name@;
                        assert(patched_at(before, epub_bytes@, opf_path@, *doc, j));
                        assert(zip_name(epub_bytes@, j as nat) == zip_name(epub_bytes@, i as nat));
                    }
                }
            }
        }
        match patch_entry(archive, name.as_str(), opf_path.as_str(), doc) {
            Err(e) => {
                return Err(e);
            },
            Ok(Some((kind, text))) => {
                write_rewritten(&mut w, name.as_str(), &kind, text.as_str())?;
                proof {
                    let after = archive_entries(w);
                    assert(after.last() == (name@, Some(vstd::utf8::encode_utf8(text@))));
                    assert forall|j: int| 0 <= j < i + 1 implies #[trigger] patched_at(
                        after,
                        epub_bytes@,
                        opf_path@,
                        *doc,
                        j,
                    ) by {
                        if j < i {
                            assert(patched_at(before, epub_bytes@, opf_path@, *doc, j));
                            assert(after[j] == before[j]);
                        } else {
                            assert(zip_name(epub_bytes@, i as nat) == Ok::<Seq<char>, Seq<char>>(name@));
                            assert(patched_entry_ok(after[j], epub_bytes@, name@, opf_path@, *doc));
                        }
                    }
                    assert(patched_entries(after, epub_bytes@, opf_path@, *doc, (i + 1) as nat));
                }
            },
            Ok(None) => match archive_raw_copy(&mut w, archive, name.as_str()) {
                RawCopy::Copied => {
                    proof {
                        let after = archive_entries(w);
                        assert forall|j: int| 0 <= j < i + 1 implies #[trigger] patched_at(
                            after,
                            epub_bytes@,
                            opf_path@,
                            *doc,
                            j,
                        ) by {
                            if j < i {
                                assert(patched_at(before, epub_bytes@, opf_path@, *doc, j));
                                assert(after[j] == after.take(before.len() as int)[j]);
                            } else {
                                assert(zip_name(epub_bytes@, i as nat) == Ok::<Seq<char>, Seq<char>>(name@));
                                assert(patched_entry_ok(after[j], epub_bytes@, name@, opf_path@, *doc));
                            }
                        }
                        assert(patched_entries(after, epub_bytes@, opf_path@, *doc, (i + 1) as nat));
                    }
                },
                RawCopy::NotZip(m) => {
                    return Err(prefixed_io("reopen: ", m.as_str()));
                },
                RawCopy::Missing(m) => {
                    return Err(labelled_io("by_name ", name.as_str(), m.as_str()));
                },
                RawCopy::Failed(m) => {
                    return Err(labelled_io("raw_copy_file ", name.as_str(), m.as_str()));
                },
            },
        }
        i = i + 1;
    }
    let ghost done = w;
    assert(patch_owed(epub_bytes@, *doc) ==> last_fits(archive_entries(done)));
    match archive_finish(w) {
        Ok(bytes) => {
            proof {
                assert(patched_entries(archive_entries(done), epub_bytes@, opf_path@, *doc, count as nat));
            }
            Ok(bytes)
        },
        Err(m) => Err(prefixed_io("zip finish: ", m.as_str())),
    }
}

/// The files whose entries the rewrite replaces, as paths under `OEBPS/`.
pub open spec fn reserved_file(p: Seq<char>) -> bool {
    p == "content.opf"@ || p == "nav.xhtml"@ || p == "toc.ncx"@
}

proof fn lemma_generated_opf_dir()
    ensures
        dir_part("OEBPS/content.opf"@) == "OEBPS/"@,
{
    let s = "OEBPS/content.opf"@;
    reveal_strlit("OEBPS/content.opf");
    reveal_strlit("OEBPS/");
    lemma_rfind_char(s, '/');
    assert(s[5] == '/');
    match rfind_char(s, '/') {
        Some(i) => {
            assert(i == 5) by {
                if i < 5 {
                    assert(s[5] != '/');
                }
            }
            assert(s.subrange(0, 6) =~= "OEBPS/"@);
        },
        None => {
            assert(s[5] != '/');
        },
    }
}

/// Write-then-read through the rewrite: a file that the generator stored
/// under a plain path (other than the package document, `nav.xhtml` and
/// `toc.ncx`, which the rewrite replaces) reads back unchanged from the
/// rewritten archive, at `OEBPS/` followed by its path.
pub proof fn stored_files_survive_patch(
    raw: Seq<u8>,
    steps: Seq<GenStep>,
    doc: Document,
    out: Seq<u8>,
    k: int,
)
    requires
        stores_files(raw, steps),
        patched_archive(raw, doc, out),
        0 <= k < steps.len(),
        step_file(steps[k]) matches Some(f) && plain_path(f.0) && !reserved_file(f.0),
    ensures
        zip_entry(out, "OEBPS/"@ + step_file(steps[k])->Some_0.0) == ZipReadV::Found(
            step_file(steps[k])->Some_0.1,
        ),
{
    let f = step_file(steps[k])->Some_0;
    let name = "OEBPS/"@ + f.0;
    let opf = "OEBPS/content.opf"@;
    assert(stored_at(raw, steps[k]));
    let n = zip_count(raw)->Ok_0;
    let j = choose|j: nat| j < n && #[trigger] zip_name(raw, j) == Ok::<Seq<char>, Seq<char>>(name);
    let w = choose|w: ArchiveWriter|
        finished_bytes(w) == out && reads_back(w) && #[trigger] patched_entries(
            archive_entries(w),
            raw,
            opf,
            doc,
            n,
        );
    let es = archive_entries(w);
    assert(patched_at(es, raw, opf, doc, j as int));
    lemma_generated_opf_dir();
    reveal_strlit("OEBPS/");
    reveal_strlit("OEBPS/content.opf");
    reveal_strlit("content.opf");
    reveal_strlit("nav.xhtml");
    reveal_strlit("toc.ncx");
    assert(name != opf) by {
        if name == opf {
            assert(f.0 =~= name.subrange(6, name.len() as int));
            assert(f.0 =~= "content.opf"@);
        }
    }
    assert(name != dir_part(opf) + "nav.xhtml"@) by {
        if name == dir_part(opf) + "nav.xhtml"@ {
            assert(f.0 =~= name.subrange(6, name.len() as int));
            assert(f.0 =~= "nav.xhtml"@);
        }
    }
    assert(name != dir_part(opf) + "toc.ncx"@) by {
        if name == dir_part(opf) + "toc.ncx"@ {
            assert(f.0 =~= name.subrange(6, name.len() as int));
            assert(f.0 =~= "toc.ncx"@);
        }
    }
    assert(entry_kind(name, opf) is None);
    assert(entry_patch(raw, name, opf, doc) == Ok::<Option<(Rewritten, Seq<char>)>, ErrorV>(None));
    assert(es[j as int].1 == Some(f.1));
    assert(entry_reads_back(finished_bytes(w), es[j as int]));
}

/// Builds the EPUB 3 bytes of a document: validated first (`validate`),
/// then generated (`build_with_epub_builder`) and post-processed
/// (`patch_opf`). The result is the rewritten form of an archive generated
/// from everything the document hands the generator (`doc_steps`).
pub fn build(doc: &Document) -> (r: Result<Vec<u8>, AppError>)
    ensures
        validation(*doc) matches Some(p) ==> r matches Err(e) && reports(e, p),
        r is Ok ==> validation(*doc) is None,
        validation(*doc) is None && r is Err ==> (r->Err_0@ is Io || r->Err_0@ is MalformedOpf
            || r->Err_0@ is MissingContainer),
        r matches Ok(out) ==> exists|raw: Seq<u8>|
            generated_from(raw, doc_steps(*doc)) && stores_files(raw, doc_steps(*doc))
                && #[trigger] patched_archive(raw, *doc, out@),
        r matches Ok(out) ==> forall|i: int|
            0 <= i < doc.spine@.len() && plain_path(#[trigger] doc.spine@[i].file_name@)
                && !reserved_file(doc.spine@[i].file_name@) ==> zip_entry(
                out@,
                "OEBPS/"@ + doc.spine@[i].file_name@,
            ) == ZipReadV::Found(doc.spine@[i].data.0@),
{
    validate(doc)?;
    let raw = build_with_epub_builder(doc)?;
    let ghost raw_bytes = raw@;
    let r = patch_opf(raw, doc);
    proof {
        if r is Ok {
            let out = r->Ok_0@;
            assert(patched_archive(raw_bytes, *doc, out));
            let steps = doc_steps(*doc);
            let head = seq![GenStep::Epub3, GenStep::Uuid(uuid_for(doc.identifier@))]
                + metadata_steps(*doc) + assets_steps(
                opt_view(doc.cover_asset_id),
                doc.assets@,
                doc.assets@.len() as int,
            );
            let chapters = spine_steps(chapters_view(doc.spine@), navs_view(doc.toc@));
            assert(steps == head + chapters);
            assert forall|i: int|
                0 <= i < doc.spine@.len() && plain_path(#[trigger] doc.spine@[i].file_name@)
                    && !reserved_file(doc.spine@[i].file_name@) implies zip_entry(
                out,
                "OEBPS/"@ + doc.spine@[i].file_name@,
            ) == ZipReadV::Found(doc.spine@[i].data.0@) by {
                let k = head.len() + i;
                assert(steps[k] == chapters[i]);
                assert(chapters_view(doc.spine@)[i] == doc.spine@[i]@);
                assert(step_file(steps[k]) == Some(
                    (doc.spine@[i].file_name@, doc.spine@[i].data.0@),
                ));
                stored_files_survive_patch(raw_bytes, steps, *doc, out, k);
            }
        }
    }
    r
}

} // verus!
