//! The table of contents, read from the EPUB 3 navigation document
//! (`nav.xhtml`) or the EPUB 2 NCX (`toc.ncx`).
//!
//! The TOC file is the first manifest item whose `properties` hold the word
//! `nav`, or failing that the first item of media type
//! `application/x-dtbncx+xml`. The hrefs it holds are made OPF-relative, like
//! every other path of a `Document`.

use crate::error::{AppError, ErrorV};
use crate::opf::{clone_chars_string, nm, ExtrasV, ManifestItem, ManifestItemV, OpfExtras};
use crate::paths::{archive_path, parent_dir, resolve_archive_path, resolve_within, resolved_within, without_fragment};
use crate::text::{chars_of, find_from, has_word, has_word_exec, push_str, string_of, trim, trim_exec};
use crate::types::{nav_view, navs_view, NavItem, NavV};
use crate::writer::dir_part;
use crate::xml::{
    attrs_view, bytes_eq, entity_text, events_view, local_name_bytes, local_part, read_events,
    resolve_entity, xml_events, AttrV, EventV, XmlAttr, XmlEvent,
};
use crate::zipio::{file_read, read_file_bytes};
use vstd::prelude::*;

verus! {

// ---------------------------------------------------------------------------
// Locating the TOC file

/// Which kind of TOC file was found.
pub enum TocKind {
    Nav,
    Ncx,
}

/// The item is the EPUB 3 navigation document.
pub open spec fn is_nav_doc(mi: ManifestItemV) -> bool {
    mi.properties matches Some(p) && has_word(p, "nav"@)
}

/// The item is an EPUB 2 NCX.
pub open spec fn is_ncx_doc(mi: ManifestItemV) -> bool {
    mi.media_type == "application/x-dtbncx+xml"@
}

pub open spec fn fits(mi: ManifestItemV, nav: bool) -> bool {
    if nav {
        is_nav_doc(mi)
    } else {
        is_ncx_doc(mi)
    }
}

/// Index of the first manifest item that is a navigation document (`nav`)
/// or an NCX (`!nav`).
pub open spec fn first_fitting(m: Seq<(Seq<char>, ManifestItemV)>, nav: bool) -> Option<int>
    decreases m.len(),
{
    if m.len() == 0 {
        None
    } else {
        match first_fitting(m.drop_last(), nav) {
            Some(i) => Some(i),
            None => if fits(m.last().1, nav) {
                Some(m.len() - 1)
            } else {
                None
            },
        }
    }
}

/// The TOC file: the first navigation document, else the first NCX.
pub open spec fn toc_choice(m: Seq<(Seq<char>, ManifestItemV)>) -> Option<(int, bool)> {
    match first_fitting(m, true) {
        Some(i) => Some((i, true)),
        None => match first_fitting(m, false) {
            Some(i) => Some((i, false)),
            None => None,
        },
    }
}

pub proof fn lemma_first_fitting(m: Seq<(Seq<char>, ManifestItemV)>, nav: bool)
    ensures
        first_fitting(m, nav) matches Some(i) ==> 0 <= i < m.len() && fits(m[i].1, nav) && forall|
            j: int,
        | 0 <= j < i ==> !fits(m[j].1, nav),
        first_fitting(m, nav) is None ==> forall|j: int| 0 <= j < m.len() ==> !fits(m[j].1, nav),
    decreases m.len(),
{
    if m.len() > 0 {
        let t = m.drop_last();
        lemma_first_fitting(t, nav);
        assert forall|j: int| 0 <= j < t.len() implies t[j] == m[j] by {}
    }
}

fn fits_exec(mi: &ManifestItem, nav: bool) -> (r: bool)
    ensures
        r == fits(mi@, nav),
{
    if nav {
        match &mi.properties {
            Some(p) => {
                let word = chars_of("nav");
                has_word_exec(chars_of(p.as_str()).as_slice(), word.as_slice())
            },
            None => false,
        }
    } else {
        crate::text::str_eq(mi.media_type.as_str(), "application/x-dtbncx+xml")
    }
}

fn first_fitting_exec(m: &Vec<(String, ManifestItem)>, nav: bool) -> (r: Option<usize>)
    ensures
        r matches Some(i) ==> first_fitting(crate::opf::manifest_view(m@), nav) == Some(i as int)
            && i < m@.len(),
        r is None ==> first_fitting(crate::opf::manifest_view(m@), nav) is None,
{
    let ghost mv = crate::opf::manifest_view(m@);
    proof {
        lemma_first_fitting(mv, nav);
    }
    let mut i: usize = 0;
    while i < m.len()
        invariant
            mv == crate::opf::manifest_view(m@),
            i <= m@.len(),
            forall|j: int| 0 <= j < i ==> !fits(mv[j].1, nav),
            first_fitting(mv, nav) matches Some(x) ==> 0 <= x < mv.len() && fits(mv[x].1, nav)
                && forall|j: int| 0 <= j < x ==> !fits(mv[j].1, nav),
            first_fitting(mv, nav) is None ==> forall|j: int|
                0 <= j < mv.len() ==> !fits(mv[j].1, nav),
        decreases m@.len() - i,
    {
        if fits_exec(&m[i].1, nav) {
            assert(fits(mv[i as int].1, nav));
            return Some(i);
        }
        i = i + 1;
    }
    None
}

/// The TOC file of the package: the index of its manifest entry and
/// whether it is a navigation document (else an NCX).
pub fn find_toc(extras: &OpfExtras) -> (r: Option<(usize, TocKind)>)
    ensures
        match toc_choice(extras@.manifest) {
            Some((i, nav)) => r matches Some((j, k)) && j == i && (k is Nav <==> nav) && j
                < extras.manifest@.len(),
            None => r is None,
        },
{
    assert(extras@.manifest =~= crate::opf::manifest_view(extras.manifest@));
    match first_fitting_exec(&extras.manifest, true) {
        Some(i) => Some((i, TocKind::Nav)),
        None => match first_fitting_exec(&extras.manifest, false) {
            Some(i) => Some((i, TocKind::Ncx)),
            None => None,
        },
    }
}

// ---------------------------------------------------------------------------
// Attributes

/// The value of the first attribute named `key` whose value can be
/// unescaped.
pub open spec fn first_ok_value(attrs: Seq<AttrV>, key: Seq<u8>) -> Option<Seq<char>>
    decreases attrs.len(),
{
    if attrs.len() == 0 {
        None
    } else {
        match first_ok_value(attrs.drop_last(), key) {
            Some(v) => Some(v),
            None => if attrs.last().key == key && attrs.last().value is Ok {
                Some(attrs.last().value->Ok_0)
            } else {
                None
            },
        }
    }
}

proof fn lemma_first_ok_value_prefix(a: Seq<AttrV>, key: Seq<u8>, k: int)
    requires
        0 < k <= a.len(),
        first_ok_value(a.take(k), key) is Some,
    ensures
        first_ok_value(a, key) == first_ok_value(a.take(k), key),
    decreases a.len() - k,
{
    if k < a.len() {
        assert(a.take(k + 1).drop_last() =~= a.take(k));
        lemma_first_ok_value_prefix(a, key, k + 1);
    } else {
        assert(a.take(k) =~= a);
    }
}

/// The value of the first attribute named `name` whose value can be
/// unescaped.
pub fn attr_value(attrs: &Vec<XmlAttr>, name: &[u8]) -> (r: Option<String>)
    ensures
        crate::opf::ov(r) == first_ok_value(attrs_view(attrs@), name@),
{
    let ghost av = attrs_view(attrs@);
    let n = attrs.len();
    for i in 0..n
        invariant
            n == attrs@.len(),
            av == attrs_view(attrs@),
            first_ok_value(av.take(i as int), name@) is None,
    {
        assert(av.take(i + 1).drop_last() =~= av.take(i as int));
        if bytes_eq(attrs[i].key.as_slice(), name) {
            match &attrs[i].value {
                Ok(v) => {
                    proof {
                        lemma_first_ok_value_prefix(av, name@, i + 1);
                    }
                    return Some(clone_chars_string(v));
                },
                Err(_) => {},
            }
        }
    }
    assert(av.take(n as int) =~= av);
    None
}

/// Some attribute whose local name is `type` has the word `toc` in its
/// (unescaped) value.
pub open spec fn toc_typed(attrs: Seq<AttrV>) -> bool
    decreases attrs.len(),
{
    attrs.len() > 0 && (toc_typed(attrs.drop_last()) || (local_part(attrs.last().key) == nm(
        "type"@,
    ) && attrs.last().value is Ok && has_word(attrs.last().value->Ok_0, "toc"@)))
}

/// Whether a `<nav>` tag is the table of contents (`epub:type="toc"`).
pub fn is_toc_nav(attrs: &Vec<XmlAttr>) -> (r: bool)
    ensures
        r == toc_typed(attrs_view(attrs@)),
{
    let ghost av = attrs_view(attrs@);
    let type_key = crate::xml::ascii_bytes("type");
    let toc = chars_of("toc");
    let n = attrs.len();
    for i in 0..n
        invariant
            n == attrs@.len(),
            av == attrs_view(attrs@),
            type_key@ == nm("type"@),
            toc@ == "toc"@,
            !toc_typed(av.take(i as int)),
    {
        assert(av.take(i + 1).drop_last() =~= av.take(i as int));
        let a = &attrs[i];
        let local = local_name_bytes(a.key.as_slice());
        if bytes_eq(local.as_slice(), type_key.as_slice()) {
            match &a.value {
                Ok(v) => {
                    if has_word_exec(chars_of(v.as_str()).as_slice(), toc.as_slice()) {
                        proof {
                            lemma_toc_typed_prefix(av, i + 1);
                        }
                        return true;
                    }
                },
                Err(_) => {},
            }
        }
    }
    assert(av.take(n as int) =~= av);
    false
}

proof fn lemma_toc_typed_prefix(a: Seq<AttrV>, k: int)
    requires
        0 < k <= a.len(),
        toc_typed(a.take(k)),
    ensures
        toc_typed(a),
    decreases a.len() - k,
{
    if k < a.len() {
        assert(a.take(k + 1).drop_last() =~= a.take(k));
        lemma_toc_typed_prefix(a, k + 1);
    } else {
        assert(a.take(k) =~= a);
    }
}

// ---------------------------------------------------------------------------
// The stack of open entries

/// An entry with no title, no href and no children.
pub open spec fn empty_nav() -> NavV {
    NavV { title: Seq::empty(), href: Seq::empty(), children: Seq::empty() }
}

/// The top entry gets the href `href`, resolved against `dir`, unless it
/// already has one.
pub open spec fn with_top_href(stack: Seq<NavV>, href: Option<Seq<char>>, dir: Seq<char>) -> Seq<
    NavV,
> {
    match href {
        Some(h) => if stack.len() > 0 && stack.last().href.len() == 0 {
            stack.drop_last().push(NavV { href: resolved_within(dir, h), ..stack.last() })
        } else {
            stack
        },
        None => stack,
    }
}

/// The top entry gets the trimmed `text` as its title, unless it already
/// has one.
pub open spec fn with_top_title(stack: Seq<NavV>, text: Seq<char>) -> Seq<NavV> {
    if stack.len() > 0 && stack.last().title.len() == 0 {
        stack.drop_last().push(NavV { title: trim(text), ..stack.last() })
    } else {
        stack
    }
}

/// The top entry is closed: it becomes the last child of the entry below
/// it, or, when there is none, the last root.
pub open spec fn close_top(stack: Seq<NavV>, roots: Seq<NavV>) -> (Seq<NavV>, Seq<NavV>) {
    if stack.len() == 0 {
        (stack, roots)
    } else {
        let item = stack.last();
        let rest = stack.drop_last();
        if rest.len() > 0 {
            (
                rest.drop_last().push(
                    NavV { children: rest.last().children.push(item), ..rest.last() },
                ),
                roots,
            )
        } else {
            (rest, roots.push(item))
        }
    }
}

proof fn lemma_navs_push(s: Seq<NavItem>, x: NavItem)
    ensures
        navs_view(s.push(x)) == navs_view(s).push(nav_view(x)),
{
    assert(s.push(x).drop_last() =~= s);
}

proof fn lemma_navs_len(s: Seq<NavItem>)
    ensures
        navs_view(s).len() == s.len(),
    decreases s.len(),
{
    if s.len() > 0 {
        lemma_navs_len(s.drop_last());
    }
}

proof fn lemma_navs_last(s: Seq<NavItem>)
    requires
        s.len() > 0,
    ensures
        navs_view(s).len() == s.len(),
        navs_view(s).drop_last() == navs_view(s.drop_last()),
        navs_view(s).last() == nav_view(s.last()),
{
    lemma_navs_len(s);
    assert(navs_view(s).drop_last() =~= navs_view(s.drop_last()));
}

/// A new, empty entry.
pub fn empty_nav_item() -> (r: NavItem)
    ensures
        r@ == empty_nav(),
{
    let r = NavItem { title: String::new(), href: String::new(), children: Vec::new() };
    assert(navs_view(r.children@) =~= Seq::<NavV>::empty());
    r
}

fn push_empty(stack: &mut Vec<NavItem>)
    ensures
        navs_view(final(stack)@) == navs_view(old(stack)@).push(empty_nav()),
{
    let item = empty_nav_item();
    proof {
        lemma_navs_push(stack@, item);
    }
    stack.push(item);
}

/// Gives the top entry of the stack its href, as `with_top_href` says.
#[verifier::spinoff_prover]
#[verifier::rlimit(30)]
pub fn set_top_href(stack: &mut Vec<NavItem>, href: Option<String>, toc_dir: &str)
    ensures
        navs_view(final(stack)@) == with_top_href(
            navs_view(old(stack)@),
            crate::opf::ov(href),
            toc_dir@,
        ),
{
    proof {
        lemma_navs_len(stack@);
        if stack@.len() > 0 {
            lemma_navs_last(stack@);
        }
    }
    match href {
        Some(h) => {
            if stack.len() > 0 && stack[stack.len() - 1].href.as_str().is_empty() {
                let ghost s0 = stack@;
                let mut top = stack.pop().unwrap();
                assert(s0.drop_last() =~= stack@);
                top.href = resolve_within(toc_dir, h.as_str());
                proof {
                    lemma_navs_push(stack@, top);
                }
                stack.push(top);
            }
        },
        None => {},
    }
}

fn set_top_title(stack: &mut Vec<NavItem>, text: &Vec<char>)
    ensures
        navs_view(final(stack)@) == with_top_title(navs_view(old(stack)@), text@),
{
    proof {
        lemma_navs_len(stack@);
        if stack@.len() > 0 {
            lemma_navs_last(stack@);
        }
    }
    if stack.len() > 0 && stack[stack.len() - 1].title.as_str().is_empty() {
        let ghost s0 = stack@;
        let mut top = stack.pop().unwrap();
        assert(s0.drop_last() =~= stack@);
        let t = trim_exec(text.as_slice());
        top.title = string_of(t.as_slice());
        proof {
            lemma_navs_push(stack@, top);
        }
        stack.push(top);
    }
}

#[verifier::spinoff_prover]
#[verifier::rlimit(30)]
fn close_top_exec(stack: &mut Vec<NavItem>, roots: &mut Vec<NavItem>)
    ensures
        (navs_view(final(stack)@), navs_view(final(roots)@)) == close_top(
            navs_view(old(stack)@),
            navs_view(old(roots)@),
        ),
{
    proof {
        lemma_navs_len(stack@);
    }
    let ghost s0 = stack@;
    match stack.pop() {
        None => {},
        Some(item) => {
            assert(s0.drop_last() =~= stack@);
            proof {
                lemma_navs_last(s0);
                lemma_navs_len(stack@);
                if stack@.len() > 0 {
                    lemma_navs_last(stack@);
                }
            }
            let ghost s1 = stack@;
            match stack.pop() {
                Some(mut parent) => {
                    assert(s1.drop_last() =~= stack@);
                    let ghost kids = parent.children@;
                    proof {
                        lemma_navs_push(kids, item);
                    }
                    parent.children.push(item);
                    proof {
                        lemma_navs_push(stack@, parent);
                    }
                    stack.push(parent);
                },
                None => {
                    proof {
                        lemma_navs_push(roots@, item);
                    }
                    roots.push(item);
                },
            }
        },
    }
}

// ---------------------------------------------------------------------------
// The navigation document

/// The reading state of a navigation document (`nav_step`).
pub struct NavScan {
    /// Inside the table-of-contents `<nav>`.
    pub in_toc: bool,
    /// How many `<nav>` elements are open.
    pub open: int,
    /// The nesting depth at which the table-of-contents `<nav>` opened.
    pub entry: Option<int>,
    /// The `<li>` entries still open, innermost last.
    pub stack: Seq<NavV>,
    /// The finished top-level entries.
    pub roots: Seq<NavV>,
    /// Inside an `<a>` of an entry.
    pub in_a: bool,
    /// The text of that `<a>` read so far.
    pub text: Seq<char>,
}

pub open spec fn nav_start(st: NavScan, local: Seq<u8>, attrs: Seq<AttrV>, dir: Seq<char>) -> NavScan {
    if local == nm("nav"@) {
        let opened = st.open + 1;
        if !st.in_toc && toc_typed(attrs) {
            NavScan { open: opened, in_toc: true, entry: Some(opened), ..st }
        } else {
            NavScan { open: opened, ..st }
        }
    } else if local == nm("li"@) && st.in_toc {
        NavScan { stack: st.stack.push(empty_nav()), ..st }
    } else if local == nm("a"@) && st.in_toc && st.stack.len() > 0 {
        NavScan {
            stack: with_top_href(st.stack, first_ok_value(attrs, nm("href"@)), dir),
            in_a: true,
            text: Seq::empty(),
            ..st
        }
    } else {
        st
    }
}

pub open spec fn nav_end(st: NavScan, local: Seq<u8>) -> NavScan {
    let st2 = if st.in_toc && local == nm("a"@) && st.in_a {
        NavScan { stack: with_top_title(st.stack, st.text), text: Seq::empty(), in_a: false, ..st }
    } else if st.in_toc && local == nm("li"@) {
        NavScan { stack: close_top(st.stack, st.roots).0, roots: close_top(st.stack, st.roots).1, ..st }
    } else {
        st
    };
    if local == nm("nav"@) {
        if st2.entry == Some(st2.open) {
            NavScan { in_toc: false, entry: None, open: st2.open - 1, ..st2 }
        } else {
            NavScan { open: st2.open - 1, ..st2 }
        }
    } else {
        st2
    }
}

/// One event of a navigation document; `None` at the end of input or at an
/// XML error, which end the reading.
pub open spec fn nav_step(st: NavScan, ev: EventV, dir: Seq<char>) -> Option<NavScan> {
    match ev {
        EventV::Start(raw, attrs) => Some(nav_start(st, local_part(raw), attrs, dir)),
        EventV::Empty(raw, attrs) => Some(
            if st.in_toc && local_part(raw) == nm("a"@) && st.stack.len() > 0 {
                NavScan {
                    stack: with_top_href(st.stack, first_ok_value(attrs, nm("href"@)), dir),
                    ..st
                }
            } else {
                st
            },
        ),
        EventV::Text(t) => Some(
            if st.in_a && t is Some {
                NavScan { text: st.text + t->0, ..st }
            } else {
                st
            },
        ),
        EventV::Ref(r) => Some(
            if st.in_a && entity_text(r) is Some {
                NavScan { text: st.text + entity_text(r)->0, ..st }
            } else {
                st
            },
        ),
        EventV::End(raw) => Some(nav_end(st, local_part(raw))),
        EventV::Other => Some(st),
        EventV::Eof => None,
        EventV::Error(_) => None,
    }
}

pub open spec fn nav_run(st: NavScan, evs: Seq<EventV>, i: int, dir: Seq<char>) -> NavScan
    decreases evs.len() - i,
{
    if i < 0 || i >= evs.len() {
        st
    } else {
        match nav_step(st, evs[i], dir) {
            Some(s2) => nav_run(s2, evs, i + 1, dir),
            None => st,
        }
    }
}

/// The top-level entries of the TOC `<nav>` of a navigation document whose
/// directory (OPF-relative) is `toc_dir`.
pub open spec fn nav_toc(bytes: Seq<u8>, toc_dir: Seq<char>) -> Seq<NavV> {
    nav_run(nav_init(), xml_events(bytes, false), 0, toc_dir).roots
}

/// The state before a navigation document is read.
pub open spec fn nav_init() -> NavScan {
    NavScan {
        in_toc: false,
        open: 0,
        entry: None,
        stack: Seq::empty(),
        roots: Seq::empty(),
        in_a: false,
        text: Seq::empty(),
    }
}

struct NavParse {
    in_toc: bool,
    open: i128,
    entry: Option<i128>,
    stack: Vec<NavItem>,
    roots: Vec<NavItem>,
    in_a: bool,
    text: Vec<char>,
}

impl View for NavParse {
    type V = NavScan;

    closed spec fn view(&self) -> NavScan {
        NavScan {
            in_toc: self.in_toc,
            open: self.open as int,
            entry: match self.entry {
                Some(e) => Some(e as int),
                None => None,
            },
            stack: navs_view(self.stack@),
            roots: navs_view(self.roots@),
            in_a: self.in_a,
            text: self.text@,
        }
    }
}

/// Bounds that keep the counters of a reading state far from overflow:
/// each event moves them by at most one.
spec fn nav_bounded(st: NavParse, k: int) -> bool {
    &&& -k <= st.open <= k
    &&& st.entry matches Some(e) ==> -k <= e <= k
}

#[verifier::spinoff_prover]
#[verifier::rlimit(30)]
fn nav_start_exec(st: &mut NavParse, raw: &Vec<u8>, attrs: &Vec<XmlAttr>, toc_dir: &str)
    requires
        nav_bounded(*old(st), 0x1_0000_0000_0000_0000),
    ensures
        final(st)@ == nav_start(old(st)@, local_part(raw@), attrs_view(attrs@), toc_dir@),
        nav_bounded(*final(st), 0x1_0000_0000_0000_0001),
        old(st).open - 1 <= final(st).open <= old(st).open + 1,
        final(st).entry matches Some(e) ==> old(st).entry == Some(e) || e == final(st).open,
{
    let local = local_name_bytes(raw.as_slice());
    let nav = crate::xml::ascii_bytes("nav");
    let li = crate::xml::ascii_bytes("li");
    let a = crate::xml::ascii_bytes("a");
    if bytes_eq(local.as_slice(), nav.as_slice()) {
        st.open = st.open + 1;
        if !st.in_toc && is_toc_nav(attrs) {
            st.in_toc = true;
            st.entry = Some(st.open);
        }
    } else if bytes_eq(local.as_slice(), li.as_slice()) && st.in_toc {
        push_empty(&mut st.stack);
    } else if bytes_eq(local.as_slice(), a.as_slice()) && st.in_toc && st.stack.len() > 0 {
        let href = attr_value(attrs, crate::xml::ascii_bytes("href").as_slice());
        set_top_href(&mut st.stack, href, toc_dir);
        st.in_a = true;
        st.text = Vec::new();
    }
}

#[verifier::spinoff_prover]
#[verifier::rlimit(30)]
fn nav_end_exec(st: &mut NavParse, raw: &Vec<u8>)
    requires
        nav_bounded(*old(st), 0x1_0000_0000_0000_0000),
    ensures
        final(st)@ == nav_end(old(st)@, local_part(raw@)),
        old(st).open - 1 <= final(st).open <= old(st).open + 1,
        final(st).entry matches Some(e) ==> old(st).entry == Some(e),
{
    let local = local_name_bytes(raw.as_slice());
    let nav = crate::xml::ascii_bytes("nav");
    let li = crate::xml::ascii_bytes("li");
    let a = crate::xml::ascii_bytes("a");
    if st.in_toc && bytes_eq(local.as_slice(), a.as_slice()) && st.in_a {
        set_top_title(&mut st.stack, &st.text);
        st.text = Vec::new();
        st.in_a = false;
    } else if st.in_toc && bytes_eq(local.as_slice(), li.as_slice()) {
        close_top_exec(&mut st.stack, &mut st.roots);
    }
    if bytes_eq(local.as_slice(), nav.as_slice()) {
        if st.entry == Some(st.open) {
            st.in_toc = false;
            st.entry = None;
        }
        st.open = st.open - 1;
    }
}

fn nav_step_exec(st: &mut NavParse, ev: &XmlEvent, toc_dir: &str) -> (more: bool)
    requires
        nav_bounded(*old(st), 0x1_0000_0000_0000_0000),
    ensures
        match nav_step(old(st)@, ev@, toc_dir@) {
            Some(s2) => more && final(st)@ == s2,
            None => !more && final(st)@ == old(st)@,
        },
        old(st).open - 1 <= final(st).open <= old(st).open + 1,
        final(st).entry matches Some(e) ==> old(st).entry == Some(e) || e == final(st).open,
{
    match ev {
        XmlEvent::Start(raw, attrs) => {
            nav_start_exec(st, raw, attrs, toc_dir);
            true
        },
        XmlEvent::Empty(raw, attrs) => {
            let local = local_name_bytes(raw.as_slice());
            let a = crate::xml::ascii_bytes("a");
            if st.in_toc && bytes_eq(local.as_slice(), a.as_slice()) && st.stack.len() > 0 {
                let href = attr_value(attrs, crate::xml::ascii_bytes("href").as_slice());
                set_top_href(&mut st.stack, href, toc_dir);
            }
            true
        },
        XmlEvent::Text(t) => {
            if st.in_a {
                match t {
                    Some(s) => push_str(&mut st.text, s.as_str()),
                    None => {},
                }
            }
            true
        },
        XmlEvent::Ref(r) => {
            if st.in_a {
                match resolve_entity(r.as_slice()) {
                    Some(s) => push_str(&mut st.text, s.as_str()),
                    None => {},
                }
            }
            true
        },
        XmlEvent::End(raw) => {
            nav_end_exec(st, raw);
            true
        },
        XmlEvent::Other => true,
        XmlEvent::Eof => false,
        XmlEvent::Error(_) => false,
    }
}

/// Reads the TOC `<nav>` (`epub:type="toc"`) of a navigation document
/// whose OPF-relative directory is `toc_dir`. Reading stops at the end of
/// input or at the first XML error, keeping what was found.
#[verifier::spinoff_prover]
#[verifier::rlimit(30)]
pub fn parse_nav_xhtml(bytes: &[u8], toc_dir: &str) -> (r: Vec<NavItem>)
    ensures
        navs_view(r@) == nav_toc(bytes@, toc_dir@),
{
    let events = read_events(bytes, false);
    nav_entries_of_events(&events, toc_dir)
}

/// The top-level entries of the TOC `<nav>` read from a navigation
/// document's events, as `nav_run` says.
pub fn nav_entries_of_events(events: &Vec<XmlEvent>, toc_dir: &str) -> (r: Vec<NavItem>)
    ensures
        navs_view(r@) == nav_run(nav_init(), events_view(events@), 0, toc_dir@).roots,
{
    let ghost evs = events_view(events@);
    let mut st = NavParse {
        in_toc: false,
        open: 0,
        entry: None,
        stack: Vec::new(),
        roots: Vec::new(),
        in_a: false,
        text: Vec::new(),
    };
    let ghost init = st@;
    assert(init == NavScan {
        in_toc: false,
        open: 0,
        entry: None,
        stack: Seq::empty(),
        roots: Seq::empty(),
        in_a: false,
        text: Seq::empty(),
    });
    let mut i: usize = 0;
    while i < events.len()
        invariant
            evs == events_view(events@),
            i <= events@.len(),
            nav_bounded(st, i as int),
            nav_run(init, evs, 0, toc_dir@) == nav_run(st@, evs, i as int, toc_dir@),
            init == (NavScan {
                in_toc: false,
                open: 0,
                entry: None,
                stack: Seq::empty(),
                roots: Seq::empty(),
                in_a: false,
                text: Seq::empty(),
            }),
        decreases events@.len() - i,
    {
        assert(evs[i as int] == events@[i as int]@);
        let more = nav_step_exec(&mut st, &events[i], toc_dir);
        if !more {
            return st.roots;
        }
        i = i + 1;
    }
    st.roots
}

// ---------------------------------------------------------------------------
// The NCX

/// The reading state of an NCX: inside `<navMap>`, the open `<navPoint>`
/// entries, the finished top-level ones, inside `<navLabel>`, inside its
/// `<text>` and the text read so far.
pub struct NcxScan {
    pub in_map: bool,
    pub stack: Seq<NavV>,
    pub roots: Seq<NavV>,
    pub in_label: bool,
    pub in_text: bool,
    pub text: Seq<char>,
}

pub open spec fn ncx_start(st: NcxScan, local: Seq<u8>) -> NcxScan {
    if local == nm("navMap"@) {
        NcxScan { in_map: true, ..st }
    } else if st.in_map && local == nm("navPoint"@) {
        NcxScan { stack: st.stack.push(empty_nav()), ..st }
    } else if st.in_map && local == nm("navLabel"@) {
        NcxScan { in_label: true, ..st }
    } else if st.in_map && local == nm("text"@) && st.in_label {
        NcxScan { in_text: true, text: Seq::empty(), ..st }
    } else {
        st
    }
}

pub open spec fn ncx_end(st: NcxScan, local: Seq<u8>) -> NcxScan {
    if !st.in_map {
        st
    } else if local == nm("navMap"@) {
        NcxScan { in_map: false, ..st }
    } else if local == nm("text"@) && st.in_text {
        NcxScan {
            stack: with_top_title(st.stack, st.text),
            text: Seq::empty(),
            in_text: false,
            ..st
        }
    } else if local == nm("navLabel"@) {
        NcxScan { in_label: false, ..st }
    } else if local == nm("navPoint"@) {
        NcxScan { stack: close_top(st.stack, st.roots).0, roots: close_top(st.stack, st.roots).1, ..st }
    } else {
        st
    }
}

/// One event of an NCX; `None` at the end of input or at an XML error.
pub open spec fn ncx_step(st: NcxScan, ev: EventV, dir: Seq<char>) -> Option<NcxScan> {
    match ev {
        EventV::Start(raw, _) => Some(ncx_start(st, local_part(raw))),
        EventV::Empty(raw, attrs) => Some(
            if st.in_map && local_part(raw) == nm("content"@) {
                NcxScan {
                    stack: with_top_href(st.stack, first_ok_value(attrs, nm("src"@)), dir),
                    ..st
                }
            } else {
                st
            },
        ),
        EventV::Text(t) => Some(
            if st.in_text && t is Some {
                NcxScan { text: st.text + t->0, ..st }
            } else {
                st
            },
        ),
        EventV::Ref(r) => Some(
            if st.in_text && entity_text(r) is Some {
                NcxScan { text: st.text + entity_text(r)->0, ..st }
            } else {
                st
            },
        ),
        EventV::End(raw) => Some(ncx_end(st, local_part(raw))),
        EventV::Other => Some(st),
        EventV::Eof => None,
        EventV::Error(_) => None,
    }
}

pub open spec fn ncx_run(st: NcxScan, evs: Seq<EventV>, i: int, dir: Seq<char>) -> NcxScan
    decreases evs.len() - i,
{
    if i < 0 || i >= evs.len() {
        st
    } else {
        match ncx_step(st, evs[i], dir) {
            Some(s2) => ncx_run(s2, evs, i + 1, dir),
            None => st,
        }
    }
}

/// The top-level `<navPoint>` entries of the `<navMap>` of an NCX whose
/// OPF-relative directory is `toc_dir`.
pub open spec fn ncx_toc(bytes: Seq<u8>, toc_dir: Seq<char>) -> Seq<NavV> {
    ncx_run(ncx_init(), xml_events(bytes, false), 0, toc_dir).roots
}

/// The state before an NCX is read.
pub open spec fn ncx_init() -> NcxScan {
    NcxScan {
        in_map: false,
        stack: Seq::empty(),
        roots: Seq::empty(),
        in_label: false,
        in_text: false,
        text: Seq::empty(),
    }
}

struct NcxParse {
    in_map: bool,
    stack: Vec<NavItem>,
    roots: Vec<NavItem>,
    in_label: bool,
    in_text: bool,
    text: Vec<char>,
}

impl View for NcxParse {
    type V = NcxScan;

    closed spec fn view(&self) -> NcxScan {
        NcxScan {
            in_map: self.in_map,
            stack: navs_view(self.stack@),
            roots: navs_view(self.roots@),
            in_label: self.in_label,
            in_text: self.in_text,
            text: self.text@,
        }
    }
}

fn ncx_start_exec(st: &mut NcxParse, raw: &Vec<u8>)
    ensures
        final(st)@ == ncx_start(old(st)@, local_part(raw@)),
{
    let local = local_name_bytes(raw.as_slice());
    if bytes_eq(local.as_slice(), crate::xml::ascii_bytes("navMap").as_slice()) {
        st.in_map = true;
    } else if st.in_map && bytes_eq(
        local.as_slice(),
        crate::xml::ascii_bytes("navPoint").as_slice(),
    ) {
        push_empty(&mut st.stack);
    } else if st.in_map && bytes_eq(
        local.as_slice(),
        crate::xml::ascii_bytes("navLabel").as_slice(),
    ) {
        st.in_label = true;
    } else if st.in_map && bytes_eq(local.as_slice(), crate::xml::ascii_bytes("text").as_slice())
        && st.in_label {
        st.in_text = true;
        st.text = Vec::new();
    }
}

fn ncx_end_exec(st: &mut NcxParse, raw: &Vec<u8>)
    ensures
        final(st)@ == ncx_end(old(st)@, local_part(raw@)),
{
    let local = local_name_bytes(raw.as_slice());
    if !st.in_map {
    } else if bytes_eq(local.as_slice(), crate::xml::ascii_bytes("navMap").as_slice()) {
        st.in_map = false;
    } else if bytes_eq(local.as_slice(), crate::xml::ascii_bytes("text").as_slice())
        && st.in_text {
        set_top_title(&mut st.stack, &st.text);
        st.text = Vec::new();
        st.in_text = false;
    } else if bytes_eq(local.as_slice(), crate::xml::ascii_bytes("navLabel").as_slice()) {
        st.in_label = false;
    } else if bytes_eq(local.as_slice(), crate::xml::ascii_bytes("navPoint").as_slice()) {
        close_top_exec(&mut st.stack, &mut st.roots);
    }
}

fn ncx_step_exec(st: &mut NcxParse, ev: &XmlEvent, toc_dir: &str) -> (more: bool)
    ensures
        match ncx_step(old(st)@, ev@, toc_dir@) {
            Some(s2) => more && final(st)@ == s2,
            None => !more && final(st)@ == old(st)@,
        },
{
    match ev {
        XmlEvent::Start(raw, _) => {
            ncx_start_exec(st, raw);
            true
        },
        XmlEvent::Empty(raw, attrs) => {
            let local = local_name_bytes(raw.as_slice());
            if st.in_map && bytes_eq(
                local.as_slice(),
                crate::xml::ascii_bytes("content").as_slice(),
            ) {
                let src = attr_value(attrs, crate::xml::ascii_bytes("src").as_slice());
                set_top_href(&mut st.stack, src, toc_dir);
            }
            true
        },
        XmlEvent::Text(t) => {
            if st.in_text {
                match t {
                    Some(s) => push_str(&mut st.text, s.as_str()),
                    None => {},
                }
            }
            true
        },
        XmlEvent::Ref(r) => {
            if st.in_text {
                match resolve_entity(r.as_slice()) {
                    Some(s) => push_str(&mut st.text, s.as_str()),
                    None => {},
                }
            }
            true
        },
        XmlEvent::End(raw) => {
            ncx_end_exec(st, raw);
            true
        },
        XmlEvent::Other => true,
        XmlEvent::Eof => false,
        XmlEvent::Error(_) => false,
    }
}

/// Reads the `<navMap>` of an NCX whose OPF-relative directory is
/// `toc_dir`. Reading stops at the end of input or at the first XML error,
/// keeping what was found.
#[verifier::spinoff_prover]
#[verifier::rlimit(30)]
pub fn parse_ncx(bytes: &[u8], toc_dir: &str) -> (r: Vec<NavItem>)
    ensures
        navs_view(r@) == ncx_toc(bytes@, toc_dir@),
{
    let events = read_events(bytes, false);
    ncx_entries_of_events(&events, toc_dir)
}

/// The top-level `<navPoint>` entries read from an NCX's events, as
/// `ncx_run` says.
pub fn ncx_entries_of_events(events: &Vec<XmlEvent>, toc_dir: &str) -> (r: Vec<NavItem>)
    ensures
        navs_view(r@) == ncx_run(ncx_init(), events_view(events@), 0, toc_dir@).roots,
{
    let ghost evs = events_view(events@);
    let mut st = NcxParse {
        in_map: false,
        stack: Vec::new(),
        roots: Vec::new(),
        in_label: false,
        in_text: false,
        text: Vec::new(),
    };
    let ghost init = st@;
    assert(init == NcxScan {
        in_map: false,
        stack: Seq::empty(),
        roots: Seq::empty(),
        in_label: false,
        in_text: false,
        text: Seq::empty(),
    });
    let mut i: usize = 0;
    while i < events.len()
        invariant
            evs == events_view(events@),
            i <= events@.len(),
            ncx_run(init, evs, 0, toc_dir@) == ncx_run(st@, evs, i as int, toc_dir@),
            init == (NcxScan {
                in_map: false,
                stack: Seq::empty(),
                roots: Seq::empty(),
                in_label: false,
                in_text: false,
                text: Seq::empty(),
            }),
        decreases events@.len() - i,
    {
        assert(evs[i as int] == events@[i as int]@);
        let more = ncx_step_exec(&mut st, &events[i], toc_dir);
        if !more {
            return st.roots;
        }
        i = i + 1;
    }
    st.roots
}

// ---------------------------------------------------------------------------
// The TOC of a package

/// The TOC of the package described by `x`, in the archive `epub`: empty
/// when the manifest names no TOC file.
pub open spec fn toc_of(epub: Seq<u8>, x: ExtrasV) -> Result<Seq<NavV>, ErrorV> {
    match toc_choice(x.manifest) {
        None => Ok(Seq::empty()),
        Some((i, nav)) => {
            let mi = x.manifest[i].1;
            match file_read(epub, archive_path(x.opf_dir, mi.href)) {
                Err(e) => Err(e),
                Ok(b) => {
                    let dir = dir_part(without_fragment(mi.href));
                    Ok(
                        if nav {
                            nav_toc(b, dir)
                        } else {
                            ncx_toc(b, dir)
                        },
                    )
                },
            }
        },
    }
}

/// Reads the table of contents of the package described by `extras` out of
/// the archive `epub_bytes`.
pub fn build(epub_bytes: &[u8], extras: &OpfExtras) -> (r: Result<Vec<NavItem>, AppError>)
    ensures
        match toc_of(epub_bytes@, extras@) {
            Ok(t) => r matches Ok(v) && navs_view(v@) == t,
            Err(x) => r matches Err(e) && e@ == x,
        },
{
    let (i, kind) = match find_toc(extras) {
        Some(found) => found,
        None => {
            let v: Vec<NavItem> = Vec::new();
            assert(navs_view(v@) =~= Seq::<NavV>::empty());
            return Ok(v);
        },
    };
    let mi = &extras.manifest[i].1;
    assert(extras@.manifest[i as int].1 == mi@);
    let path = resolve_archive_path(extras.opf_dir.as_str(), mi.href.as_str());
    let bytes = read_file_bytes(epub_bytes, path.as_str())?;
    let toc_dir = parent_dir(mi.href.as_str());
    match kind {
        TocKind::Nav => Ok(parse_nav_xhtml(bytes.as_slice(), toc_dir.as_str())),
        TocKind::Ncx => Ok(parse_ncx(bytes.as_slice(), toc_dir.as_str())),
    }
}

/// The table of contents is read relative to the TOC file's own directory:
/// when the manifest's TOC file has href `m` and its bytes read as `b`, the
/// entries are those of `b` with every link resolved against
/// `dir_part(without_fragment(m))` (so a nav at `Text/nav.xhtml` linking
/// `ch1.xhtml` gives `Text/ch1.xhtml`); a TOC file that cannot be read gives
/// its reading error, and no TOC file gives no entries.
pub proof fn toc_links_resolve_against_the_toc_file(epub: Seq<u8>, x: ExtrasV)
    ensures
        toc_choice(x.manifest) is None ==> toc_of(epub, x) == Ok::<Seq<NavV>, ErrorV>(Seq::empty()),
        toc_choice(x.manifest) matches Some((i, nav)) ==> ({
            let m = x.manifest[i].1.href;
            let d = dir_part(without_fragment(m));
            match file_read(epub, archive_path(x.opf_dir, m)) {
                Ok(b) => toc_of(epub, x) == Ok::<Seq<NavV>, ErrorV>(
                    if nav {
                        nav_toc(b, d)
                    } else {
                        ncx_toc(b, d)
                    },
                ),
                Err(e) => toc_of(epub, x) == Err::<Seq<NavV>, ErrorV>(e),
            }
        }),
{
}

/// Resolving a link against a directory: a relative link without fragment
/// is the normalized path of the directory followed by the link.
pub proof fn relative_link_is_prefixed_with_the_dir(d: Seq<char>, h: Seq<char>)
    requires
        d.len() > 0,
        h.len() > 0,
        h[0] != '/',
        find_from(h, seq!['#'], 0) is None,
    ensures
        resolved_within(d, h) == crate::paths::normalized(d + h),
{
    crate::text::lemma_find_from(h, seq!['#'], 0);
    if crate::text::starts_with(h, seq!['/']) {
        assert(h.subrange(0, 1)[0] == h[0]);
    }
}

} // verus!
