//! The OPF package document: locating it, and reading its metadata,
//! manifest, spine and cover hints.
//!
//! Element names are matched on their local part, so namespaced packages
//! (`<opf:spine>`) read the same as bare ones; Dublin Core elements are those
//! whose name resolves to the Dublin Core namespace, whatever prefix binds
//! it. An element that declares more than 256 namespace bindings stops the
//! reading.

use crate::error::{AppError, ErrorV};
use crate::paths::opf_dir;
use crate::text::{
    chars_of, contains, contains_exec, is_ws, push_str, str_eq, string_of, strs, trim, trim_end, trim_start,
    trim_exec, utf8_str,
};
use crate::writer::dir_part;
use crate::xml::{
    ascii_bytes, attrs_view, bytes_eq, entity_text, events_view, local_name_bytes, local_part,
    ns_events_view, read_events, read_ns_events, resolve_entity, xml_events, xml_ns_events, AttrV, EventV, NsEvent,
    Resolved, ResolvedV, XmlAttr, XmlEvent,
};
use crate::zipio::{zip_entry, zip_read, ZipRead, ZipReadV};
use vstd::prelude::*;

verus! {

/// One manifest entry.
#[derive(Clone, Debug)]
pub struct ManifestItem {
    pub href: String,
    pub media_type: String,
    pub properties: Option<String>,
}

pub struct ManifestItemV {
    pub href: Seq<char>,
    pub media_type: Seq<char>,
    pub properties: Option<Seq<char>>,
}

impl View for ManifestItem {
    type V = ManifestItemV;

    open spec fn view(&self) -> ManifestItemV {
        ManifestItemV {
            href: self.href@,
            media_type: self.media_type@,
            properties: match self.properties {
                Some(p) => Some(p@),
                None => None,
            },
        }
    }
}

/// What the OPF says. `other_dc` and `manifest` hold each key at most once,
/// in order of first appearance.
#[derive(Debug)]
pub struct OpfExtras {
    pub language: Option<String>,
    pub creators: Vec<String>,
    pub rights: Option<String>,
    pub publisher: Option<String>,
    pub description: Option<String>,
    pub date: Option<String>,
    pub title: Option<String>,
    pub identifier: Option<String>,
    /// Other `<dc:*>` entries (subject, contributor, type, ...).
    pub other_dc: Vec<(String, Vec<String>)>,
    /// Manifest items: id -> (href, media-type, properties).
    pub manifest: Vec<(String, ManifestItem)>,
    /// The cover hint: `<meta name="cover" content="..."/>` (EPUB 2) or the
    /// id of the `properties="cover-image"` item (EPUB 3).
    pub cover_id: Option<String>,
    /// Spine: ordered idrefs.
    pub spine: Vec<String>,
    /// Package version ("2.0" or "3.0").
    pub version: Option<String>,
    /// Directory of the OPF within the archive (for href resolution).
    pub opf_dir: String,
}

pub struct ExtrasV {
    pub language: Option<Seq<char>>,
    pub creators: Seq<Seq<char>>,
    pub rights: Option<Seq<char>>,
    pub publisher: Option<Seq<char>>,
    pub description: Option<Seq<char>>,
    pub date: Option<Seq<char>>,
    pub title: Option<Seq<char>>,
    pub identifier: Option<Seq<char>>,
    pub other_dc: Seq<(Seq<char>, Seq<Seq<char>>)>,
    pub manifest: Seq<(Seq<char>, ManifestItemV)>,
    pub cover_id: Option<Seq<char>>,
    pub spine: Seq<Seq<char>>,
    pub version: Option<Seq<char>>,
    pub opf_dir: Seq<char>,
}

pub open spec fn ov(o: Option<String>) -> Option<Seq<char>> {
    match o {
        Some(s) => Some(s@),
        None => None,
    }
}

impl View for OpfExtras {
    type V = ExtrasV;

    open spec fn view(&self) -> ExtrasV {
        ExtrasV {
            language: ov(self.language),
            creators: strs(self.creators@),
            rights: ov(self.rights),
            publisher: ov(self.publisher),
            description: ov(self.description),
            date: ov(self.date),
            title: ov(self.title),
            identifier: ov(self.identifier),
            other_dc: Seq::new(
                self.other_dc@.len(),
                |i: int| (self.other_dc@[i].0@, strs(self.other_dc@[i].1@)),
            ),
            manifest: Seq::new(
                self.manifest@.len(),
                |i: int| (self.manifest@[i].0@, self.manifest@[i].1@),
            ),
            cover_id: ov(self.cover_id),
            spine: strs(self.spine@),
            version: ov(self.version),
            opf_dir: self.opf_dir@,
        }
    }
}

// ---------------------------------------------------------------------------
// Keyed lists

/// Index of the entry with key `k`, if any.
pub open spec fn key_index<V>(m: Seq<(Seq<char>, V)>, k: Seq<char>) -> Option<int>
    decreases m.len(),
{
    if m.len() == 0 {
        None
    } else {
        match key_index(m.drop_last(), k) {
            Some(i) => Some(i),
            None => if m.last().0 == k {
                Some(m.len() - 1)
            } else {
                None
            },
        }
    }
}

/// The value under key `k`, if any.
pub open spec fn lookup<V>(m: Seq<(Seq<char>, V)>, k: Seq<char>) -> Option<V> {
    match key_index(m, k) {
        Some(i) => Some(m[i].1),
        None => None,
    }
}

/// `m` with `k` bound to `v` (replacing the value in place, or appended).
pub open spec fn keyed_insert<V>(m: Seq<(Seq<char>, V)>, k: Seq<char>, v: V) -> Seq<(Seq<char>, V)> {
    match key_index(m, k) {
        Some(i) => m.update(i, (k, v)),
        None => m.push((k, v)),
    }
}

/// `m` with `x` appended to the list under key `k` (created when absent).
pub open spec fn keyed_push(m: Seq<(Seq<char>, Seq<Seq<char>>)>, k: Seq<char>, x: Seq<char>) -> Seq<
    (Seq<char>, Seq<Seq<char>>),
> {
    match key_index(m, k) {
        Some(i) => m.update(i, (k, m[i].1.push(x))),
        None => m.push((k, seq![x])),
    }
}

pub proof fn lemma_key_index<V>(m: Seq<(Seq<char>, V)>, k: Seq<char>)
    ensures
        key_index(m, k) matches Some(i) ==> 0 <= i < m.len() && m[i].0 == k && forall|j: int|
            0 <= j < i ==> m[j].0 != k,
        key_index(m, k) is None ==> forall|j: int| 0 <= j < m.len() ==> m[j].0 != k,
    decreases m.len(),
{
    if m.len() > 0 {
        let t = m.drop_last();
        lemma_key_index(t, k);
        assert forall|j: int| 0 <= j < t.len() implies t[j] == m[j] by {}
    }
}

/// No key occurs twice.
pub open spec fn keys_unique<V>(m: Seq<(Seq<char>, V)>) -> bool {
    forall|i: int, j: int| 0 <= i < j < m.len() ==> #[trigger] m[i].0 != #[trigger] m[j].0
}

proof fn lemma_keyed_insert_unique<V>(m: Seq<(Seq<char>, V)>, k: Seq<char>, v: V)
    requires
        keys_unique(m),
    ensures
        keys_unique(keyed_insert(m, k, v)),
{
    lemma_key_index(m, k);
    let r = keyed_insert(m, k, v);
    match key_index(m, k) {
        Some(idx) => {
            assert forall|i: int, j: int| 0 <= i < j < r.len() implies #[trigger] r[i].0
                != #[trigger] r[j].0 by {
                assert(r[i].0 == m[i].0);
                assert(r[j].0 == m[j].0);
            }
        },
        None => {
            assert forall|i: int, j: int| 0 <= i < j < r.len() implies #[trigger] r[i].0
                != #[trigger] r[j].0 by {
                if j < m.len() {
                    assert(r[i] == m[i] && r[j] == m[j]);
                } else {
                    assert(r[i] == m[i]);
                }
            }
        },
    }
}

proof fn lemma_keyed_push_unique(m: Seq<(Seq<char>, Seq<Seq<char>>)>, k: Seq<char>, x: Seq<char>)
    requires
        keys_unique(m),
    ensures
        keys_unique(keyed_push(m, k, x)),
{
    lemma_key_index(m, k);
    let r = keyed_push(m, k, x);
    match key_index(m, k) {
        Some(idx) => {
            assert forall|i: int, j: int| 0 <= i < j < r.len() implies #[trigger] r[i].0
                != #[trigger] r[j].0 by {
                assert(r[i].0 == m[i].0);
                assert(r[j].0 == m[j].0);
            }
        },
        None => {
            assert forall|i: int, j: int| 0 <= i < j < r.len() implies #[trigger] r[i].0
                != #[trigger] r[j].0 by {
                if j < m.len() {
                    assert(r[i] == m[i] && r[j] == m[j]);
                } else {
                    assert(r[i] == m[i]);
                }
            }
        },
    }
}

pub fn find_key<V>(m: &Vec<(String, V)>, k: &str) -> (r: Option<usize>)
    ensures
        r matches Some(i) ==> key_index(Seq::new(m@.len(), |j: int| (m@[j].0@, ())), k@) == Some(
            i as int,
        ),
        r is None ==> key_index(Seq::new(m@.len(), |j: int| (m@[j].0@, ())), k@) is None,
{
    let ghost keys = Seq::new(m@.len(), |j: int| (m@[j].0@, ()));
    proof {
        lemma_key_index(keys, k@);
    }
    let mut i: usize = 0;
    while i < m.len()
        invariant
            keys == Seq::new(m@.len(), |j: int| (m@[j].0@, ())),
            i <= m@.len(),
            forall|j: int| 0 <= j < i ==> m@[j].0@ != k@,
            key_index(keys, k@) matches Some(x) ==> 0 <= x < keys.len() && keys[x].0 == k@ && forall|
                j: int,
            | 0 <= j < x ==> keys[j].0 != k@,
            key_index(keys, k@) is None ==> forall|j: int| 0 <= j < keys.len() ==> keys[j].0 != k@,
        decreases m@.len() - i,
    {
        if str_eq(m[i].0.as_str(), k) {
            assert(keys[i as int].0 == k@);
            return Some(i);
        }
        i = i + 1;
    }
    assert(forall|j: int| 0 <= j < keys.len() ==> keys[j].0 != k@);
    None
}

/// The keys of a keyed list agree with those of its view.
pub proof fn lemma_key_index_same_keys<A, B>(a: Seq<(Seq<char>, A)>, b: Seq<(Seq<char>, B)>, k: Seq<char>)
    requires
        a.len() == b.len(),
        forall|j: int| 0 <= j < a.len() ==> a[j].0 == b[j].0,
    ensures
        key_index(a, k) == key_index(b, k),
    decreases a.len(),
{
    if a.len() > 0 {
        lemma_key_index_same_keys(a.drop_last(), b.drop_last(), k);
    }
}

// ---------------------------------------------------------------------------
// Dublin Core assignment

/// Records one Dublin Core value (trimmed; empty values are dropped). The
/// single-valued fields keep their first value; creators accumulate; other
/// names go to `other_dc`.
pub open spec fn dc_assigned(x: ExtrasV, name: Seq<char>, value: Seq<char>) -> ExtrasV {
    let v = trim(value);
    if v.len() == 0 {
        x
    } else if name == "title"@ {
        ExtrasV { title: if x.title is Some { x.title } else { Some(v) }, ..x }
    } else if name == "language"@ {
        ExtrasV { language: if x.language is Some { x.language } else { Some(v) }, ..x }
    } else if name == "creator"@ {
        ExtrasV { creators: x.creators.push(v), ..x }
    } else if name == "rights"@ {
        ExtrasV { rights: if x.rights is Some { x.rights } else { Some(v) }, ..x }
    } else if name == "publisher"@ {
        ExtrasV { publisher: if x.publisher is Some { x.publisher } else { Some(v) }, ..x }
    } else if name == "description"@ {
        ExtrasV { description: if x.description is Some { x.description } else { Some(v) }, ..x }
    } else if name == "date"@ {
        ExtrasV { date: if x.date is Some { x.date } else { Some(v) }, ..x }
    } else if name == "identifier"@ {
        ExtrasV { identifier: if x.identifier is Some { x.identifier } else { Some(v) }, ..x }
    } else {
        ExtrasV { other_dc: keyed_push(x.other_dc, name, v), ..x }
    }
}

/// Dublin Core values are recorded trimmed; a blank value is dropped; the
/// first title (and likewise language, rights, publisher, description,
/// date, identifier) is kept against later ones; creators accumulate in
/// order.
pub proof fn dublin_core_values(x: ExtrasV, name: Seq<char>, a: Seq<char>, b: Seq<char>)
    ensures
        trim(a).len() == 0 ==> dc_assigned(x, name, a) == x,
        x.title is None && trim(a).len() > 0 ==> dc_assigned(
            dc_assigned(x, "title"@, a),
            "title"@,
            b,
        ).title == Some(trim(a)),
        trim(a).len() > 0 && trim(b).len() > 0 ==> dc_assigned(
            dc_assigned(x, "creator"@, a),
            "creator"@,
            b,
        ).creators == x.creators.push(trim(a)).push(trim(b)),
{
    reveal_strlit("title");
    reveal_strlit("language");
    reveal_strlit("creator");
    assert("creator"@ != "title"@) by {
        assert("creator"@.len() != "title"@.len());
    }
    assert("creator"@ != "language"@) by {
        assert("creator"@[0] != "language"@[0]);
    }
}

fn set_if_none(slot: &mut Option<String>, v: &Vec<char>)
    ensures
        ov(*final(slot)) == (if ov(*old(slot)) is Some {
            ov(*old(slot))
        } else {
            Some(v@)
        }),
{
    if slot.is_none() {
        *slot = Some(string_of(v.as_slice()));
    }
}

/// Records one Dublin Core value, as `dc_assigned` says.
#[verifier::spinoff_prover]
#[verifier::rlimit(30)]
pub fn assign_dc(extras: &mut OpfExtras, name: &str, value: &str)
    ensures
        final(extras)@ == dc_assigned(old(extras)@, name@, value@),
{
    let vc = chars_of(value);
    let v = trim_exec(vc.as_slice());
    if v.len() == 0 {
        return;
    }
    if str_eq(name, "title") {
        set_if_none(&mut extras.title, &v);
    } else if str_eq(name, "language") {
        set_if_none(&mut extras.language, &v);
    } else if str_eq(name, "creator") {
        let ghost before = strs(extras.creators@);
        extras.creators.push(string_of(v.as_slice()));
        assert(strs(extras.creators@) =~= before.push(v@));
    } else if str_eq(name, "rights") {
        set_if_none(&mut extras.rights, &v);
    } else if str_eq(name, "publisher") {
        set_if_none(&mut extras.publisher, &v);
    } else if str_eq(name, "description") {
        set_if_none(&mut extras.description, &v);
    } else if str_eq(name, "date") {
        set_if_none(&mut extras.date, &v);
    } else if str_eq(name, "identifier") {
        set_if_none(&mut extras.identifier, &v);
    } else {
        let ghost before = old(extras)@.other_dc;
        let ghost keys = Seq::new(extras.other_dc@.len(), |j: int| (extras.other_dc@[j].0@, ()));
        proof {
            lemma_key_index_same_keys(keys, before, name@);
            lemma_key_index(before, name@);
        }
        match find_key(&extras.other_dc, name) {
            Some(i) => {
                let ghost raw = extras.other_dc@;
                let mut entry = extras.other_dc.remove(i);
                assert(entry == raw[i as int]);
                let ghost old_vals = entry.1@;
                entry.1.push(string_of(v.as_slice()));
                assert(strs(entry.1@) =~= strs(old_vals).push(v@));
                extras.other_dc.insert(i, entry);
                assert(extras.other_dc@ =~= raw.update(i as int, entry));
                assert(extras@.other_dc =~= before.update(
                    i as int,
                    (name@, before[i as int].1.push(v@)),
                ));
            },
            None => {
                let mut vals: Vec<String> = Vec::new();
                vals.push(string_of(v.as_slice()));
                extras.other_dc.push((string_of(chars_of(name).as_slice()), vals));
                assert(strs(vals@) =~= seq![v@]);
                assert(extras@.other_dc =~= before.push((name@, seq![v@])));
            },
        }
    }
}

// ---------------------------------------------------------------------------
// Attributes

/// The bytes of an ASCII name.
pub open spec fn nm(s: Seq<char>) -> Seq<u8> {
    vstd::utf8::encode_utf8(s)
}

/// The value of the last attribute named `key` whose value could be
/// unescaped.
pub open spec fn last_ok_value(attrs: Seq<AttrV>, key: Seq<u8>) -> Option<Seq<char>>
    decreases attrs.len(),
{
    if attrs.len() == 0 {
        None
    } else if attrs.last().key == key && attrs.last().value is Ok {
        Some(attrs.last().value->Ok_0)
    } else {
        last_ok_value(attrs.drop_last(), key)
    }
}

/// The value of the last attribute named `key`: `None` when there is no such
/// attribute or its value could not be unescaped.
pub open spec fn last_attr(attrs: Seq<AttrV>, key: Seq<u8>) -> Option<Seq<char>>
    decreases attrs.len(),
{
    if attrs.len() == 0 {
        None
    } else if attrs.last().key == key {
        match attrs.last().value {
            Ok(v) => Some(v),
            Err(_) => None,
        }
    } else {
        last_attr(attrs.drop_last(), key)
    }
}

/// The message of the first attribute whose value could not be unescaped.
pub open spec fn first_attr_error(attrs: Seq<AttrV>) -> Option<Seq<char>>
    decreases attrs.len(),
{
    if attrs.len() == 0 {
        None
    } else {
        match first_attr_error(attrs.drop_last()) {
            Some(e) => Some(e),
            None => match attrs.last().value {
                Err(e) => Some(e),
                Ok(_) => None,
            },
        }
    }
}

/// The unescaped values of all attributes named `key`, in order.
pub open spec fn ok_values(attrs: Seq<AttrV>, key: Seq<u8>) -> Seq<Seq<char>>
    decreases attrs.len(),
{
    if attrs.len() == 0 {
        Seq::empty()
    } else {
        let rest = ok_values(attrs.drop_last(), key);
        if attrs.last().key == key && attrs.last().value is Ok {
            rest.push(attrs.last().value->Ok_0)
        } else {
            rest
        }
    }
}

pub fn clone_chars_string(s: &String) -> (r: String)
    ensures
        r@ == s@,
{
    s.clone()
}

pub fn last_ok_value_exec(attrs: &Vec<XmlAttr>, key: &[u8]) -> (r: Option<String>)
    ensures
        ov(r) == last_ok_value(attrs_view(attrs@), key@),
{
    let mut i = attrs.len();
    let ghost av = attrs_view(attrs@);
    assert(av.take(i as int) =~= av);
    while i > 0
        invariant
            i <= attrs@.len(),
            av == attrs_view(attrs@),
            last_ok_value(av, key@) == last_ok_value(av.take(i as int), key@),
        decreases i,
    {
        assert(av.take(i as int).drop_last() =~= av.take(i - 1));
        let a = &attrs[i - 1];
        if bytes_eq(a.key.as_slice(), key) {
            match &a.value {
                Ok(v) => return Some(clone_chars_string(v)),
                Err(_) => {},
            }
        }
        i = i - 1;
    }
    None
}

pub fn last_attr_exec(attrs: &Vec<XmlAttr>, key: &[u8]) -> (r: Option<String>)
    ensures
        ov(r) == last_attr(attrs_view(attrs@), key@),
{
    let mut i = attrs.len();
    let ghost av = attrs_view(attrs@);
    assert(av.take(i as int) =~= av);
    while i > 0
        invariant
            i <= attrs@.len(),
            av == attrs_view(attrs@),
            last_attr(av, key@) == last_attr(av.take(i as int), key@),
        decreases i,
    {
        assert(av.take(i as int).drop_last() =~= av.take(i - 1));
        let a = &attrs[i - 1];
        if bytes_eq(a.key.as_slice(), key) {
            return match &a.value {
                Ok(v) => Some(clone_chars_string(v)),
                Err(_) => None,
            };
        }
        i = i - 1;
    }
    None
}

pub fn first_attr_error_exec(attrs: &Vec<XmlAttr>) -> (r: Option<String>)
    ensures
        ov(r) == first_attr_error(attrs_view(attrs@)),
{
    let ghost av = attrs_view(attrs@);
    let n = attrs.len();
    for i in 0..n
        invariant
            n == attrs@.len(),
            av == attrs_view(attrs@),
            first_attr_error(av.take(i as int)) is None,
    {
        assert(av.take(i + 1).drop_last() =~= av.take(i as int));
        match &attrs[i].value {
            Err(e) => {
                proof {
                    lemma_first_attr_error_prefix(av, i + 1);
                }
                return Some(clone_chars_string(e));
            },
            Ok(_) => {},
        }
    }
    assert(av.take(n as int) =~= av);
    None
}

proof fn lemma_first_attr_error_prefix(a: Seq<AttrV>, k: int)
    requires
        0 < k <= a.len(),
        first_attr_error(a.take(k)) is Some,
    ensures
        first_attr_error(a) == first_attr_error(a.take(k)),
    decreases a.len() - k,
{
    if k < a.len() {
        assert(a.take(k + 1).drop_last() =~= a.take(k));
        lemma_first_attr_error_prefix(a, k + 1);
    } else {
        assert(a.take(k) =~= a);
    }
}

pub fn ok_values_exec(attrs: &Vec<XmlAttr>, key: &[u8]) -> (r: Vec<String>)
    ensures
        strs(r@) == ok_values(attrs_view(attrs@), key@),
{
    let ghost av = attrs_view(attrs@);
    let mut out: Vec<String> = Vec::new();
    let n = attrs.len();
    for i in 0..n
        invariant
            n == attrs@.len(),
            av == attrs_view(attrs@),
            strs(out@) == ok_values(av.take(i as int), key@),
    {
        assert(av.take(i + 1).drop_last() =~= av.take(i as int));
        let a = &attrs[i];
        if bytes_eq(a.key.as_slice(), key) {
            match &a.value {
                Ok(v) => {
                    let ghost before = strs(out@);
                    out.push(clone_chars_string(v));
                    assert(strs(out@) =~= before.push(v@));
                },
                Err(_) => {},
            }
        }
    }
    assert(av.take(n as int) =~= av);
    out
}

// ---------------------------------------------------------------------------
// The package document, event by event

#[derive(PartialEq, Eq, Structural)]
pub enum Section {
    Outside,
    Metadata,
    Manifest,
    Spine,
}

/// The reading state: what has been found, the section we are in, and the
/// Dublin Core element being read with its text so far.
pub struct OpfStateV {
    pub extras: ExtrasV,
    pub section: Section,
    pub current_dc: Option<Seq<char>>,
    pub current_text: Seq<char>,
}

pub enum OpfStep {
    Next(OpfStateV),
    Done(OpfStateV),
    Fail(Seq<char>),
}

/// `b` begins with `p`.
pub open spec fn has_prefix(b: Seq<u8>, p: Seq<u8>) -> bool {
    p.len() <= b.len() && b.subrange(0, p.len() as int) == p
}

/// A Dublin Core element: its name resolves to the Dublin Core namespace
/// `http://purl.org/dc/elements/1.1/`, whatever prefix (or default
/// namespace) binds it.
pub open spec fn is_dc(ns: ResolvedV) -> bool {
    ns == ResolvedV::Bound(nm("http://purl.org/dc/elements/1.1/"@))
}

/// The most namespace bindings one element may declare.
pub const MAX_NS_BINDINGS: usize = 256;

/// An attribute that declares a namespace binding: `xmlns` or `xmlns:p`.
pub open spec fn is_binding(a: AttrV) -> bool {
    a.key == nm("xmlns"@) || has_prefix(a.key, nm("xmlns:"@))
}

/// How many namespace bindings the attributes declare.
pub open spec fn binding_count(attrs: Seq<AttrV>) -> nat
    decreases attrs.len(),
{
    if attrs.len() == 0 {
        0
    } else {
        binding_count(attrs.drop_last()) + if is_binding(attrs.last()) {
            1nat
        } else {
            0nat
        }
    }
}

/// The message of a package element that declares too many bindings.
pub open spec fn too_many_bindings_message() -> Seq<char> {
    "element declares more than 256 namespace bindings"@
}

pub open spec fn with_section(st: OpfStateV, s: Section) -> OpfStateV {
    OpfStateV { section: s, ..st }
}

/// A manifest `<item>`: `None` unless it has an id, an href and a media type.
pub open spec fn manifest_item(attrs: Seq<AttrV>) -> Option<(Seq<char>, ManifestItemV)> {
    match (
        last_attr(attrs, nm("id"@)),
        last_attr(attrs, nm("href"@)),
        last_attr(attrs, nm("media-type"@)),
    ) {
        (Some(id), Some(href), Some(mt)) => Some(
            (
                id,
                ManifestItemV {
                    href: href,
                    media_type: mt,
                    properties: last_attr(attrs, nm("properties"@)),
                },
            ),
        ),
        _ => None,
    }
}

/// Reading one start tag.
pub open spec fn opf_start(st: OpfStateV, ns: ResolvedV, raw: Seq<u8>, attrs: Seq<AttrV>) -> OpfStateV {
    let local = local_part(raw);
    if local == nm("package"@) {
        match last_ok_value(attrs, nm("version"@)) {
            Some(v) => OpfStateV { extras: ExtrasV { version: Some(v), ..st.extras }, ..st },
            None => st,
        }
    } else if local == nm("metadata"@) {
        with_section(st, Section::Metadata)
    } else if local == nm("manifest"@) {
        with_section(st, Section::Manifest)
    } else if local == nm("spine"@) {
        with_section(st, Section::Spine)
    } else if st.section == Section::Metadata && is_dc(ns) && vstd::utf8::valid_utf8(local) {
        OpfStateV {
            current_dc: Some(vstd::utf8::decode_utf8(local)),
            current_text: Seq::empty(),
            ..st
        }
    } else {
        st
    }
}

/// Reading one empty-element tag: cover meta, manifest item, spine itemref.
pub open spec fn opf_empty(st: OpfStateV, raw: Seq<u8>, attrs: Seq<AttrV>) -> OpfStep {
    let name = local_part(raw);
    if st.section == Section::Metadata && name == nm("meta"@) {
        if last_attr(attrs, nm("name"@)) == Some("cover"@) {
            OpfStep::Next(
                OpfStateV {
                    extras: ExtrasV { cover_id: last_attr(attrs, nm("content"@)), ..st.extras },
                    ..st
                },
            )
        } else {
            OpfStep::Next(st)
        }
    } else if st.section == Section::Manifest && name == nm("item"@) {
        match first_attr_error(attrs) {
            Some(e) => OpfStep::Fail(e),
            None => match manifest_item(attrs) {
                Some((id, mi)) => {
                    let props = match mi.properties {
                        Some(p) => p,
                        None => Seq::empty(),
                    };
                    let cover = if contains(props, "cover-image"@) && st.extras.cover_id is None {
                        Some(id)
                    } else {
                        st.extras.cover_id
                    };
                    OpfStep::Next(
                        OpfStateV {
                            extras: ExtrasV {
                                manifest: keyed_insert(st.extras.manifest, id, mi),
                                cover_id: cover,
                                ..st.extras
                            },
                            ..st
                        },
                    )
                },
                None => OpfStep::Next(st),
            },
        }
    } else if st.section == Section::Spine && name == nm("itemref"@) {
        OpfStep::Next(
            OpfStateV {
                extras: ExtrasV {
                    spine: st.extras.spine + ok_values(attrs, nm("idref"@)),
                    ..st.extras
                },
                ..st
            },
        )
    } else {
        OpfStep::Next(st)
    }
}

/// Reading one end tag: leaving a section, or completing a Dublin Core value.
pub open spec fn opf_end(st: OpfStateV, ns: ResolvedV, raw: Seq<u8>) -> OpfStateV {
    let local = local_part(raw);
    if local == nm("metadata"@) || local == nm("manifest"@) || local == nm("spine"@) {
        with_section(st, Section::Outside)
    } else if st.section == Section::Metadata && is_dc(ns) && vstd::utf8::valid_utf8(local)
        && st.current_dc == Some(vstd::utf8::decode_utf8(local)) {
        OpfStateV {
            extras: dc_assigned(st.extras, vstd::utf8::decode_utf8(local), st.current_text),
            current_dc: None,
            current_text: Seq::empty(),
            ..st
        }
    } else {
        st
    }
}

/// Text of a Dublin Core element being read is collected.
pub open spec fn collecting(st: OpfStateV) -> bool {
    st.section == Section::Metadata && st.current_dc is Some
}

/// One step of the reading: a tag that declares more than
/// `MAX_NS_BINDINGS` namespace bindings stops it.
pub open spec fn opf_step(st: OpfStateV, ns: ResolvedV, ev: EventV) -> OpfStep {
    match ev {
        EventV::Start(raw, attrs) => if binding_count(attrs) > MAX_NS_BINDINGS {
            OpfStep::Fail(too_many_bindings_message())
        } else {
            OpfStep::Next(opf_start(st, ns, raw, attrs))
        },
        EventV::Empty(raw, attrs) => if binding_count(attrs) > MAX_NS_BINDINGS {
            OpfStep::Fail(too_many_bindings_message())
        } else {
            opf_empty(st, raw, attrs)
        },
        EventV::Text(t) => if collecting(st) && t is Some {
            OpfStep::Next(OpfStateV { current_text: st.current_text + t->0, ..st })
        } else {
            OpfStep::Next(st)
        },
        EventV::Ref(r) => if collecting(st) && entity_text(r) is Some {
            OpfStep::Next(OpfStateV { current_text: st.current_text + entity_text(r)->0, ..st })
        } else {
            OpfStep::Next(st)
        },
        EventV::End(raw) => OpfStep::Next(opf_end(st, ns, raw)),
        EventV::Other => OpfStep::Next(st),
        EventV::Eof => OpfStep::Done(st),
        EventV::Error(m) => OpfStep::Fail(m),
    }
}

/// Every `<itemref/>` inside `<spine>` joins the spine: reading one appends
/// exactly its `idref` values, in attribute order, and changes nothing else;
/// and an attribute other than `idref` (such as `linear="no"`) makes no
/// difference to what is read.
pub proof fn itemrefs_all_join_the_spine(
    st: OpfStateV,
    ns: ResolvedV,
    raw: Seq<u8>,
    attrs: Seq<AttrV>,
    extra: AttrV,
)
    requires
        st.section == Section::Spine,
        local_part(raw) == nm("itemref"@),
        binding_count(attrs.push(extra)) <= MAX_NS_BINDINGS,
        extra.key != nm("idref"@),
    ensures
        opf_step(st, ns, EventV::Empty(raw, attrs)) == OpfStep::Next(
            OpfStateV {
                extras: ExtrasV {
                    spine: st.extras.spine + ok_values(attrs, nm("idref"@)),
                    ..st.extras
                },
                ..st
            },
        ),
        opf_step(st, ns, EventV::Empty(raw, attrs.push(extra))) == opf_step(
            st,
            ns,
            EventV::Empty(raw, attrs),
        ),
        forall|v: Seq<char>|
            ok_values(attrs, nm("idref"@)).contains(v) <==> exists|i: int|
                0 <= i < attrs.len() && attrs[i].key == nm("idref"@) && #[trigger] attrs[i].value
                    == Ok::<Seq<char>, Seq<char>>(v),
{
    reveal_strlit("itemref");
    reveal_strlit("meta");
    reveal_strlit("item");
    let with = attrs.push(extra);
    assert(with.drop_last() =~= attrs);
    assert(binding_count(attrs) <= binding_count(with));
    assert(ok_values(with, nm("idref"@)) == ok_values(attrs, nm("idref"@)));
    assert(nm("itemref"@) != nm("meta"@)) by {
        assert(nm("itemref"@).len() != nm("meta"@).len()) by {
            vstd::utf8::is_ascii_chars_encode_utf8("itemref"@);
            vstd::utf8::is_ascii_chars_encode_utf8("meta"@);
        }
    }
    assert(nm("itemref"@) != nm("item"@)) by {
        assert(nm("itemref"@).len() != nm("item"@).len()) by {
            vstd::utf8::is_ascii_chars_encode_utf8("itemref"@);
            vstd::utf8::is_ascii_chars_encode_utf8("item"@);
        }
    }
    lemma_ok_values_members(attrs, nm("idref"@));
}

proof fn lemma_ok_values_members(attrs: Seq<AttrV>, key: Seq<u8>)
    ensures
        forall|v: Seq<char>|
            ok_values(attrs, key).contains(v) <==> exists|i: int|
                0 <= i < attrs.len() && attrs[i].key == key && #[trigger] attrs[i].value == Ok::<
                    Seq<char>,
                    Seq<char>,
                >(v),
    decreases attrs.len(),
{
    if attrs.len() > 0 {
        let rest = attrs.drop_last();
        lemma_ok_values_members(rest, key);
        assert forall|v: Seq<char>|
            ok_values(attrs, key).contains(v) <==> exists|i: int|
                0 <= i < attrs.len() && attrs[i].key == key && #[trigger] attrs[i].value == Ok::<
                    Seq<char>,
                    Seq<char>,
                >(v) by {
            let last = attrs.len() - 1;
            if ok_values(attrs, key).contains(v) {
                let vals = ok_values(attrs, key);
                let j = choose|j: int| 0 <= j < vals.len() && vals[j] == v;
                if attrs.last().key == key && attrs.last().value is Ok && j == vals.len() - 1 {
                    assert(attrs[last].value == Ok::<Seq<char>, Seq<char>>(v));
                } else {
                    assert(ok_values(rest, key).contains(v)) by {
                        assert(ok_values(rest, key)[j] == v);
                    }
                    let i = choose|i: int|
                        0 <= i < rest.len() && rest[i].key == key && #[trigger] rest[i].value
                            == Ok::<Seq<char>, Seq<char>>(v);
                    assert(attrs[i] == rest[i]);
                }
            }
            if exists|i: int|
                0 <= i < attrs.len() && attrs[i].key == key && #[trigger] attrs[i].value == Ok::<
                    Seq<char>,
                    Seq<char>,
                >(v) {
                let i = choose|i: int|
                    0 <= i < attrs.len() && attrs[i].key == key && #[trigger] attrs[i].value
                        == Ok::<Seq<char>, Seq<char>>(v);
                if i == last {
                    assert(ok_values(attrs, key).last() == v);
                    assert(ok_values(attrs, key).contains(v)) by {
                        assert(ok_values(attrs, key)[ok_values(attrs, key).len() - 1] == v);
                    }
                } else {
                    assert(rest[i] == attrs[i]);
                    assert(ok_values(rest, key).contains(v));
                    let j = choose|j: int| 0 <= j < ok_values(rest, key).len() && ok_values(rest, key)[j] == v;
                    if attrs.last().key == key && attrs.last().value is Ok {
                        assert(ok_values(attrs, key)[j] == v);
                    }
                }
            }
        }
    }
}

/// Reading the events from index `i` on: the final state, or the message of
/// the first failure.
pub open spec fn opf_run(st: OpfStateV, evs: Seq<(ResolvedV, EventV)>, i: int) -> Result<
    OpfStateV,
    Seq<char>,
>
    decreases evs.len() - i,
{
    if i < 0 || i >= evs.len() {
        Ok(st)
    } else {
        match opf_step(st, evs[i].0, evs[i].1) {
            OpfStep::Next(s2) => opf_run(s2, evs, i + 1),
            OpfStep::Done(s2) => Ok(s2),
            OpfStep::Fail(m) => Err(m),
        }
    }
}

pub open spec fn empty_extras(opf_dir: Seq<char>) -> ExtrasV {
    ExtrasV {
        language: None,
        creators: Seq::empty(),
        rights: None,
        publisher: None,
        description: None,
        date: None,
        title: None,
        identifier: None,
        other_dc: Seq::empty(),
        manifest: Seq::empty(),
        cover_id: None,
        spine: Seq::empty(),
        version: None,
        opf_dir: opf_dir,
    }
}

/// What the OPF bytes (at archive path `opf_path`) say, or the message of
/// the XML or attribute error that stops the reading.
pub open spec fn opf_extras(opf_bytes: Seq<u8>, opf_path: Seq<char>) -> Result<ExtrasV, Seq<char>> {
    opf_read(xml_ns_events(opf_bytes, true), opf_path)
}

/// What the events of a package document at `opf_path` say, or the message
/// of the XML or attribute error that stops the reading.
pub open spec fn opf_read(evs: Seq<(ResolvedV, EventV)>, opf_path: Seq<char>) -> Result<ExtrasV, Seq<char>> {
    let init = OpfStateV {
        extras: empty_extras(dir_part(opf_path)),
        section: Section::Outside,
        current_dc: None,
        current_text: Seq::empty(),
    };
    match opf_run(init, evs, 0) {
        Ok(st) => Ok(st.extras),
        Err(m) => Err(m),
    }
}

// ---------------------------------------------------------------------------
// Reading the package document

fn has_prefix_exec(b: &[u8], p: &[u8]) -> (r: bool)
    ensures
        r == has_prefix(b@, p@),
{
    if p.len() > b.len() {
        return false;
    }
    let mut i: usize = 0;
    while i < p.len()
        invariant
            p@.len() <= b@.len(),
            i <= p@.len(),
            forall|j: int| 0 <= j < i ==> b@[j] == p@[j],
        decreases p@.len() - i,
    {
        if b[i] != p[i] {
            assert(b@.subrange(0, p@.len() as int)[i as int] != p@[i as int]);
            return false;
        }
        i = i + 1;
    }
    assert(b@.subrange(0, p@.len() as int) =~= p@);
    true
}

/// Whether an element's resolved namespace is the Dublin Core one.
pub fn is_dc_element(ns: &Resolved) -> (r: bool)
    ensures
        r == is_dc(ns@),
{
    match ns {
        Resolved::Bound(uri) => name_is(uri.as_slice(), "http://purl.org/dc/elements/1.1/"),
        _ => false,
    }
}

/// How many namespace bindings the attributes declare.
fn binding_count_exec(attrs: &Vec<XmlAttr>) -> (r: usize)
    ensures
        r == binding_count(attrs_view(attrs@)),
{
    let xmlns = ascii_bytes("xmlns");
    let xmlns_colon = ascii_bytes("xmlns:");
    let mut n: usize = 0;
    let mut i: usize = 0;
    while i < attrs.len()
        invariant
            i <= attrs@.len(),
            n <= i,
            xmlns@ == nm("xmlns"@),
            xmlns_colon@ == nm("xmlns:"@),
            n == binding_count(attrs_view(attrs@).take(i as int)),
        decreases attrs@.len() - i,
    {
        let a = &attrs[i];
        let b = bytes_eq(a.key.as_slice(), xmlns.as_slice()) || has_prefix_exec(
            a.key.as_slice(),
            xmlns_colon.as_slice(),
        );
        proof {
            let v = attrs_view(attrs@);
            assert(v.take(i + 1).drop_last() =~= v.take(i as int));
            assert(v.take(i + 1).last() == a@);
        }
        if b {
            n = n + 1;
        }
        i = i + 1;
    }
    assert(attrs_view(attrs@).take(attrs@.len() as int) =~= attrs_view(attrs@));
    n
}

/// Whether the bytes are those of the ASCII name `lit`.
fn name_is(b: &[u8], lit: &str) -> (r: bool)
    ensures
        r == (b@ == nm(lit@)),
{
    let l = ascii_bytes(lit);
    bytes_eq(b, l.as_slice())
}

/// The views of a manifest list.
pub open spec fn manifest_view(m: Seq<(String, ManifestItem)>) -> Seq<(Seq<char>, ManifestItemV)> {
    Seq::new(m.len(), |i: int| (m[i].0@, m[i].1@))
}

fn manifest_insert(m: &mut Vec<(String, ManifestItem)>, id: String, mi: ManifestItem)
    ensures
        manifest_view(final(m)@) == keyed_insert(manifest_view(old(m)@), id@, mi@),
{
    let ghost before = manifest_view(m@);
    let ghost keys = Seq::new(m@.len(), |j: int| (m@[j].0@, ()));
    proof {
        lemma_key_index_same_keys(keys, before, id@);
        lemma_key_index(keys, id@);
    }
    match find_key(m, id.as_str()) {
        Some(i) => {
            let ghost k = id@;
            let ghost v = mi@;
            m.set(i, (id, mi));
            assert(manifest_view(m@) =~= before.update(i as int, (k, v)));
        },
        None => {
            let ghost k = id@;
            let ghost v = mi@;
            m.push((id, mi));
            assert(manifest_view(m@) =~= before.push((k, v)));
        },
    }
}

/// A manifest `<item>`'s entry: `None` unless it has an id, an href and a
/// media type.
pub fn parse_manifest_item(attrs: &Vec<XmlAttr>) -> (r: Option<(String, ManifestItem)>)
    ensures
        match manifest_item(attrs_view(attrs@)) {
            Some((id, mi)) => r matches Some((i, m)) && i@ == id && m@ == mi,
            None => r is None,
        },
{
    let id = last_attr_exec(attrs, ascii_bytes("id").as_slice());
    let href = last_attr_exec(attrs, ascii_bytes("href").as_slice());
    let media_type = last_attr_exec(attrs, ascii_bytes("media-type").as_slice());
    let properties = last_attr_exec(attrs, ascii_bytes("properties").as_slice());
    match (id, href, media_type) {
        (Some(id), Some(href), Some(media_type)) => Some(
            (id, ManifestItem { href, media_type, properties }),
        ),
        _ => None,
    }
}

/// The reading state of `parse_extras`.
struct OpfParse {
    extras: OpfExtras,
    section: Section,
    current_dc: Option<String>,
    current_text: Vec<char>,
}

impl View for OpfParse {
    type V = OpfStateV;

    closed spec fn view(&self) -> OpfStateV {
        OpfStateV {
            extras: self.extras@,
            section: self.section,
            current_dc: ov(self.current_dc),
            current_text: self.current_text@,
        }
    }
}

fn set_section(st: &mut OpfParse, s: Section)
    ensures
        final(st)@ == with_section(old(st)@, s),
{
    st.section = s;
}

fn start_tag(st: &mut OpfParse, ns: &Resolved, raw: &Vec<u8>, attrs: &Vec<XmlAttr>)
    ensures
        final(st)@ == opf_start(old(st)@, ns@, raw@, attrs_view(attrs@)),
{
    let local = local_name_bytes(raw.as_slice());
    if name_is(local.as_slice(), "package") {
        let v = last_ok_value_exec(attrs, ascii_bytes("version").as_slice());
        if v.is_some() {
            st.extras.version = v;
        }
    } else if name_is(local.as_slice(), "metadata") {
        set_section(st, Section::Metadata);
    } else if name_is(local.as_slice(), "manifest") {
        set_section(st, Section::Manifest);
    } else if name_is(local.as_slice(), "spine") {
        set_section(st, Section::Spine);
    } else if st.section == Section::Metadata && is_dc_element(ns) {
        match utf8_str(local.as_slice()) {
            Some(name) => {
                st.current_dc = Some(string_of(chars_of(name).as_slice()));
                st.current_text = Vec::new();
            },
            None => {},
        }
    }
}

fn end_tag(st: &mut OpfParse, ns: &Resolved, raw: &Vec<u8>)
    ensures
        final(st)@ == opf_end(old(st)@, ns@, raw@),
{
    let local = local_name_bytes(raw.as_slice());
    if name_is(local.as_slice(), "metadata") || name_is(local.as_slice(), "manifest") || name_is(
        local.as_slice(),
        "spine",
    ) {
        set_section(st, Section::Outside);
    } else if st.section == Section::Metadata && is_dc_element(ns) {
        match utf8_str(local.as_slice()) {
            Some(name) => {
                let same = match &st.current_dc {
                    Some(c) => str_eq(c.as_str(), name),
                    None => false,
                };
                if same {
                    let text = string_of(st.current_text.as_slice());
                    assign_dc(&mut st.extras, name, text.as_str());
                    st.current_dc = None;
                    st.current_text = Vec::new();
                }
            },
            None => {},
        }
    }
}

/// An empty-element tag; `Some(message)` when an attribute of a manifest
/// item cannot be unescaped.
#[verifier::spinoff_prover]
#[verifier::rlimit(30)]
fn empty_tag(st: &mut OpfParse, raw: &Vec<u8>, attrs: &Vec<XmlAttr>) -> (r: Option<String>)
    ensures
        match opf_empty(old(st)@, raw@, attrs_view(attrs@)) {
            OpfStep::Next(s2) => r is None && final(st)@ == s2,
            OpfStep::Fail(m) => r matches Some(e) && e@ == m,
            OpfStep::Done(_) => false,
        },
{
    let name = local_name_bytes(raw.as_slice());
    if st.section == Section::Metadata && name_is(name.as_slice(), "meta") {
        let n = last_attr_exec(attrs, ascii_bytes("name").as_slice());
        let is_cover = match &n {
            Some(v) => str_eq(v.as_str(), "cover"),
            None => false,
        };
        if is_cover {
            st.extras.cover_id = last_attr_exec(attrs, ascii_bytes("content").as_slice());
        }
        None
    } else if st.section == Section::Manifest && name_is(name.as_slice(), "item") {
        match first_attr_error_exec(attrs) {
            Some(e) => {
                return Some(e);
            },
            None => {},
        }
        match parse_manifest_item(attrs) {
            Some((id, mi)) => {
                let props: Vec<char> = match &mi.properties {
                    Some(p) => chars_of(p.as_str()),
                    None => Vec::new(),
                };
                let marker = chars_of("cover-image");
                if contains_exec(props.as_slice(), marker.as_slice()) && st.extras.cover_id.is_none() {
                    st.extras.cover_id = Some(clone_chars_string(&id));
                }
                manifest_insert(&mut st.extras.manifest, id, mi);
                None
            },
            None => None,
        }
    } else if st.section == Section::Spine && name_is(name.as_slice(), "itemref") {
        let refs = ok_values_exec(attrs, ascii_bytes("idref").as_slice());
        append_strings(&mut st.extras.spine, &refs);
        None
    } else {
        None
    }
}

fn append_strings(dst: &mut Vec<String>, src: &Vec<String>)
    ensures
        strs(final(dst)@) == strs(old(dst)@) + strs(src@),
{
    let ghost before = strs(dst@);
    let mut k: usize = 0;
    while k < src.len()
        invariant
            k <= src@.len(),
            strs(dst@) == before + strs(src@).take(k as int),
        decreases src@.len() - k,
    {
        let ghost prev = dst@;
        dst.push(clone_chars_string(&src[k]));
        assert(strs(dst@) =~= strs(prev).push(src@[k as int]@));
        assert(strs(src@).take(k + 1) =~= strs(src@).take(k as int).push(src@[k as int]@));
        k = k + 1;
    }
    assert(strs(src@).take(src@.len() as int) =~= strs(src@));
}

/// What one step of the reading did.
enum Flow {
    Continue,
    Stop,
    Fail(String),
}

fn opf_step_exec(st: &mut OpfParse, nev: &NsEvent) -> (r: Flow)
    ensures
        match opf_step(old(st)@, nev.ns@, nev.event@) {
            OpfStep::Next(s2) => r is Continue && final(st)@ == s2,
            OpfStep::Done(s2) => r is Stop && final(st)@ == s2,
            OpfStep::Fail(m) => r matches Flow::Fail(e) && e@ == m,
        },
{
    let ev = &nev.event;
    match ev {
        XmlEvent::Start(raw, attrs) => {
            if binding_count_exec(attrs) > MAX_NS_BINDINGS {
                return Flow::Fail(
                    string_of(chars_of("element declares more than 256 namespace bindings").as_slice()),
                );
            }
            start_tag(st, &nev.ns, raw, attrs);
            Flow::Continue
        },
        XmlEvent::Empty(raw, attrs) => {
            if binding_count_exec(attrs) > MAX_NS_BINDINGS {
                return Flow::Fail(
                    string_of(chars_of("element declares more than 256 namespace bindings").as_slice()),
                );
            }
            match empty_tag(st, raw, attrs) {
                Some(e) => Flow::Fail(e),
                None => Flow::Continue,
            }
        },
        XmlEvent::Text(t) => {
            if st.section == Section::Metadata && st.current_dc.is_some() {
                match t {
                    Some(s) => push_str(&mut st.current_text, s.as_str()),
                    None => {},
                }
            }
            Flow::Continue
        },
        XmlEvent::Ref(r) => {
            if st.section == Section::Metadata && st.current_dc.is_some() {
                match resolve_entity(r.as_slice()) {
                    Some(s) => push_str(&mut st.current_text, s.as_str()),
                    None => {},
                }
            }
            Flow::Continue
        },
        XmlEvent::End(raw) => {
            end_tag(st, &nev.ns, raw);
            Flow::Continue
        },
        XmlEvent::Other => Flow::Continue,
        XmlEvent::Eof => Flow::Stop,
        XmlEvent::Error(m) => Flow::Fail(clone_chars_string(m)),
    }
}

fn new_extras(opf_dir: String) -> (r: OpfExtras)
    ensures
        r@ == empty_extras(opf_dir@),
{
    let r = OpfExtras {
        language: None,
        creators: Vec::new(),
        rights: None,
        publisher: None,
        description: None,
        date: None,
        title: None,
        identifier: None,
        other_dc: Vec::new(),
        manifest: Vec::new(),
        cover_id: None,
        spine: Vec::new(),
        version: None,
        opf_dir,
    };
    assert(strs(r.creators@) =~= Seq::<Seq<char>>::empty());
    assert(strs(r.spine@) =~= Seq::<Seq<char>>::empty());
    assert(r@.other_dc =~= Seq::<(Seq<char>, Seq<Seq<char>>)>::empty());
    assert(r@.manifest =~= Seq::<(Seq<char>, ManifestItemV)>::empty());
    r
}

/// Reads the OPF at archive path `opf_path`: metadata, manifest, spine,
/// cover hint and version. Fails with `MalformedOpf` on the first XML error,
/// or on a manifest item attribute whose value cannot be unescaped.
#[verifier::spinoff_prover]
#[verifier::rlimit(30)]
pub fn parse_extras(opf_bytes: &[u8], opf_path: &str) -> (r: Result<OpfExtras, AppError>)
    ensures
        match opf_extras(opf_bytes@, opf_path@) {
            Ok(x) => r matches Ok(e) && e@ == x,
            Err(m) => r matches Err(e) && e@ == ErrorV::MalformedOpf(m),
        },
{
    let events = read_ns_events(opf_bytes, true);
    extras_of_events(&events, opf_path)
}

/// What the package document at `opf_path` says, read from its events
/// (each with its element's namespace), as `opf_read` says.
#[verifier::spinoff_prover]
#[verifier::rlimit(30)]
pub fn extras_of_events(events: &Vec<NsEvent>, opf_path: &str) -> (r: Result<OpfExtras, AppError>)
    ensures
        match opf_read(ns_events_view(events@), opf_path@) {
            Ok(x) => r matches Ok(e) && e@ == x,
            Err(m) => r matches Err(e) && e@ == ErrorV::MalformedOpf(m),
        },
{
    let ghost evs = ns_events_view(events@);
    let mut st = OpfParse {
        extras: new_extras(opf_dir(opf_path)),
        section: Section::Outside,
        current_dc: None,
        current_text: Vec::new(),
    };
    let ghost init = st@;
    assert(init.current_text =~= Seq::<char>::empty());
    assert(init == OpfStateV {
        extras: empty_extras(dir_part(opf_path@)),
        section: Section::Outside,
        current_dc: None,
        current_text: Seq::empty(),
    });
    let mut i: usize = 0;
    while i < events.len()
        invariant
            evs == ns_events_view(events@),
            i <= events@.len(),
            opf_run(init, evs, 0) == opf_run(st@, evs, i as int),
            init == (OpfStateV {
                extras: empty_extras(dir_part(opf_path@)),
                section: Section::Outside,
                current_dc: None,
                current_text: Seq::empty(),
            }),
        decreases events@.len() - i,
    {
        assert(evs[i as int] == (events@[i as int].ns@, events@[i as int].event@));
        let ghost before = st@;
        let flow = opf_step_exec(&mut st, &events[i]);
        assert(opf_run(before, evs, i as int) == match opf_step(
            before,
            evs[i as int].0,
            evs[i as int].1,
        ) {
            OpfStep::Next(s2) => opf_run(s2, evs, i + 1),
            OpfStep::Done(s2) => Ok(s2),
            OpfStep::Fail(m) => Err(m),
        });
        match flow {
            Flow::Continue => {},
            Flow::Stop => {
                return Ok(st.extras);
            },
            Flow::Fail(m) => {
                return Err(AppError::MalformedOpf(m));
            },
        }
        i = i + 1;
    }
    Ok(st.extras)
}

// ---------------------------------------------------------------------------
// Locating the package document

/// The first attribute named `key`: its value, or the message of the error
/// met while unescaping it.
pub open spec fn first_attr(attrs: Seq<AttrV>, key: Seq<u8>) -> Option<Result<Seq<char>, Seq<char>>>
    decreases attrs.len(),
{
    if attrs.len() == 0 {
        None
    } else {
        match first_attr(attrs.drop_last(), key) {
            Some(r) => Some(r),
            None => if attrs.last().key == key {
                Some(attrs.last().value)
            } else {
                None
            },
        }
    }
}

proof fn lemma_first_attr_prefix(a: Seq<AttrV>, key: Seq<u8>, k: int)
    requires
        0 < k <= a.len(),
        first_attr(a.take(k), key) is Some,
    ensures
        first_attr(a, key) == first_attr(a.take(k), key),
    decreases a.len() - k,
{
    if k < a.len() {
        assert(a.take(k + 1).drop_last() =~= a.take(k));
        lemma_first_attr_prefix(a, key, k + 1);
    } else {
        assert(a.take(k) =~= a);
    }
}

/// The first attribute named `key`, as `first_attr` says.
pub fn first_attr_exec(attrs: &Vec<XmlAttr>, key: &[u8]) -> (r: Option<Result<String, String>>)
    ensures
        match first_attr(attrs_view(attrs@), key@) {
            None => r is None,
            Some(Ok(v)) => r matches Some(Ok(x)) && x@ == v,
            Some(Err(m)) => r matches Some(Err(x)) && x@ == m,
        },
{
    let ghost av = attrs_view(attrs@);
    let n = attrs.len();
    for i in 0..n
        invariant
            n == attrs@.len(),
            av == attrs_view(attrs@),
            first_attr(av.take(i as int), key@) is None,
    {
        assert(av.take(i + 1).drop_last() =~= av.take(i as int));
        if bytes_eq(attrs[i].key.as_slice(), key) {
            proof {
                lemma_first_attr_prefix(av, key@, i + 1);
            }
            return match &attrs[i].value {
                Ok(v) => Some(Ok(clone_chars_string(v))),
                Err(m) => Some(Err(clone_chars_string(m))),
            };
        }
    }
    assert(av.take(n as int) =~= av);
    None
}

/// What the container document says of the package document.
pub enum RootfileScan {
    /// The `full-path` of the first `<rootfile>` that has one.
    Path(Seq<char>),
    /// An XML error, or a `full-path` whose value cannot be unescaped.
    Malformed(Seq<char>),
    /// No `<rootfile>` with a `full-path`.
    Absent,
}

/// The `full-path` attribute of a `<rootfile>` tag.
pub open spec fn rootfile_attr(raw: Seq<u8>, attrs: Seq<AttrV>) -> Option<Result<Seq<char>, Seq<char>>> {
    if local_part(raw) == nm("rootfile"@) {
        first_attr(attrs, nm("full-path"@))
    } else {
        None
    }
}

pub open spec fn scan_tag(found: Option<Result<Seq<char>, Seq<char>>>, rest: RootfileScan) -> RootfileScan {
    match found {
        Some(Ok(p)) => RootfileScan::Path(p),
        Some(Err(m)) => RootfileScan::Malformed(m),
        None => rest,
    }
}

/// Scanning the container's events from index `i` on.
pub open spec fn rootfile_scan(evs: Seq<EventV>, i: int) -> RootfileScan
    decreases evs.len() - i,
{
    if i < 0 || i >= evs.len() {
        RootfileScan::Absent
    } else {
        match evs[i] {
            EventV::Start(raw, attrs) => scan_tag(rootfile_attr(raw, attrs), rootfile_scan(evs, i + 1)),
            EventV::Empty(raw, attrs) => scan_tag(rootfile_attr(raw, attrs), rootfile_scan(evs, i + 1)),
            EventV::Eof => RootfileScan::Absent,
            EventV::Error(m) => RootfileScan::Malformed(m),
            _ => rootfile_scan(evs, i + 1),
        }
    }
}

fn rootfile_exec(raw: &Vec<u8>, attrs: &Vec<XmlAttr>) -> (r: Option<Result<String, String>>)
    ensures
        match rootfile_attr(raw@, attrs_view(attrs@)) {
            None => r is None,
            Some(Ok(v)) => r matches Some(Ok(x)) && x@ == v,
            Some(Err(m)) => r matches Some(Err(x)) && x@ == m,
        },
{
    let local = local_name_bytes(raw.as_slice());
    if name_is(local.as_slice(), "rootfile") {
        first_attr_exec(attrs, ascii_bytes("full-path").as_slice())
    } else {
        None
    }
}

/// The archive path of the package document named by the container
/// document `META-INF/container.xml`.
#[verifier::spinoff_prover]
#[verifier::rlimit(30)]
pub fn find_opf_path(container_xml: &str) -> (r: Result<String, AppError>)
    ensures
        match rootfile_scan(xml_events(vstd::utf8::encode_utf8(container_xml@), true), 0) {
            RootfileScan::Path(p) => r matches Ok(s) && s@ == p,
            RootfileScan::Malformed(m) => r matches Err(e) && e@ == ErrorV::MalformedOpf(m),
            RootfileScan::Absent => r matches Err(e) && e@ == ErrorV::MissingContainer,
        },
{
    let events = read_events(container_xml.as_bytes(), true);
    let ghost evs = events_view(events@);
    let mut i: usize = 0;
    while i < events.len()
        invariant
            evs == events_view(events@),
            evs == xml_events(vstd::utf8::encode_utf8(container_xml@), true),
            i <= events@.len(),
            rootfile_scan(evs, 0) == rootfile_scan(evs, i as int),
        decreases events@.len() - i,
    {
        assert(evs[i as int] == events@[i as int]@);
        match &events[i] {
            XmlEvent::Start(raw, attrs) => match rootfile_exec(raw, attrs) {
                Some(Ok(p)) => {
                    return Ok(p);
                },
                Some(Err(m)) => {
                    return Err(AppError::MalformedOpf(m));
                },
                None => {},
            },
            XmlEvent::Empty(raw, attrs) => match rootfile_exec(raw, attrs) {
                Some(Ok(p)) => {
                    return Ok(p);
                },
                Some(Err(m)) => {
                    return Err(AppError::MalformedOpf(m));
                },
                None => {},
            },
            XmlEvent::Eof => {
                return Err(AppError::MissingContainer);
            },
            XmlEvent::Error(m) => {
                return Err(AppError::MalformedOpf(clone_chars_string(m)));
            },
            _ => {},
        }
        i = i + 1;
    }
    Err(AppError::MissingContainer)
}

// ---------------------------------------------------------------------------
// The archive

/// The bytes after a leading UTF-8 byte order mark, if there is one.
pub open spec fn bom_stripped(b: Seq<u8>) -> Seq<u8> {
    if has_prefix(b, seq![0xEFu8, 0xBBu8, 0xBFu8]) {
        b.subrange(3, b.len() as int)
    } else {
        b
    }
}

proof fn lemma_trim_end_ws_tail(x: Seq<char>, w: Seq<char>)
    requires
        forall|i: int| 0 <= i < w.len() ==> is_ws(#[trigger] w[i]),
    ensures
        trim_end(x + w) == trim_end(x),
    decreases w.len(),
{
    if w.len() > 0 {
        assert((x + w).drop_last() =~= x + w.drop_last());
        assert((x + w).last() == w.last());
        lemma_trim_end_ws_tail(x, w.drop_last());
    } else {
        assert(x + w =~= x);
    }
}

/// The lenient check accepts `application/epub+zip` with a leading UTF-8
/// byte-order mark or not, followed by any run of spaces, tabs, carriage
/// returns and line feeds.
pub proof fn cosmetic_mimetype_accepted(trail: Seq<char>, bom: bool)
    requires
        forall|i: int|
            0 <= i < trail.len() ==> #[trigger] trail[i] == ' ' || trail[i] == '\t' || trail[i]
                == '\n' || trail[i] == '\r',
    ensures
        mimetype_problem(
            (if bom {
                seq![0xEFu8, 0xBBu8, 0xBFu8]
            } else {
                Seq::<u8>::empty()
            }) + vstd::utf8::encode_utf8("application/epub+zip"@ + trail),
        ) is None,
{
    let word = "application/epub+zip"@;
    reveal_strlit("application/epub+zip");
    let t = word + trail;
    let e = vstd::utf8::encode_utf8(t);
    assert(vstd::utf8::is_ascii_chars(t));
    vstd::utf8::is_ascii_chars_encode_utf8(t);
    vstd::utf8::encode_utf8_valid_utf8(t);
    vstd::utf8::encode_utf8_decode_utf8(t);
    let bom_bytes = seq![0xEFu8, 0xBBu8, 0xBFu8];
    let content = (if bom {
        bom_bytes
    } else {
        Seq::<u8>::empty()
    }) + e;
    assert(e[0] == t[0] as u8);
    if bom {
        assert(has_prefix(content, bom_bytes)) by {
            assert(content.subrange(0, 3) =~= bom_bytes);
        }
        assert(bom_stripped(content) =~= e);
    } else {
        assert(content =~= e);
        assert(!has_prefix(content, bom_bytes)) by {
            if has_prefix(content, bom_bytes) {
                assert(content.subrange(0, 3)[0] == content[0]);
            }
        }
    }
    assert(bom_stripped(content) == e);
    assert forall|i: int| 0 <= i < trail.len() implies is_ws(#[trigger] trail[i]) by {}
    lemma_trim_end_ws_tail(word, trail);
    assert(trim_end(word) == word) by {
        assert(!is_ws(word.last()));
    }
    assert(trim_start(word) == word) by {
        assert(!is_ws(word[0]));
    }
}

/// What is wrong with the contents of the `mimetype` entry, if anything. It
/// is accepted when, after a leading byte order mark is dropped and
/// surrounding whitespace trimmed, it reads `application/epub+zip`.
pub open spec fn mimetype_problem(content: Seq<u8>) -> Option<ErrorV> {
    let s = bom_stripped(content);
    if !vstd::utf8::valid_utf8(s) {
        Some(ErrorV::InvalidMimetype("mimetype is not valid UTF-8"@))
    } else {
        let t = trim(vstd::utf8::decode_utf8(s));
        if t == "application/epub+zip"@ {
            None
        } else {
            Some(
                ErrorV::InvalidMimetype(
                    "expected \"application/epub+zip\", got "@ + crate::text::debug_text(t),
                ),
            )
        }
    }
}

fn bytes_from(b: &[u8], a: usize) -> (r: Vec<u8>)
    requires
        a <= b@.len(),
    ensures
        r@ == b@.subrange(a as int, b@.len() as int),
{
    let mut out: Vec<u8> = Vec::new();
    let mut i = a;
    while i < b.len()
        invariant
            a <= i <= b@.len(),
            out@ == b@.subrange(a as int, i as int),
        decreases b@.len() - i,
    {
        out.push(b[i]);
        i = i + 1;
    }
    out
}

/// Checks the contents of the `mimetype` entry, as `mimetype_problem` says.
#[verifier::spinoff_prover]
#[verifier::rlimit(30)]
pub fn check_mimetype(content: &[u8]) -> (r: Result<(), AppError>)
    ensures
        match mimetype_problem(content@) {
            None => r is Ok,
            Some(e) => r matches Err(x) && x@ == e,
        },
{
    let bom: Vec<u8> = vec![0xEFu8, 0xBBu8, 0xBFu8];
    assert(bom@ =~= seq![0xEFu8, 0xBBu8, 0xBFu8]);
    let stripped = if has_prefix_exec(content, bom.as_slice()) {
        bytes_from(content, 3)
    } else {
        bytes_from(content, 0)
    };
    assert(stripped@ =~= bom_stripped(content@));
    match utf8_str(stripped.as_slice()) {
        None => Err(AppError::InvalidMimetype("mimetype is not valid UTF-8".to_owned())),
        Some(s) => {
            let t = trim_exec(chars_of(s).as_slice());
            let expected = chars_of("application/epub+zip");
            if crate::text::eq_chars(t.as_slice(), expected.as_slice()) {
                Ok(())
            } else {
                let mut msg = chars_of("expected \"application/epub+zip\", got ");
                let shown = crate::text::debug_quoted(string_of(t.as_slice()).as_str());
                push_str(&mut msg, shown.as_str());
                Err(AppError::InvalidMimetype(string_of(msg.as_slice())))
            }
        },
    }
}

/// Validates the `mimetype` entry of an archive.
pub fn validate_mimetype(epub_bytes: &[u8]) -> (r: Result<(), AppError>)
    ensures
        match zip_entry(epub_bytes@, "mimetype"@) {
            ZipReadV::NotZip(m) => r matches Err(e) && e@ == ErrorV::InvalidZip(m),
            ZipReadV::Missing(_) => r matches Err(e) && e@ == ErrorV::InvalidMimetype(
                "missing mimetype entry"@,
            ),
            ZipReadV::Unreadable(m) => r matches Err(e) && e@ == ErrorV::Io(m),
            ZipReadV::Found(b) => match mimetype_problem(b) {
                None => r is Ok,
                Some(p) => r matches Err(e) && e@ == p,
            },
        },
{
    match zip_read(epub_bytes, "mimetype") {
        ZipRead::NotZip(m) => Err(AppError::InvalidZip(m)),
        ZipRead::Missing(_) => Err(AppError::InvalidMimetype("missing mimetype entry".to_owned())),
        ZipRead::Unreadable(m) => Err(AppError::Io(m)),
        ZipRead::Found(b) => check_mimetype(b.as_slice()),
    }
}

/// Where the package document is and what it holds, read through the
/// container document.
pub open spec fn located_opf(epub: Seq<u8>) -> Result<(Seq<u8>, Seq<char>), ErrorV> {
    match zip_entry(epub, "META-INF/container.xml"@) {
        ZipReadV::NotZip(m) => Err(ErrorV::InvalidZip(m)),
        ZipReadV::Missing(_) => Err(ErrorV::MissingContainer),
        ZipReadV::Unreadable(m) => Err(ErrorV::Io(m)),
        ZipReadV::Found(c) => if !vstd::utf8::valid_utf8(c) {
            Err(ErrorV::Io("stream did not contain valid UTF-8"@))
        } else {
            match rootfile_scan(xml_events(c, true), 0) {
                RootfileScan::Absent => Err(ErrorV::MissingContainer),
                RootfileScan::Malformed(m) => Err(ErrorV::MalformedOpf(m)),
                RootfileScan::Path(p) => match zip_entry(epub, p) {
                    ZipReadV::NotZip(m) => Err(ErrorV::InvalidZip(m)),
                    ZipReadV::Missing(_) => Err(ErrorV::MissingOpf(p)),
                    ZipReadV::Unreadable(m) => Err(ErrorV::Io(m)),
                    ZipReadV::Found(o) => Ok((o, p)),
                },
            }
        },
    }
}

/// What reading an EPUB's package document gives: its bytes and archive
/// path, after the `mimetype` entry is validated.
pub open spec fn extracted(epub: Seq<u8>) -> Result<(Seq<u8>, Seq<char>), ErrorV> {
    match zip_entry(epub, "mimetype"@) {
        ZipReadV::NotZip(m) => Err(ErrorV::InvalidZip(m)),
        ZipReadV::Missing(_) => Err(ErrorV::InvalidMimetype("missing mimetype entry"@)),
        ZipReadV::Unreadable(m) => Err(ErrorV::Io(m)),
        ZipReadV::Found(b) => match mimetype_problem(b) {
            Some(e) => Err(e),
            None => located_opf(epub),
        },
    }
}

/// Reads the package document out of an EPUB: its bytes and its archive
/// path.
#[verifier::spinoff_prover]
#[verifier::rlimit(30)]
pub fn extract_from_zip(epub_bytes: &[u8]) -> (r: Result<(Vec<u8>, String), AppError>)
    ensures
        match extracted(epub_bytes@) {
            Ok((o, p)) => r matches Ok((b, s)) && b@ == o && s@ == p,
            Err(x) => r matches Err(e) && e@ == x,
        },
{
    match validate_mimetype(epub_bytes) {
        Ok(()) => {},
        Err(e) => {
            return Err(e);
        },
    }
    let container = match zip_read(epub_bytes, "META-INF/container.xml") {
        ZipRead::NotZip(m) => {
            return Err(AppError::InvalidZip(m));
        },
        ZipRead::Missing(_) => {
            return Err(AppError::MissingContainer);
        },
        ZipRead::Unreadable(m) => {
            return Err(AppError::Io(m));
        },
        ZipRead::Found(c) => c,
    };
    let container_xml = match utf8_str(container.as_slice()) {
        Some(s) => s,
        None => {
            return Err(AppError::Io("stream did not contain valid UTF-8".to_owned()));
        },
    };
    proof {
        vstd::utf8::decode_utf8_encode_utf8(container@);
    }
    let opf_path = find_opf_path(container_xml)?;
    match zip_read(epub_bytes, opf_path.as_str()) {
        ZipRead::NotZip(m) => Err(AppError::InvalidZip(m)),
        ZipRead::Missing(_) => Err(AppError::MissingOpf(opf_path)),
        ZipRead::Unreadable(m) => Err(AppError::Io(m)),
        ZipRead::Found(o) => Ok((o, opf_path)),
    }
}

// ---------------------------------------------------------------------------
// What reading keeps

/// The keyed lists of a reading state hold each key once.
pub open spec fn state_keys_unique(st: OpfStateV) -> bool {
    keys_unique(st.extras.manifest) && keys_unique(st.extras.other_dc)
}

proof fn lemma_dc_assigned_unique(x: ExtrasV, name: Seq<char>, value: Seq<char>)
    requires
        keys_unique(x.other_dc),
    ensures
        keys_unique(dc_assigned(x, name, value).other_dc),
        dc_assigned(x, name, value).manifest == x.manifest,
{
    lemma_keyed_push_unique(x.other_dc, name, trim(value));
}

proof fn lemma_opf_step_unique(st: OpfStateV, ns: ResolvedV, ev: EventV)
    requires
        state_keys_unique(st),
    ensures
        match opf_step(st, ns, ev) {
            OpfStep::Next(s2) => state_keys_unique(s2),
            OpfStep::Done(s2) => state_keys_unique(s2),
            OpfStep::Fail(_) => true,
        },
{
    match ev {
        EventV::Empty(raw, attrs) => {
            match manifest_item(attrs) {
                Some((id, mi)) => {
                    lemma_keyed_insert_unique(st.extras.manifest, id, mi);
                },
                None => {},
            }
        },
        EventV::End(raw) => {
            let local = local_part(raw);
            if vstd::utf8::valid_utf8(local) {
                lemma_dc_assigned_unique(
                    st.extras,
                    vstd::utf8::decode_utf8(local),
                    st.current_text,
                );
            }
        },
        _ => {},
    }
}

proof fn lemma_opf_run_unique(st: OpfStateV, evs: Seq<(ResolvedV, EventV)>, i: int)
    requires
        state_keys_unique(st),
    ensures
        opf_run(st, evs, i) matches Ok(s2) ==> state_keys_unique(s2),
    decreases evs.len() - i,
{
    if 0 <= i < evs.len() {
        lemma_opf_step_unique(st, evs[i].0, evs[i].1);
        match opf_step(st, evs[i].0, evs[i].1) {
            OpfStep::Next(s2) => lemma_opf_run_unique(s2, evs, i + 1),
            _ => {},
        }
    }
}

/// A package document read successfully lists each manifest id once and
/// each other Dublin Core name once.
pub proof fn opf_keys_unique(opf_bytes: Seq<u8>, opf_path: Seq<char>)
    ensures
        opf_extras(opf_bytes, opf_path) matches Ok(x) ==> keys_unique(x.manifest) && keys_unique(
            x.other_dc,
        ),
{
    let init = OpfStateV {
        extras: empty_extras(dir_part(opf_path)),
        section: Section::Outside,
        current_dc: None,
        current_text: Seq::empty(),
    };
    lemma_opf_run_unique(init, xml_ns_events(opf_bytes, true), 0);
}

} // verus!
