//! XML events, read with quick-xml, as plain values; names and entities.

use crate::text::{chars_of, eq_chars, push_all, push_str, slice_of, starts_with, string_of, utf8_str};
use quick_xml::events::Event;
use vstd::prelude::*;

verus! {

#[verifier::external_type_specification]
#[verifier::external_body]
#[verifier::reject_recursive_types(R)]
pub struct ExXmlReader<R>(quick_xml::Reader<R>);

/// One attribute of a tag: its raw key and its unescaped value (or the
/// unescaping error message).
pub struct XmlAttr {
    pub key: Vec<u8>,
    pub value: Result<String, String>,
}

/// One XML event. `Start` and `Empty` carry the raw element name and the
/// attributes; `End` the raw name; `Text` the decoded text (`None` when it
/// could not be decoded); `Ref` the name of a general or character reference
/// (`&name;`); `Other` stands for comments, declarations and the like.
pub enum XmlEvent {
    Start(Vec<u8>, Vec<XmlAttr>),
    Empty(Vec<u8>, Vec<XmlAttr>),
    End(Vec<u8>),
    Text(Option<String>),
    Ref(Vec<u8>),
    Other,
    Eof,
    Error(String),
}

pub struct AttrV {
    pub key: Seq<u8>,
    pub value: Result<Seq<char>, Seq<char>>,
}

pub enum EventV {
    Start(Seq<u8>, Seq<AttrV>),
    Empty(Seq<u8>, Seq<AttrV>),
    End(Seq<u8>),
    Text(Option<Seq<char>>),
    Ref(Seq<u8>),
    Other,
    Eof,
    Error(Seq<char>),
}

impl View for XmlAttr {
    type V = AttrV;

    open spec fn view(&self) -> AttrV {
        AttrV {
            key: self.key@,
            value: match self.value {
                Ok(v) => Ok(v@),
                Err(e) => Err(e@),
            },
        }
    }
}

pub open spec fn attrs_view(a: Seq<XmlAttr>) -> Seq<AttrV> {
    Seq::new(a.len(), |i: int| a[i]@)
}

impl View for XmlEvent {
    type V = EventV;

    open spec fn view(&self) -> EventV {
        match self {
            XmlEvent::Start(n, a) => EventV::Start(n@, attrs_view(a@)),
            XmlEvent::Empty(n, a) => EventV::Empty(n@, attrs_view(a@)),
            XmlEvent::End(n) => EventV::End(n@),
            XmlEvent::Text(t) => EventV::Text(
                match t {
                    Some(s) => Some(s@),
                    None => None,
                },
            ),
            XmlEvent::Ref(r) => EventV::Ref(r@),
            XmlEvent::Other => EventV::Other,
            XmlEvent::Eof => EventV::Eof,
            XmlEvent::Error(e) => EventV::Error(e@),
        }
    }
}

/// The event stream stops at its end or at an error: it is not empty, its
/// last event is `Eof` or `Error`, and no earlier event is.
pub open spec fn ends_once(s: Seq<EventV>) -> bool {
    &&& s.len() > 0
    &&& (s.last() is Eof || s.last() is Error)
    &&& forall|i: int| 0 <= i < s.len() - 1 ==> !(s[i] is Eof) && !(s[i] is Error)
}

/// The events quick-xml reads from `input` (text trimmed when `trim`), up to
/// and including the end of input or the first error.
pub uninterp spec fn xml_events(input: Seq<u8>, trim: bool) -> Seq<EventV>;

/// The events a reader has still to hand out.
pub uninterp spec fn pending_events(r: quick_xml::Reader<&[u8]>) -> Seq<EventV>;

/// `quick_xml::Reader::from_reader` with `trim_text` set: a reader whose
/// events are those of `input`, ending once with the end of input or an
/// error.
#[verifier::external_body]
pub(crate) fn xml_open(input: &[u8], trim: bool) -> (r: quick_xml::Reader<&[u8]>)
    ensures
        pending_events(r) == xml_events(input@, trim),
        ends_once(pending_events(r)),
{
    let mut r = quick_xml::Reader::from_reader(input);
    r.config_mut().trim_text(trim);
    r
}

#[verifier::external_type_specification]
#[verifier::external_body]
pub struct ExBytesStart<'a>(quick_xml::events::BytesStart<'a>);

/// The raw name of a start (or empty-element) tag.
pub uninterp spec fn tag_name_of(tag: quick_xml::events::BytesStart<'static>) -> Seq<u8>;

/// The attributes of a start (or empty-element) tag, read without duplicate
/// checks, malformed ones skipped, each with its unescaped value or the
/// unescaping error's message.
pub uninterp spec fn tag_attrs_of(tag: quick_xml::events::BytesStart<'static>) -> Seq<AttrV>;

/// One event as read: a tag's name and attributes are still to be taken
/// out of it.
pub enum RawEvent {
    Start(quick_xml::events::BytesStart<'static>),
    Empty(quick_xml::events::BytesStart<'static>),
    End(Vec<u8>),
    Text(Option<String>),
    Ref(Vec<u8>),
    Other,
    Eof,
    Error(String),
}

impl View for RawEvent {
    type V = EventV;

    open spec fn view(&self) -> EventV {
        match self {
            RawEvent::Start(t) => EventV::Start(tag_name_of(*t), tag_attrs_of(*t)),
            RawEvent::Empty(t) => EventV::Empty(tag_name_of(*t), tag_attrs_of(*t)),
            RawEvent::End(n) => EventV::End(n@),
            RawEvent::Text(t) => EventV::Text(
                match t {
                    Some(s) => Some(s@),
                    None => None,
                },
            ),
            RawEvent::Ref(r) => EventV::Ref(r@),
            RawEvent::Other => EventV::Other,
            RawEvent::Eof => EventV::Eof,
            RawEvent::Error(e) => EventV::Error(e@),
        }
    }
}

/// `quick_xml::Reader::read_event_into`: hands out the next event (tags
/// owned, end-tag names and references as raw bytes, text decoded).
#[verifier::external_body]
pub(crate) fn xml_next(reader: &mut quick_xml::Reader<&[u8]>) -> (ev: RawEvent)
    requires
        pending_events(*old(reader)).len() > 0,
    ensures
        ev@ == pending_events(*old(reader))[0],
        pending_events(*final(reader)) == pending_events(*old(reader)).drop_first(),
{
    let mut buf = Vec::new();
    match reader.read_event_into(&mut buf) {
        Ok(Event::Start(e)) => RawEvent::Start(e.into_owned()),
        Ok(Event::Empty(e)) => RawEvent::Empty(e.into_owned()),
        Ok(Event::End(e)) => RawEvent::End(e.name().into_inner().to_vec()),
        Ok(Event::Text(t)) => RawEvent::Text(t.decode().ok().map(|s| s.into_owned())),
        Ok(Event::GeneralRef(r)) => RawEvent::Ref(r.to_vec()),
        Ok(Event::Eof) => RawEvent::Eof,
        Ok(_) => RawEvent::Other,
        Err(e) => RawEvent::Error(e.to_string()),
    }
}

/// `BytesStart::name`, as bytes.
#[verifier::external_body]
fn tag_name(tag: &quick_xml::events::BytesStart<'static>) -> (r: Vec<u8>)
    ensures
        r@ == tag_name_of(*tag),
{
    tag.name().into_inner().to_vec()
}

/// `BytesStart::attributes` with checks off, malformed attributes skipped
/// (`flatten`), each key taken as bytes and each value unescaped
/// (`Attribute::unescape_value`), or the error's message.
#[verifier::external_body]
fn tag_attrs(tag: &quick_xml::events::BytesStart<'static>) -> (r: Vec<XmlAttr>)
    ensures
        attrs_view(r@) == tag_attrs_of(*tag),
{
    let attr = |a: quick_xml::events::attributes::Attribute| XmlAttr {
        key: a.key.as_ref().to_vec(),
        value: a.unescape_value().map(|v| v.into_owned()).map_err(|x| x.to_string()),
    };
    tag.attributes().with_checks(false).flatten().map(attr).collect()
}

/// A read event with its tag's name and attributes taken out.
fn cooked(ev: RawEvent) -> (r: XmlEvent)
    ensures
        r@ == ev@,
{
    match ev {
        RawEvent::Start(t) => XmlEvent::Start(tag_name(&t), tag_attrs(&t)),
        RawEvent::Empty(t) => XmlEvent::Empty(tag_name(&t), tag_attrs(&t)),
        RawEvent::End(n) => XmlEvent::End(n),
        RawEvent::Text(t) => XmlEvent::Text(t),
        RawEvent::Ref(r) => XmlEvent::Ref(r),
        RawEvent::Other => XmlEvent::Other,
        RawEvent::Eof => XmlEvent::Eof,
        RawEvent::Error(e) => XmlEvent::Error(e),
    }
}

/// All events of `input`, up to and including the end or the first error.
pub fn read_events(input: &[u8], trim: bool) -> (r: Vec<XmlEvent>)
    ensures
        events_view(r@) == xml_events(input@, trim),
{
    let mut reader = xml_open(input, trim);
    let ghost all = pending_events(reader);
    let mut out: Vec<XmlEvent> = Vec::new();
    loop
        invariant
            all == xml_events(input@, trim),
            ends_once(pending_events(reader)),
            all == events_view(out@) + pending_events(reader),
        decreases pending_events(reader).len(),
    {
        let ghost before = pending_events(reader);
        let ev = cooked(xml_next(&mut reader));
        let done = match ev {
            XmlEvent::Eof => true,
            XmlEvent::Error(_) => true,
            _ => false,
        };
        let ghost prev = events_view(out@);
        proof {
            if !done {
                assert(before.len() > 1);
                let after = pending_events(reader);
                assert forall|i: int| 0 <= i < after.len() - 1 implies !(after[i] is Eof) && !(
                after[i] is Error) by {
                    assert(after[i] == before[i + 1]);
                }
            } else {
                assert(before.len() == 1);
            }
        }
        out.push(ev);
        assert(events_view(out@) =~= prev.push(before[0]));
        assert(all =~= events_view(out@) + pending_events(reader));
        if done {
            assert(pending_events(reader).len() == 0);
            assert(all =~= events_view(out@));
            return out;
        }
    }
}

pub open spec fn events_view(v: Seq<XmlEvent>) -> Seq<EventV> {
    Seq::new(v.len(), |i: int| v[i]@)
}

// ---------------------------------------------------------------------------
// Well-formedness

/// Reading on from event `i` with the elements `open` still open (innermost
/// last): the stream ends without error, each end tag closes the innermost
/// open element, and none is left open at the end.
pub open spec fn nesting_ok(evs: Seq<EventV>, i: int, open: Seq<Seq<u8>>) -> bool
    decreases evs.len() - i,
{
    if i < 0 || i >= evs.len() {
        false
    } else {
        match evs[i] {
            EventV::Start(n, _) => nesting_ok(evs, i + 1, open.push(n)),
            EventV::End(n) => open.len() > 0 && open.last() == n && nesting_ok(
                evs,
                i + 1,
                open.drop_last(),
            ),
            EventV::Eof => open.len() == 0,
            EventV::Error(_) => false,
            _ => nesting_ok(evs, i + 1, open),
        }
    }
}

/// The bytes are well-formed XML as far as the reading goes: quick-xml
/// reads them to the end without error, and the tags nest.
pub open spec fn well_formed_xml(data: Seq<u8>) -> bool {
    nesting_ok(xml_events(data, false), 0, Seq::empty())
}

pub open spec fn names_view(v: Seq<Vec<u8>>) -> Seq<Seq<u8>> {
    Seq::new(v.len(), |i: int| v[i]@)
}

/// Checks that `data` is well-formed XML (`well_formed_xml`).
pub fn is_well_formed_xml(data: &[u8]) -> (r: bool)
    ensures
        r == well_formed_xml(data@),
{
    let events = read_events(data, false);
    let ghost evs = events_view(events@);
    let mut open: Vec<Vec<u8>> = Vec::new();
    let mut i: usize = 0;
    assert(names_view(open@) =~= Seq::<Seq<u8>>::empty());
    while i < events.len()
        invariant
            evs == events_view(events@),
            evs == xml_events(data@, false),
            i <= events@.len(),
            nesting_ok(evs, 0, Seq::empty()) == nesting_ok(evs, i as int, names_view(open@)),
        decreases events@.len() - i,
    {
        assert(evs[i as int] == events@[i as int]@);
        let ghost prev = names_view(open@);
        match &events[i] {
            XmlEvent::Start(n, _) => {
                open.push(slice_of_bytes(n.as_slice()));
                assert(names_view(open@) =~= prev.push(evs[i as int]->Start_0));
            },
            XmlEvent::End(n) => {
                if open.len() == 0 {
                    return false;
                }
                let last = open.len() - 1;
                if !bytes_eq(open[last].as_slice(), n.as_slice()) {
                    return false;
                }
                open.pop();
                assert(names_view(open@) =~= prev.drop_last());
            },
            XmlEvent::Eof => {
                return open.len() == 0;
            },
            XmlEvent::Error(_) => {
                return false;
            },
            _ => {},
        }
        i = i + 1;
    }
    false
}

/// A copy of a byte slice.
fn slice_of_bytes(b: &[u8]) -> (r: Vec<u8>)
    ensures
        r@ == b@,
{
    let mut out: Vec<u8> = Vec::new();
    let mut k: usize = 0;
    while k < b.len()
        invariant
            k <= b@.len(),
            out@ == b@.take(k as int),
        decreases b@.len() - k,
    {
        out.push(b[k]);
        assert(out@ =~= b@.take(k + 1));
        k = k + 1;
    }
    assert(b@.take(b@.len() as int) =~= b@);
    out
}

// ---------------------------------------------------------------------------
// Events with their element's namespace

#[verifier::external_type_specification]
#[verifier::external_body]
#[verifier::reject_recursive_types(R)]
pub struct ExNsReader<R>(quick_xml::reader::NsReader<R>);

/// The namespace an element name resolves to (`quick_xml::name::ResolveResult`):
/// none, the bound namespace URI, or an undeclared prefix.
pub enum Resolved {
    Unbound,
    Bound(Vec<u8>),
    Unknown(Vec<u8>),
}

pub enum ResolvedV {
    Unbound,
    Bound(Seq<u8>),
    Unknown(Seq<u8>),
}

impl View for Resolved {
    type V = ResolvedV;

    open spec fn view(&self) -> ResolvedV {
        match self {
            Resolved::Unbound => ResolvedV::Unbound,
            Resolved::Bound(n) => ResolvedV::Bound(n@),
            Resolved::Unknown(p) => ResolvedV::Unknown(p@),
        }
    }
}

/// An event with the namespace of its element (`Unbound` for events that
/// are not tags).
pub struct NsEvent {
    pub ns: Resolved,
    pub event: XmlEvent,
}

pub open spec fn ns_events_view(v: Seq<NsEvent>) -> Seq<(ResolvedV, EventV)> {
    Seq::new(v.len(), |i: int| (v[i].ns@, v[i].event@))
}

/// The events of a sequence with their namespaces left out.
pub open spec fn plain_events(s: Seq<(ResolvedV, EventV)>) -> Seq<EventV> {
    Seq::new(s.len(), |i: int| s[i].1)
}

/// The events quick-xml's namespace-aware reader reads from `input` (text
/// trimmed when `trim`), each with its element's namespace, up to and
/// including the end of input or the first error.
pub uninterp spec fn xml_ns_events(input: Seq<u8>, trim: bool) -> Seq<(ResolvedV, EventV)>;

/// The events a namespace-aware reader has still to hand out.
pub uninterp spec fn ns_pending(r: quick_xml::reader::NsReader<&[u8]>) -> Seq<(ResolvedV, EventV)>;

/// `quick_xml::reader::NsReader::from_reader` with `trim_text` set: a reader
/// whose events are those of `input`, ending once with the end of input or
/// an error.
#[verifier::external_body]
pub(crate) fn ns_open(input: &[u8], trim: bool) -> (r: quick_xml::reader::NsReader<&[u8]>)
    ensures
        ns_pending(r) == xml_ns_events(input@, trim),
        ends_once(plain_events(ns_pending(r))),
{
    let mut r = quick_xml::reader::NsReader::from_reader(input);
    r.config_mut().trim_text(trim);
    r
}

#[verifier::external_type_specification]
#[verifier::external_body]
pub struct ExEvent<'a>(quick_xml::events::Event<'a>);

/// What a quick-xml event holds, as a plain event (tags by their name and
/// attributes, as `tag_name_of` and `tag_attrs_of` give them).
pub uninterp spec fn event_of(ev: quick_xml::events::Event<'static>) -> EventV;

/// `NsReader::read_resolved_event_into`: the next event, owned, with the
/// namespace of its element; or the error's message, which ends the events.
#[verifier::external_body]
pub(crate) fn ns_read(reader: &mut quick_xml::reader::NsReader<&[u8]>) -> (r: Result<
    (Resolved, quick_xml::events::Event<'static>),
    String,
>)
    requires
        ns_pending(*old(reader)).len() > 0,
    ensures
        match r {
            Ok((ns, ev)) => (ns@, event_of(ev)) == ns_pending(*old(reader))[0],
            Err(m) => (ResolvedV::Unbound, EventV::Error(m@)) == ns_pending(*old(reader))[0],
        },
        ns_pending(*final(reader)) == ns_pending(*old(reader)).drop_first(),
{
    let mut buf = Vec::new();
    match reader.read_resolved_event_into(&mut buf) {
        Ok((res, ev)) => Ok((match res {
            quick_xml::name::ResolveResult::Bound(n) => Resolved::Bound(n.into_inner().to_vec()),
            quick_xml::name::ResolveResult::Unknown(p) => Resolved::Unknown(p),
            quick_xml::name::ResolveResult::Unbound => Resolved::Unbound,
        }, ev.into_owned())),
        Err(e) => Err(e.to_string()),
    }
}

/// An owned quick-xml event taken apart: tags kept whole, end-tag names and
/// references as raw bytes, text decoded (`None` when it cannot be), and
/// every other kind of event as `Other`.
#[verifier::external_body]
pub(crate) fn raw_event(ev: quick_xml::events::Event<'static>) -> (r: RawEvent)
    ensures
        r@ == event_of(ev),
{
    match ev {
        Event::Start(e) => RawEvent::Start(e),
        Event::Empty(e) => RawEvent::Empty(e),
        Event::End(e) => RawEvent::End(e.name().into_inner().to_vec()),
        Event::Text(t) => RawEvent::Text(t.decode().ok().map(|s| s.into_owned())),
        Event::GeneralRef(r) => RawEvent::Ref(r.to_vec()),
        Event::Eof => RawEvent::Eof,
        _ => RawEvent::Other,
    }
}

/// The next event with its element's namespace.
fn ns_next(reader: &mut quick_xml::reader::NsReader<&[u8]>) -> (r: (Resolved, RawEvent))
    requires
        ns_pending(*old(reader)).len() > 0,
    ensures
        (r.0@, r.1@) == ns_pending(*old(reader))[0],
        ns_pending(*final(reader)) == ns_pending(*old(reader)).drop_first(),
{
    match ns_read(reader) {
        Ok((ns, ev)) => (ns, raw_event(ev)),
        Err(m) => (Resolved::Unbound, RawEvent::Error(m)),
    }
}

/// All events of `input` with their namespaces, up to and including the end
/// or the first error.
pub fn read_ns_events(input: &[u8], trim: bool) -> (r: Vec<NsEvent>)
    ensures
        ns_events_view(r@) == xml_ns_events(input@, trim),
{
    let mut reader = ns_open(input, trim);
    let ghost all = ns_pending(reader);
    let mut out: Vec<NsEvent> = Vec::new();
    loop
        invariant
            all == xml_ns_events(input@, trim),
            ends_once(plain_events(ns_pending(reader))),
            all == ns_events_view(out@) + ns_pending(reader),
        decreases ns_pending(reader).len(),
    {
        let ghost before = ns_pending(reader);
        assert(plain_events(before)[0] == before[0].1);
        let (ns, raw) = ns_next(&mut reader);
        let ev = cooked(raw);
        let done = match ev {
            XmlEvent::Eof => true,
            XmlEvent::Error(_) => true,
            _ => false,
        };
        let ghost prev = ns_events_view(out@);
        proof {
            if !done {
                assert(plain_events(before).len() > 1);
                let after = ns_pending(reader);
                assert forall|i: int| 0 <= i < plain_events(after).len() - 1 implies !(
                plain_events(after)[i] is Eof) && !(plain_events(after)[i] is Error) by {
                    assert(plain_events(after)[i] == plain_events(before)[i + 1]);
                }
            } else {
                assert(plain_events(before).len() == 1);
            }
        }
        out.push(NsEvent { ns, event: ev });
        assert(ns_events_view(out@) =~= prev.push(before[0]));
        assert(all =~= ns_events_view(out@) + ns_pending(reader));
        if done {
            assert(ns_pending(reader).len() == 0);
            assert(all =~= ns_events_view(out@));
            return out;
        }
    }
}

// ---------------------------------------------------------------------------
// Names

/// Index of the first `:` in a raw name.
pub open spec fn first_colon(b: Seq<u8>) -> Option<int>
    decreases b.len(),
{
    if b.len() == 0 {
        None
    } else {
        match first_colon(b.drop_last()) {
            Some(i) => Some(i),
            None => if b.last() == 58u8 {
                Some(b.len() - 1)
            } else {
                None
            },
        }
    }
}

/// The local part of a raw XML name: everything after the first `:`.
pub open spec fn local_part(b: Seq<u8>) -> Seq<u8> {
    match first_colon(b) {
        Some(i) => b.subrange(i + 1, b.len() as int),
        None => b,
    }
}

proof fn lemma_first_colon(b: Seq<u8>)
    ensures
        first_colon(b) matches Some(i) ==> 0 <= i < b.len() && b[i] == 58u8 && forall|j: int|
            0 <= j < i ==> b[j] != 58u8,
        first_colon(b) is None ==> forall|j: int| 0 <= j < b.len() ==> b[j] != 58u8,
    decreases b.len(),
{
    if b.len() > 0 {
        let t = b.drop_last();
        lemma_first_colon(t);
        assert forall|j: int| 0 <= j < t.len() implies t[j] == b[j] by {}
    }
}

/// The local part of a raw XML name: everything after the first `:`.
#[verifier::spinoff_prover]
#[verifier::rlimit(30)]
pub fn local_name_bytes(bytes: &[u8]) -> (r: Vec<u8>)
    ensures
        r@ == local_part(bytes@),
{
    proof {
        lemma_first_colon(bytes@);
    }
    let mut i: usize = 0;
    while i < bytes.len()
        invariant
            i <= bytes@.len(),
            forall|j: int| 0 <= j < i ==> bytes@[j] != 58u8,
        decreases bytes@.len() - i,
    {
        if bytes[i] == 58u8 {
            proof {
                lemma_first_colon(bytes@);
                if first_colon(bytes@) is None {
                } else {
                    let k = first_colon(bytes@)->0;
                    assert(k == i);
                }
            }
            let mut out: Vec<u8> = Vec::new();
            let mut j = i + 1;
            while j < bytes.len()
                invariant
                    i + 1 <= j <= bytes@.len(),
                    out@ == bytes@.subrange(i + 1, j as int),
                decreases bytes@.len() - j,
            {
                out.push(bytes[j]);
                j = j + 1;
            }
            return out;
        }
        i = i + 1;
    }
    let mut out: Vec<u8> = Vec::new();
    let mut j: usize = 0;
    while j < bytes.len()
        invariant
            j <= bytes@.len(),
            out@ == bytes@.subrange(0, j as int),
        decreases bytes@.len() - j,
    {
        out.push(bytes[j]);
        j = j + 1;
    }
    assert(out@ =~= bytes@);
    out
}

/// Whether two byte strings are equal.
pub fn bytes_eq(a: &[u8], b: &[u8]) -> (r: bool)
    ensures
        r == (a@ == b@),
{
    if a.len() != b.len() {
        return false;
    }
    let mut i: usize = 0;
    while i < a.len()
        invariant
            a@.len() == b@.len(),
            i <= a@.len(),
            forall|j: int| 0 <= j < i ==> a@[j] == b@[j],
        decreases a@.len() - i,
    {
        if a[i] != b[i] {
            return false;
        }
        i = i + 1;
    }
    assert(a@ =~= b@);
    true
}

/// The bytes of an ASCII string literal.
pub fn ascii_bytes(s: &str) -> (r: Vec<u8>)
    ensures
        r@ == vstd::utf8::encode_utf8(s@),
{
    let b = s.as_bytes();
    let mut out: Vec<u8> = Vec::new();
    let mut i: usize = 0;
    while i < b.len()
        invariant
            i <= b@.len(),
            out@ == b@.subrange(0, i as int),
        decreases b@.len() - i,
    {
        out.push(b[i]);
        i = i + 1;
    }
    assert(out@ =~= b@);
    out
}

// ---------------------------------------------------------------------------
// Entities

/// The value of a digit in the given radix (10 or 16).
pub open spec fn digit_value(c: char, radix: nat) -> Option<nat> {
    if '0' <= c && c <= '9' {
        Some((c as nat - '0' as nat) as nat)
    } else if radix == 16 && 'a' <= c && c <= 'f' {
        Some((c as nat - 'a' as nat + 10) as nat)
    } else if radix == 16 && 'A' <= c && c <= 'F' {
        Some((c as nat - 'A' as nat + 10) as nat)
    } else {
        None
    }
}

/// The number written by the digits `s` (all of which must be digits).
pub open spec fn digits_value(s: Seq<char>, radix: nat) -> Option<nat>
    decreases s.len(),
{
    if s.len() == 0 {
        Some(0)
    } else {
        match (digits_value(s.drop_last(), radix), digit_value(s.last(), radix)) {
            (Some(v), Some(d)) => Some(v * radix + d),
            _ => None,
        }
    }
}

/// `u32::from_str_radix` (and `str::parse::<u32>` for radix 10): an optional
/// `+`, then at least one digit, with a value that fits in 32 bits.
pub open spec fn parse_u32(s: Seq<char>, radix: nat) -> Option<nat> {
    let body = if s.len() > 0 && s[0] == '+' {
        s.drop_first()
    } else {
        s
    };
    if body.len() == 0 {
        None
    } else {
        match digits_value(body, radix) {
            Some(v) => if v <= u32::MAX {
                Some(v)
            } else {
                None
            },
            None => None,
        }
    }
}

fn digit_exec(c: char, radix: u64) -> (r: Option<u64>)
    requires
        radix == 10 || radix == 16,
    ensures
        r matches Some(d) ==> digit_value(c, radix as nat) == Some(d as nat) && d < radix,
        r is None ==> digit_value(c, radix as nat) is None,
{
    if '0' <= c && c <= '9' {
        Some((c as u32 - '0' as u32) as u64)
    } else if radix == 16 && 'a' <= c && c <= 'f' {
        Some((c as u32 - 'a' as u32 + 10) as u64)
    } else if radix == 16 && 'A' <= c && c <= 'F' {
        Some((c as u32 - 'A' as u32 + 10) as u64)
    } else {
        None
    }
}

#[verifier::spinoff_prover]
#[verifier::rlimit(30)]
pub fn parse_u32_chars(s: &[char], radix: u64) -> (r: Option<u32>)
    requires
        radix == 10 || radix == 16,
    ensures
        r matches Some(v) ==> parse_u32(s@, radix as nat) == Some(v as nat),
        r is None ==> parse_u32(s@, radix as nat) is None,
{
    let start: usize = if s.len() > 0 && s[0] == '+' {
        1
    } else {
        0
    };
    let ghost body = if s@.len() > 0 && s@[0] == '+' {
        s@.drop_first()
    } else {
        s@
    };
    assert(body =~= s@.subrange(start as int, s@.len() as int));
    if start >= s.len() {
        return None;
    }
    let cap: u64 = 0x1_0000_0000;
    let mut acc: u64 = 0;
    let mut i = start;
    while i < s.len()
        invariant
            radix == 10 || radix == 16,
            start <= i <= s@.len(),
            start < s@.len(),
            body == s@.subrange(start as int, s@.len() as int),
            body == (if s@.len() > 0 && s@[0] == '+' {
                s@.drop_first()
            } else {
                s@
            }),
            cap == 0x1_0000_0000,
            digits_value(s@.subrange(start as int, i as int), radix as nat) matches Some(v) && acc
                == (if v < cap {
                v
            } else {
                cap as nat
            }),
        decreases s@.len() - i,
    {
        let ghost prefix = s@.subrange(start as int, i as int);
        let ghost v = digits_value(prefix, radix as nat)->0;
        assert(s@.subrange(start as int, i + 1).drop_last() =~= prefix);
        match digit_exec(s[i], radix) {
            None => {
                proof {
                    lemma_digits_none_extends(s@, start as int, i as int, radix as nat);
                    assert(digits_value(body, radix as nat) is None);
                }
                return None;
            },
            Some(d) => {
                if acc >= cap {
                    proof {
                        assert(v >= cap);
                        assert(v * radix + d >= cap) by (nonlinear_arith)
                            requires
                                v >= cap,
                                radix >= 10,
                        ;
                    }
                    acc = cap;
                } else {
                    assert(acc * radix + d <= 0x1_0000_0000 * 16 + 16) by (nonlinear_arith)
                        requires
                            acc < 0x1_0000_0000,
                            radix <= 16,
                            d < 16,
                    ;
                    let next = acc * radix + d;
                    acc = if next < cap {
                        next
                    } else {
                        cap
                    };
                }
            },
        }
        i = i + 1;
    }
    if acc >= cap {
        None
    } else {
        Some(acc as u32)
    }
}

proof fn lemma_digits_none_extends(s: Seq<char>, start: int, i: int, radix: nat)
    requires
        0 <= start <= i < s.len(),
        digit_value(s[i], radix) is None,
    ensures
        digits_value(s.subrange(start, s.len() as int), radix) is None,
    decreases s.len() - i,
{
    let full = s.subrange(start, s.len() as int);
    if i == s.len() - 1 {
        assert(full.last() == s[i]);
    } else {
        lemma_digits_none_extends(s.drop_last(), start, i, radix);
        assert(full.drop_last() =~= s.drop_last().subrange(start, s.len() - 1));
    }
}

/// `char::from_u32` as a one-character string.
pub open spec fn scalar_text(v: nat) -> Option<Seq<char>> {
    if v <= 0x10FFFF && !(0xD800 <= v && v <= 0xDFFF) {
        Some(seq![v as char])
    } else {
        None
    }
}

/// `char::from_u32`: the character with this scalar value, if it is one.
#[verifier::external_body]
pub(crate) fn char_from_u32(v: u32) -> (r: Option<char>)
    ensures
        r is Some <==> (v <= 0x10FFFF && !(0xD800 <= v && v <= 0xDFFF)),
        r matches Some(c) ==> c == v as char,
{
    char::from_u32(v)
}

/// The text a reference `&raw;` stands for: the five predefined entities,
/// decimal and hexadecimal character references; any other name is kept
/// literally as `&name;`. `None` for a name that is not UTF-8 or a character
/// reference that names no character.
pub open spec fn entity_text(raw: Seq<u8>) -> Option<Seq<char>> {
    if !vstd::utf8::valid_utf8(raw) {
        None
    } else {
        let s = vstd::utf8::decode_utf8(raw);
        if s == "amp"@ {
            Some("&"@)
        } else if s == "lt"@ {
            Some("<"@)
        } else if s == "gt"@ {
            Some(">"@)
        } else if s == "quot"@ {
            Some("\""@)
        } else if s == "apos"@ {
            Some("'"@)
        } else if starts_with(s, "#x"@) || starts_with(s, "#X"@) {
            match parse_u32(s.subrange(2, s.len() as int), 16) {
                Some(v) => scalar_text(v),
                None => None,
            }
        } else if starts_with(s, "#"@) {
            match parse_u32(s.subrange(1, s.len() as int), 10) {
                Some(v) => scalar_text(v),
                None => None,
            }
        } else {
            Some("&"@ + s + ";"@)
        }
    }
}

fn lit_is(s: &[char], lit: &str) -> (r: bool)
    ensures
        r == (s@ == lit@),
{
    let l = chars_of(lit);
    eq_chars(s, l.as_slice())
}

fn char_ref_text(digits: &[char], radix: u64) -> (r: Option<String>)
    requires
        radix == 10 || radix == 16,
    ensures
        r matches Some(t) ==> parse_u32(digits@, radix as nat) matches Some(v) && scalar_text(v)
            == Some(t@),
        r is None ==> parse_u32(digits@, radix as nat) is None || scalar_text(
            parse_u32(digits@, radix as nat)->0,
        ) is None,
{
    match parse_u32_chars(digits, radix) {
        Some(v) => match char_from_u32(v) {
            Some(c) => {
                let mut out: Vec<char> = Vec::new();
                out.push(c);
                assert(out@ =~= seq![v as nat as char]);
                Some(string_of(out.as_slice()))
            },
            None => None,
        },
        None => None,
    }
}

/// Resolves the name of a general or character reference to its text.
#[verifier::spinoff_prover]
#[verifier::rlimit(30)]
pub fn resolve_entity(raw: &[u8]) -> (r: Option<String>)
    ensures
        r matches Some(t) ==> entity_text(raw@) == Some(t@),
        r is None ==> entity_text(raw@) is None,
{
    let s = match utf8_str(raw) {
        Some(s) => s,
        None => return None,
    };
    let cs = chars_of(s);
    let ghost sv = cs@;
    let fixed: Option<&str> = if lit_is(cs.as_slice(), "amp") {
        Some("&")
    } else if lit_is(cs.as_slice(), "lt") {
        Some("<")
    } else if lit_is(cs.as_slice(), "gt") {
        Some(">")
    } else if lit_is(cs.as_slice(), "quot") {
        Some("\"")
    } else if lit_is(cs.as_slice(), "apos") {
        Some("'")
    } else {
        None
    };
    if let Some(f) = fixed {
        let v = chars_of(f);
        return Some(string_of(v.as_slice()));
    }
    let hx = chars_of("#x");
    let hx_upper = chars_of("#X");
    let hash = chars_of("#");
    proof {
        reveal_strlit("#x");
        reveal_strlit("#X");
        reveal_strlit("#");
    }
    if crate::text::matches_at_exec(cs.as_slice(), hx.as_slice(), 0)
        || crate::text::matches_at_exec(cs.as_slice(), hx_upper.as_slice(), 0) {
        let digits = slice_of(cs.as_slice(), 2, cs.len());
        return char_ref_text(digits.as_slice(), 16);
    }
    if crate::text::matches_at_exec(cs.as_slice(), hash.as_slice(), 0) {
        let digits = slice_of(cs.as_slice(), 1, cs.len());
        return char_ref_text(digits.as_slice(), 10);
    }
    let mut out = chars_of("&");
    push_all(&mut out, cs.as_slice());
    push_str(&mut out, ";");
    Some(string_of(out.as_slice()))
}

} // verus!
