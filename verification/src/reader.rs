//! EPUB reader: the package document, chapters, assets, cover and TOC, read
//! out of the archive with zip and quick-xml.
//!
//! File paths exposed on the returned `Document` are OPF-relative, the same
//! paths as the manifest's `href` attributes (fragment dropped).

use crate::error::{AppError, ErrorV};
use crate::opf::{
    clone_chars_string, extract_from_zip, extracted, find_key, key_index, keyed_insert, keys_unique,
    opf_keys_unique,
    lemma_key_index, lemma_key_index_same_keys, lookup, manifest_view, nm, opf_extras, ov,
    parse_extras, located_opf, mimetype_problem, ExtrasV, ManifestItem, ManifestItemV, OpfExtras,
};
use crate::paths::{archive_path, resolve_archive_path, strip_fragment, without_fragment};
use crate::text::{chars_of, push_str, str_eq, string_of, strs, trim, trim_exec};
use crate::toc::{is_nav_doc, is_ncx_doc, lemma_first_fitting, toc_choice, toc_of};
use crate::types::{
    assets_view, chapters_view, Asset, AssetV, Bytes, Chapter, ChapterV,
    DocV, Document, NavV,
};
use crate::xml::{
    entity_text, events_view, local_name_bytes, local_part, read_events, resolve_entity,
    xml_events, EventV, XmlEvent,
};
use crate::zipio::{file_read, read_file_bytes, zip_entry, ZipReadV};
use vstd::prelude::*;

verus! {

// ---------------------------------------------------------------------------
// Chapter titles

/// Reading a chapter for its `<title>`: inside one, and its text so far.
pub struct TitleScan {
    pub in_title: bool,
    pub title: Seq<char>,
}

pub enum TitleStep {
    Next(TitleScan),
    Found(Option<Seq<char>>),
}

pub open spec fn title_step(st: TitleScan, ev: EventV) -> TitleStep {
    match ev {
        EventV::Start(raw, _) => if local_part(raw) == nm("title"@) {
            TitleStep::Next(TitleScan { in_title: true, title: Seq::empty() })
        } else {
            TitleStep::Next(st)
        },
        EventV::Text(t) => if st.in_title && t is Some {
            TitleStep::Next(TitleScan { title: st.title + t->0, ..st })
        } else {
            TitleStep::Next(st)
        },
        EventV::Ref(r) => if st.in_title && entity_text(r) is Some {
            TitleStep::Next(TitleScan { title: st.title + entity_text(r)->0, ..st })
        } else {
            TitleStep::Next(st)
        },
        EventV::End(raw) => if st.in_title && local_part(raw) == nm("title"@) {
            TitleStep::Found(
                if trim(st.title).len() == 0 {
                    None
                } else {
                    Some(trim(st.title))
                },
            )
        } else {
            TitleStep::Next(st)
        },
        EventV::Eof => TitleStep::Found(None),
        EventV::Error(_) => TitleStep::Found(None),
        _ => TitleStep::Next(st),
    }
}

pub open spec fn title_run(st: TitleScan, evs: Seq<EventV>, i: int) -> Option<Seq<char>>
    decreases evs.len() - i,
{
    if i < 0 || i >= evs.len() {
        None
    } else {
        match title_step(st, evs[i]) {
            TitleStep::Next(s2) => title_run(s2, evs, i + 1),
            TitleStep::Found(t) => t,
        }
    }
}

/// The trimmed text of the first complete `<title>` element of a chapter;
/// `None` when it is empty, when there is none, or at an XML error before
/// it closes.
pub open spec fn xhtml_title(data: Seq<u8>) -> Option<Seq<char>> {
    title_run(TitleScan { in_title: false, title: Seq::empty() }, xml_events(data, false), 0)
}

/// The title of a chapter, as `xhtml_title` says.
pub fn extract_xhtml_title(data: &[u8]) -> (r: Option<String>)
    ensures
        ov(r) == xhtml_title(data@),
{
    let events = read_events(data, false);
    title_of_events(&events)
}

/// The title read from a chapter's events, as `title_run` says.
#[verifier::spinoff_prover]
#[verifier::rlimit(30)]
pub fn title_of_events(events: &Vec<XmlEvent>) -> (r: Option<String>)
    ensures
        ov(r) == title_run(TitleScan { in_title: false, title: Seq::empty() }, events_view(events@), 0),
{
    let ghost evs = events_view(events@);
    let mut in_title = false;
    let mut title: Vec<char> = Vec::new();
    let ghost init = TitleScan { in_title: false, title: Seq::empty() };
    assert(TitleScan { in_title, title: title@ } == init);
    let title_name = crate::xml::ascii_bytes("title");
    let mut i: usize = 0;
    while i < events.len()
        invariant
            evs == events_view(events@),
            i <= events@.len(),
            title_name@ == nm("title"@),
            init == (TitleScan { in_title: false, title: Seq::empty() }),
            title_run(init, evs, 0) == title_run(
                TitleScan { in_title, title: title@ },
                evs,
                i as int,
            ),
        decreases events@.len() - i,
    {
        assert(evs[i as int] == events@[i as int]@);
        match &events[i] {
            XmlEvent::Start(raw, _) => {
                let local = local_name_bytes(raw.as_slice());
                if crate::xml::bytes_eq(local.as_slice(), title_name.as_slice()) {
                    in_title = true;
                    title = Vec::new();
                }
            },
            XmlEvent::Text(t) => {
                if in_title {
                    match t {
                        Some(s) => push_str(&mut title, s.as_str()),
                        None => {},
                    }
                }
            },
            XmlEvent::Ref(r) => {
                if in_title {
                    match resolve_entity(r.as_slice()) {
                        Some(s) => push_str(&mut title, s.as_str()),
                        None => {},
                    }
                }
            },
            XmlEvent::End(raw) => {
                let local = local_name_bytes(raw.as_slice());
                if in_title && crate::xml::bytes_eq(local.as_slice(), title_name.as_slice()) {
                    let t = trim_exec(title.as_slice());
                    if t.len() == 0 {
                        return None;
                    }
                    return Some(string_of(t.as_slice()));
                }
            },
            XmlEvent::Eof => {
                return None;
            },
            XmlEvent::Error(_) => {
                return None;
            },
            _ => {},
        }
        i = i + 1;
    }
    None
}

// ---------------------------------------------------------------------------
// Small helpers

/// Whether the list holds the string.
fn contains_str(v: &Vec<String>, s: &str) -> (r: bool)
    ensures
        r == strs(v@).contains(s@),
{
    let mut i: usize = 0;
    while i < v.len()
        invariant
            i <= v@.len(),
            forall|j: int| 0 <= j < i ==> v@[j]@ != s@,
        decreases v@.len() - i,
    {
        if str_eq(v[i].as_str(), s) {
            assert(strs(v@)[i as int] == s@);
            return true;
        }
        i = i + 1;
    }
    assert(!strs(v@).contains(s@)) by {
        if strs(v@).contains(s@) {
            let j = choose|j: int| 0 <= j < strs(v@).len() && strs(v@)[j] == s@;
            assert(v@[j]@ == s@);
        }
    }
    false
}

fn push_string(v: &mut Vec<String>, s: &str)
    ensures
        strs(final(v)@) == strs(old(v)@).push(s@),
{
    let ghost before = v@;
    v.push(s.to_owned());
    assert(strs(v@) =~= strs(before).push(s@));
}

/// The manifest item with id `id`, if any.
fn manifest_get<'a>(extras: &'a OpfExtras, id: &str) -> (r: Option<&'a ManifestItem>)
    ensures
        match lookup(extras@.manifest, id@) {
            Some(mi) => r matches Some(m) && m@ == mi,
            None => r is None,
        },
{
    let ghost mv = extras@.manifest;
    let ghost keys = Seq::new(extras.manifest@.len(), |j: int| (extras.manifest@[j].0@, ()));
    assert(mv =~= manifest_view(extras.manifest@));
    proof {
        lemma_key_index_same_keys(keys, mv, id@);
        lemma_key_index(mv, id@);
    }
    match find_key(&extras.manifest, id) {
        Some(i) => Some(&extras.manifest[i].1),
        None => None,
    }
}

/// Whether an item is the navigation document or the NCX.
pub fn is_nav_or_ncx(mi: &ManifestItem) -> (r: bool)
    ensures
        r == (is_ncx_doc(mi@) || is_nav_doc(mi@)),
{
    if str_eq(mi.media_type.as_str(), "application/x-dtbncx+xml") {
        return true;
    }
    match &mi.properties {
        Some(props) => {
            let word = chars_of("nav");
            crate::text::has_word_exec(chars_of(props.as_str()).as_slice(), word.as_slice())
        },
        None => false,
    }
}

// ---------------------------------------------------------------------------
// The spine

/// Building the spine: the chapters so far, the OPF-relative files already
/// taken and the ids already taken.
pub struct SpineScan {
    pub chapters: Seq<ChapterV>,
    pub hrefs: Seq<Seq<char>>,
    pub ids: Seq<Seq<char>>,
}

/// One spine `<itemref>`: an idref that names no manifest item, or names a
/// file or an id already in the spine, adds nothing.
pub open spec fn spine_step(epub: Seq<u8>, x: ExtrasV, st: SpineScan, idref: Seq<char>) -> Result<
    SpineScan,
    ErrorV,
> {
    match lookup(x.manifest, idref) {
        None => Ok(st),
        Some(mi) => {
            let rel = without_fragment(mi.href);
            if st.hrefs.contains(rel) {
                Ok(st)
            } else if st.ids.contains(idref) {
                Ok(SpineScan { hrefs: st.hrefs.push(rel), ..st })
            } else {
                match file_read(epub, archive_path(x.opf_dir, mi.href)) {
                    Err(e) => Err(e),
                    Ok(data) => Ok(
                        SpineScan {
                            chapters: st.chapters.push(
                                ChapterV {
                                    id: idref,
                                    file_name: rel,
                                    title: xhtml_title(data),
                                    media_type: mi.media_type,
                                    data: data,
                                },
                            ),
                            hrefs: st.hrefs.push(rel),
                            ids: st.ids.push(idref),
                        },
                    ),
                }
            }
        },
    }
}

/// The spine built from the first `k` idrefs, starting with the files
/// `seed` taken.
pub open spec fn spine_run(epub: Seq<u8>, x: ExtrasV, seed: Seq<Seq<char>>, k: int) -> Result<
    SpineScan,
    ErrorV,
>
    decreases k,
{
    if k <= 0 {
        Ok(SpineScan { chapters: Seq::empty(), hrefs: seed, ids: Seq::empty() })
    } else {
        match spine_run(epub, x, seed, k - 1) {
            Err(e) => Err(e),
            Ok(st) => spine_step(epub, x, st, x.spine[k - 1]),
        }
    }
}

proof fn lemma_spine_error_stays(epub: Seq<u8>, x: ExtrasV, seed: Seq<Seq<char>>, k: int, j: int)
    requires
        0 <= k <= j,
        spine_run(epub, x, seed, k) is Err,
    ensures
        spine_run(epub, x, seed, j) == spine_run(epub, x, seed, k),
    decreases j - k,
{
    if j > k {
        lemma_spine_error_stays(epub, x, seed, k, j - 1);
    }
}

/// Builds the chapters from the spine's idrefs, in order, each file once;
/// `spine_opf_hrefs` collects the OPF-relative files taken.
#[verifier::spinoff_prover]
#[verifier::rlimit(30)]
pub fn build_spine_from_extras(
    epub: &[u8],
    extras: &OpfExtras,
    spine_opf_hrefs: &mut Vec<String>,
) -> (r: Result<Vec<Chapter>, AppError>)
    ensures
        match spine_run(epub@, extras@, strs(old(spine_opf_hrefs)@), extras@.spine.len() as int) {
            Ok(sc) => r matches Ok(v) && chapters_view(v@) == sc.chapters && strs(
                final(spine_opf_hrefs)@,
            ) == sc.hrefs,
            Err(x) => r matches Err(e) && e@ == x,
        },
{
    let ghost x = extras@;
    let ghost seed = strs(spine_opf_hrefs@);
    let mut spine: Vec<Chapter> = Vec::new();
    let mut seen_ids: Vec<String> = Vec::new();
    assert(chapters_view(spine@) =~= Seq::<ChapterV>::empty());
    assert(strs(seen_ids@) =~= Seq::<Seq<char>>::empty());
    let n = extras.spine.len();
    let mut k: usize = 0;
    while k < n
        invariant
            x == extras@,
            seed == strs(old(spine_opf_hrefs)@),
            n == extras.spine@.len(),
            x.spine.len() == n,
            k <= n,
            spine_run(epub@, x, seed, k as int) == Ok::<SpineScan, ErrorV>(
                SpineScan {
                    chapters: chapters_view(spine@),
                    hrefs: strs(spine_opf_hrefs@),
                    ids: strs(seen_ids@),
                },
            ),
        decreases n - k,
    {
        let idref = &extras.spine[k];
        assert(x.spine[k as int] == idref@);
        let mi = match manifest_get(extras, idref.as_str()) {
            Some(mi) => mi,
            None => {
                k = k + 1;
                continue;
            },
        };
        let opf_relative = strip_fragment(mi.href.as_str());
        if contains_str(spine_opf_hrefs, opf_relative.as_str()) {
            k = k + 1;
            continue;
        }
        push_string(spine_opf_hrefs, opf_relative.as_str());
        if contains_str(&seen_ids, idref.as_str()) {
            k = k + 1;
            continue;
        }
        push_string(&mut seen_ids, idref.as_str());
        let archive_path = resolve_archive_path(extras.opf_dir.as_str(), mi.href.as_str());
        let data = match read_file_bytes(epub, archive_path.as_str()) {
            Ok(d) => d,
            Err(e) => {
                proof {
                    lemma_spine_error_stays(epub@, x, seed, k + 1, n as int);
                }
                return Err(e);
            },
        };
        let title = extract_xhtml_title(data.as_slice());
        let ghost before = spine@;
        spine.push(
            Chapter {
                id: clone_chars_string(idref),
                file_name: opf_relative,
                title,
                media_type: clone_chars_string(&mi.media_type),
                data: Bytes(data),
            },
        );
        assert(chapters_view(spine@) =~= chapters_view(before).push(spine@.last()@));
        k = k + 1;
    }
    Ok(spine)
}

// ---------------------------------------------------------------------------
// Assets

/// One manifest entry as an asset: skipped when its id is in the spine,
/// its file is a chapter's, or it is the navigation document or the NCX.
pub open spec fn asset_step(
    epub: Seq<u8>,
    x: ExtrasV,
    spine_hrefs: Seq<Seq<char>>,
    acc: Seq<AssetV>,
    id: Seq<char>,
    mi: ManifestItemV,
) -> Result<Seq<AssetV>, ErrorV> {
    let rel = without_fragment(mi.href);
    if x.spine.contains(id) || spine_hrefs.contains(rel) || is_ncx_doc(mi) || is_nav_doc(mi) {
        Ok(acc)
    } else {
        match file_read(epub, archive_path(x.opf_dir, mi.href)) {
            Err(e) => Err(e),
            Ok(data) => Ok(
                acc.push(AssetV { id: id, file_name: rel, media_type: mi.media_type, data: data }),
            ),
        }
    }
}

/// The assets from the first `k` manifest entries.
pub open spec fn assets_run(epub: Seq<u8>, x: ExtrasV, spine_hrefs: Seq<Seq<char>>, k: int) -> Result<
    Seq<AssetV>,
    ErrorV,
>
    decreases k,
{
    if k <= 0 {
        Ok(Seq::empty())
    } else {
        match assets_run(epub, x, spine_hrefs, k - 1) {
            Err(e) => Err(e),
            Ok(acc) => asset_step(
                epub,
                x,
                spine_hrefs,
                acc,
                x.manifest[k - 1].0,
                x.manifest[k - 1].1,
            ),
        }
    }
}

proof fn lemma_assets_error_stays(epub: Seq<u8>, x: ExtrasV, h: Seq<Seq<char>>, k: int, j: int)
    requires
        0 <= k <= j,
        assets_run(epub, x, h, k) is Err,
    ensures
        assets_run(epub, x, h, j) == assets_run(epub, x, h, k),
    decreases j - k,
{
    if j > k {
        lemma_assets_error_stays(epub, x, h, k, j - 1);
    }
}

/// Reads the manifest items that are neither chapters nor the TOC files.
#[verifier::spinoff_prover]
#[verifier::rlimit(30)]
pub fn collect_assets(epub: &[u8], extras: &OpfExtras, spine_opf_hrefs: &Vec<String>) -> (r: Result<
    Vec<Asset>,
    AppError,
>)
    ensures
        match assets_run(epub@, extras@, strs(spine_opf_hrefs@), extras@.manifest.len() as int) {
            Ok(a) => r matches Ok(v) && assets_view(v@) == a,
            Err(x) => r matches Err(e) && e@ == x,
        },
{
    let ghost x = extras@;
    let mut assets: Vec<Asset> = Vec::new();
    assert(assets_view(assets@) =~= Seq::<AssetV>::empty());
    let n = extras.manifest.len();
    let mut k: usize = 0;
    while k < n
        invariant
            x == extras@,
            n == extras.manifest@.len(),
            x.manifest.len() == n,
            k <= n,
            assets_run(epub@, x, strs(spine_opf_hrefs@), k as int) == Ok::<Seq<AssetV>, ErrorV>(
                assets_view(assets@),
            ),
        decreases n - k,
    {
        let id = &extras.manifest[k].0;
        let mi = &extras.manifest[k].1;
        assert(x.manifest[k as int] == (id@, mi@));
        let opf_relative = strip_fragment(mi.href.as_str());
        if contains_str(&extras.spine, id.as_str()) || contains_str(
            spine_opf_hrefs,
            opf_relative.as_str(),
        ) || is_nav_or_ncx(mi) {
            assert(strs(extras.spine@) == x.spine);
            k = k + 1;
            continue;
        }
        assert(strs(extras.spine@) == x.spine);
        let archive_path = resolve_archive_path(extras.opf_dir.as_str(), mi.href.as_str());
        let data = match read_file_bytes(epub, archive_path.as_str()) {
            Ok(d) => d,
            Err(e) => {
                proof {
                    lemma_assets_error_stays(epub@, x, strs(spine_opf_hrefs@), k + 1, n as int);
                }
                return Err(e);
            },
        };
        let ghost before = assets@;
        assets.push(
            Asset {
                id: clone_chars_string(id),
                file_name: opf_relative,
                media_type: clone_chars_string(&mi.media_type),
                data: Bytes(data),
            },
        );
        assert(assets_view(assets@) =~= assets_view(before).push(assets@.last()@));
        k = k + 1;
    }
    Ok(assets)
}

// ---------------------------------------------------------------------------
// The cover

/// Files to manifest ids: each item's OPF-relative href and its archive
/// path lead to its id; a later item wins a file named twice.
pub open spec fn href_map(m: Seq<(Seq<char>, ManifestItemV)>, dir: Seq<char>) -> Seq<
    (Seq<char>, Seq<char>),
>
    decreases m.len(),
{
    if m.len() == 0 {
        Seq::empty()
    } else {
        let id = m.last().0;
        let href = m.last().1.href;
        keyed_insert(
            keyed_insert(href_map(m.drop_last(), dir), without_fragment(href), id),
            archive_path(dir, href),
            id,
        )
    }
}

/// The cover hint made a manifest id: an id as it is, else an href looked
/// up (OPF-relative, then as an archive path); `None` when it names neither.
pub open spec fn cover_with(x: ExtrasV, files: Seq<(Seq<char>, Seq<char>)>) -> Option<Seq<char>> {
    match x.cover_id {
        None => None,
        Some(cid) => if key_index(x.manifest, cid) is Some {
            Some(cid)
        } else {
            let stripped = without_fragment(cid);
            match lookup(files, stripped) {
                Some(id) => Some(id),
                None => lookup(files, archive_path(x.opf_dir, stripped)),
            }
        },
    }
}

/// The cover of the package described by `x`.
pub open spec fn cover_of(x: ExtrasV) -> Option<Seq<char>> {
    cover_with(x, href_map(x.manifest, x.opf_dir))
}

pub open spec fn pairs_view(m: Seq<(String, String)>) -> Seq<(Seq<char>, Seq<char>)> {
    Seq::new(m.len(), |i: int| (m[i].0@, m[i].1@))
}

fn pair_insert(m: &mut Vec<(String, String)>, k: String, v: String)
    ensures
        pairs_view(final(m)@) == keyed_insert(pairs_view(old(m)@), k@, v@),
{
    let ghost before = pairs_view(m@);
    let ghost keys = Seq::new(m@.len(), |j: int| (m@[j].0@, ()));
    proof {
        lemma_key_index_same_keys(keys, before, k@);
        lemma_key_index(keys, k@);
    }
    match find_key(m, k.as_str()) {
        Some(i) => {
            let ghost kv = (k@, v@);
            m.set(i, (k, v));
            assert(pairs_view(m@) =~= before.update(i as int, kv));
        },
        None => {
            let ghost kv = (k@, v@);
            m.push((k, v));
            assert(pairs_view(m@) =~= before.push(kv));
        },
    }
}

fn pair_get(m: &Vec<(String, String)>, k: &str) -> (r: Option<String>)
    ensures
        ov(r) == lookup(pairs_view(m@), k@),
{
    let ghost pv = pairs_view(m@);
    let ghost keys = Seq::new(m@.len(), |j: int| (m@[j].0@, ()));
    proof {
        lemma_key_index_same_keys(keys, pv, k@);
        lemma_key_index(keys, k@);
    }
    match find_key(m, k) {
        Some(i) => Some(clone_chars_string(&m[i].1)),
        None => None,
    }
}

/// The files-to-ids table of a manifest, as `href_map` says.
#[verifier::spinoff_prover]
#[verifier::rlimit(30)]
pub fn href_to_id_map(extras: &OpfExtras) -> (r: Vec<(String, String)>)
    ensures
        pairs_view(r@) == href_map(extras@.manifest, extras@.opf_dir),
{
    let ghost x = extras@;
    let mut map: Vec<(String, String)> = Vec::new();
    assert(pairs_view(map@) =~= Seq::<(Seq<char>, Seq<char>)>::empty());
    let n = extras.manifest.len();
    let mut k: usize = 0;
    while k < n
        invariant
            x == extras@,
            n == extras.manifest@.len(),
            x.manifest.len() == n,
            k <= n,
            pairs_view(map@) == href_map(x.manifest.take(k as int), x.opf_dir),
        decreases n - k,
    {
        let id = &extras.manifest[k].0;
        let mi = &extras.manifest[k].1;
        assert(x.manifest[k as int] == (id@, mi@));
        assert(x.manifest.take(k + 1).drop_last() =~= x.manifest.take(k as int));
        pair_insert(&mut map, strip_fragment(mi.href.as_str()), clone_chars_string(id));
        pair_insert(
            &mut map,
            resolve_archive_path(extras.opf_dir.as_str(), mi.href.as_str()),
            clone_chars_string(id),
        );
        k = k + 1;
    }
    assert(x.manifest.take(n as int) =~= x.manifest);
    map
}

/// The cover hint made a manifest id, as `cover_with` says.
#[verifier::spinoff_prover]
#[verifier::rlimit(30)]
pub fn resolve_cover_asset_id(extras: &OpfExtras, href_to_id: &Vec<(String, String)>) -> (r: Option<
    String,
>)
    ensures
        ov(r) == cover_with(extras@, pairs_view(href_to_id@)),
{
    match &extras.cover_id {
        None => None,
        Some(cid) => {
            if manifest_get(extras, cid.as_str()).is_some() {
                proof {
                    lemma_key_index(extras@.manifest, cid@);
                }
                return Some(clone_chars_string(cid));
            }
            let stripped = strip_fragment(cid.as_str());
            match pair_get(href_to_id, stripped.as_str()) {
                Some(id) => Some(id),
                None => pair_get(
                    href_to_id,
                    resolve_archive_path(extras.opf_dir.as_str(), stripped.as_str()).as_str(),
                ),
            }
        },
    }
}

// ---------------------------------------------------------------------------
// The document

/// The document read from a package described by `x`, with its chapters,
/// assets and TOC.
pub open spec fn document_of(
    x: ExtrasV,
    chapters: Seq<ChapterV>,
    assets: Seq<AssetV>,
    toc: Seq<NavV>,
) -> DocV {
    DocV {
        title: match x.title {
            Some(t) => t,
            None => Seq::empty(),
        },
        creators: x.creators,
        language: x.language,
        identifier: match x.identifier {
            Some(i) => i,
            None => Seq::empty(),
        },
        publisher: x.publisher,
        date: x.date,
        description: x.description,
        rights: x.rights,
        metadata: x.other_dc,
        spine: chapters,
        assets: assets,
        toc: toc,
        cover_asset_id: cover_of(x),
        version: match x.version {
            Some(v) => v,
            None => Seq::empty(),
        },
        page_progression_direction: None,
        rendition_layout: None,
    }
}

/// What reading the EPUB `epub` gives.
pub open spec fn parsed(epub: Seq<u8>) -> Result<DocV, ErrorV> {
    match extracted(epub) {
        Err(e) => Err(e),
        Ok((opf, path)) => match opf_extras(opf, path) {
            Err(m) => Err(ErrorV::MalformedOpf(m)),
            Ok(x) => match spine_run(epub, x, Seq::empty(), x.spine.len() as int) {
                Err(e) => Err(e),
                Ok(sc) => match assets_run(epub, x, sc.hrefs, x.manifest.len() as int) {
                    Err(e) => Err(e),
                    Ok(assets) => match toc_of(epub, x) {
                        Err(e) => Err(e),
                        Ok(toc) => Ok(document_of(x, sc.chapters, assets, toc)),
                    },
                },
            },
        },
    }
}

fn unwrap_or_empty(o: &Option<String>) -> (r: String)
    ensures
        r@ == (match ov(*o) {
            Some(s) => s,
            None => Seq::empty(),
        }),
{
    match o {
        Some(s) => clone_chars_string(s),
        None => String::new(),
    }
}

/// Reads an EPUB 2 or EPUB 3 document from its bytes.
#[verifier::spinoff_prover]
#[verifier::rlimit(30)]
pub fn parse(bytes: &[u8]) -> (r: Result<Document, AppError>)
    ensures
        match parsed(bytes@) {
            Ok(d) => r matches Ok(doc) && doc@ == d,
            Err(x) => r matches Err(e) && e@ == x,
        },
{
    let (opf_bytes, opf_path) = extract_from_zip(bytes)?;
    let extras = match parse_extras(opf_bytes.as_slice(), opf_path.as_str()) {
        Ok(x) => x,
        Err(e) => {
            return Err(e);
        },
    };
    let href_to_id = href_to_id_map(&extras);
    let mut spine_opf_hrefs: Vec<String> = Vec::new();
    assert(strs(spine_opf_hrefs@) =~= Seq::<Seq<char>>::empty());
    let spine = build_spine_from_extras(bytes, &extras, &mut spine_opf_hrefs)?;
    let assets = collect_assets(bytes, &extras, &spine_opf_hrefs)?;
    let cover_asset_id = resolve_cover_asset_id(&extras, &href_to_id);
    let toc = crate::toc::build(bytes, &extras)?;
    let title = unwrap_or_empty(&extras.title);
    let identifier = unwrap_or_empty(&extras.identifier);
    let version = unwrap_or_empty(&extras.version);
    let ghost x = extras@;
    let doc = Document {
        title,
        creators: extras.creators,
        language: extras.language,
        identifier,
        publisher: extras.publisher,
        date: extras.date,
        description: extras.description,
        rights: extras.rights,
        metadata: extras.other_dc,
        spine,
        assets,
        toc,
        cover_asset_id,
        version,
        page_progression_direction: None,
        rendition_layout: None,
    };
    proof {
        assert(crate::types::metadata_view(doc.metadata@) =~= x.other_dc);
    }
    Ok(doc)
}

// ---------------------------------------------------------------------------
// Laws

/// The chapter is the file of the manifest item named by its id.
pub open spec fn chapter_from(x: ExtrasV, c: ChapterV) -> bool {
    &&& lookup(x.manifest, c.id) is Some
    &&& c.file_name == without_fragment(lookup(x.manifest, c.id)->0.href)
}

/// The asset is the file of manifest entry `j`, which is neither the
/// navigation document nor the NCX.
pub open spec fn asset_from(x: ExtrasV, a: AssetV, j: int) -> bool {
    &&& 0 <= j < x.manifest.len()
    &&& x.manifest[j].0 == a.id
    &&& a.file_name == without_fragment(x.manifest[j].1.href)
    &&& !is_nav_doc(x.manifest[j].1)
    &&& !is_ncx_doc(x.manifest[j].1)
}

/// Every chapter of a spine comes from a manifest item, under that item's
/// id, with the item's href (fragment dropped) as its file; no two chapters
/// share a file or an id; and every chapter's file is among the files taken.
pub proof fn spine_chapters_distinct(epub: Seq<u8>, x: ExtrasV, seed: Seq<Seq<char>>, k: int)
    requires
        k <= x.spine.len(),
        spine_run(epub, x, seed, k) is Ok,
    ensures
        ({
            let sc = spine_run(epub, x, seed, k)->Ok_0;
            &&& forall|i: int|
                0 <= i < sc.chapters.len() ==> chapter_from(x, #[trigger] sc.chapters[i])
            &&& forall|i: int| 0 <= i < sc.chapters.len() ==> sc.hrefs.contains(
                #[trigger] sc.chapters[i].file_name,
            )
            &&& forall|i: int, j: int|
                0 <= i < j < sc.chapters.len() ==> #[trigger] sc.chapters[i].file_name
                    != #[trigger] sc.chapters[j].file_name && sc.chapters[i].id
                    != sc.chapters[j].id
        }),
    decreases k,
{
    lemma_spine_ids(epub, x, seed, k);
}

#[verifier::spinoff_prover]
#[verifier::rlimit(30)]
proof fn lemma_spine_ids(epub: Seq<u8>, x: ExtrasV, seed: Seq<Seq<char>>, k: int)
    requires
        k <= x.spine.len(),
        spine_run(epub, x, seed, k) is Ok,
    ensures
        ({
            let sc = spine_run(epub, x, seed, k)->Ok_0;
            &&& forall|i: int|
                0 <= i < sc.chapters.len() ==> chapter_from(x, #[trigger] sc.chapters[i])
            &&& forall|i: int| 0 <= i < sc.chapters.len() ==> sc.hrefs.contains(
                #[trigger] sc.chapters[i].file_name,
            )
            &&& forall|i: int| 0 <= i < sc.chapters.len() ==> sc.ids.contains(
                #[trigger] sc.chapters[i].id,
            )
            &&& forall|i: int| 0 <= i < sc.chapters.len() ==> x.spine.contains(
                #[trigger] sc.chapters[i].id,
            )
            &&& forall|i: int, j: int|
                0 <= i < j < sc.chapters.len() ==> #[trigger] sc.chapters[i].file_name
                    != #[trigger] sc.chapters[j].file_name && sc.chapters[i].id
                    != sc.chapters[j].id
        }),
    decreases k,
{
    if k > 0 {
        let prev = spine_run(epub, x, seed, k - 1);
        lemma_spine_ids(epub, x, seed, k - 1);
        let st = prev->Ok_0;
        let idref = x.spine[k - 1];
        let sc = spine_run(epub, x, seed, k)->Ok_0;
        match lookup(x.manifest, idref) {
            None => {},
            Some(mi) => {
                let rel = without_fragment(mi.href);
                if st.hrefs.contains(rel) {
                } else if st.ids.contains(idref) {
                    assert forall|i: int| 0 <= i < sc.chapters.len() implies sc.hrefs.contains(
                        #[trigger] sc.chapters[i].file_name,
                    ) by {
                        let w = choose|w: int|
                            0 <= w < st.hrefs.len() && st.hrefs[w] == st.chapters[i].file_name;
                        assert(sc.hrefs[w] == st.hrefs[w]);
                    }
                } else {
                    assert(sc.chapters.last().file_name == rel);
                    assert(sc.hrefs.last() == rel);
                    assert(sc.ids.last() == idref);
                    assert forall|i: int| 0 <= i < sc.chapters.len() implies x.spine.contains(
                        #[trigger] sc.chapters[i].id,
                    ) by {
                        if i == sc.chapters.len() - 1 {
                            assert(x.spine[k - 1] == idref);
                        } else {
                            assert(sc.chapters[i] == st.chapters[i]);
                        }
                    }
                    assert forall|i: int| 0 <= i < sc.chapters.len() implies sc.hrefs.contains(
                        #[trigger] sc.chapters[i].file_name,
                    ) by {
                        if i < sc.chapters.len() - 1 {
                            let w = choose|w: int|
                                0 <= w < st.hrefs.len() && st.hrefs[w] == st.chapters[i].file_name;
                            assert(sc.hrefs[w] == st.hrefs[w]);
                        } else {
                            assert(sc.hrefs[sc.hrefs.len() - 1] == rel);
                        }
                    }
                    assert forall|i: int| 0 <= i < sc.chapters.len() implies sc.ids.contains(
                        #[trigger] sc.chapters[i].id,
                    ) by {
                        if i < sc.chapters.len() - 1 {
                            let w = choose|w: int|
                                0 <= w < st.ids.len() && st.ids[w] == st.chapters[i].id;
                            assert(sc.ids[w] == st.ids[w]);
                        } else {
                            assert(sc.ids[sc.ids.len() - 1] == idref);
                        }
                    }
                    assert forall|i: int, j: int|
                        0 <= i < j < sc.chapters.len() implies #[trigger] sc.chapters[i].file_name
                        != #[trigger] sc.chapters[j].file_name && sc.chapters[i].id
                        != sc.chapters[j].id by {
                        if j == sc.chapters.len() - 1 {
                            assert(st.hrefs.contains(st.chapters[i].file_name));
                            assert(st.ids.contains(st.chapters[i].id));
                        }
                    }
                }
            },
        }
    }
}

/// Every asset is the file of a manifest item, under its id, which is
/// neither the navigation document nor the NCX; no asset is named in the
/// spine or shares a file with the spine files `h`.
pub proof fn assets_exclude_spine(epub: Seq<u8>, x: ExtrasV, h: Seq<Seq<char>>, k: int)
    requires
        0 <= k <= x.manifest.len(),
        assets_run(epub, x, h, k) is Ok,
    ensures
        forall|i: int|
            0 <= i < assets_run(epub, x, h, k)->Ok_0.len() ==> {
                let a = #[trigger] assets_run(epub, x, h, k)->Ok_0[i];
                &&& exists|j: int| asset_from(x, a, j)
                &&& !x.spine.contains(a.id)
                &&& !h.contains(a.file_name)
            },
    decreases k,
{
    if k > 0 {
        assets_exclude_spine(epub, x, h, k - 1);
        let acc = assets_run(epub, x, h, k - 1)->Ok_0;
        let now = assets_run(epub, x, h, k)->Ok_0;
        assert forall|i: int| 0 <= i < now.len() implies {
            let a = #[trigger] now[i];
            &&& exists|j: int| asset_from(x, a, j)
            &&& !x.spine.contains(a.id)
            &&& !h.contains(a.file_name)
        } by {
            if i < acc.len() {
                assert(now[i] == acc[i]);
            } else {
                assert(asset_from(x, now[i], k - 1));
            }
        }
    }
}

/// The cover of a package, when there is one, is the id of one of its
/// manifest items: never a path.
pub proof fn cover_is_manifest_id(x: ExtrasV)
    ensures
        cover_of(x) matches Some(c) ==> key_index(x.manifest, c) is Some,
{
    lemma_href_map_values(x.manifest, x.opf_dir);
    match x.cover_id {
        None => {},
        Some(cid) => {
            let files = href_map(x.manifest, x.opf_dir);
            if key_index(x.manifest, cid) is None {
                let stripped = without_fragment(cid);
                lemma_key_index(files, stripped);
                lemma_key_index(files, archive_path(x.opf_dir, stripped));
            }
        },
    }
}

/// Every value of the files-to-ids table is the id of a manifest item.
#[verifier::spinoff_prover]
#[verifier::rlimit(30)]
proof fn lemma_href_map_values(m: Seq<(Seq<char>, ManifestItemV)>, dir: Seq<char>)
    ensures
        forall|j: int|
            0 <= j < href_map(m, dir).len() ==> key_index(m, #[trigger] href_map(m, dir)[j].1) is Some,
    decreases m.len(),
{
    if m.len() > 0 {
        let t = m.drop_last();
        lemma_href_map_values(t, dir);
        let id = m.last().0;
        let href = m.last().1.href;
        let m0 = href_map(t, dir);
        let m1 = keyed_insert(m0, without_fragment(href), id);
        let m2 = keyed_insert(m1, archive_path(dir, href), id);
        lemma_key_index(m0, without_fragment(href));
        lemma_key_index(m1, archive_path(dir, href));
        lemma_key_index(m, id);
        assert forall|i: int| 0 <= i < t.len() implies t[i] == m[i] by {}
        assert forall|v: Seq<char>| key_index(t, v) is Some implies key_index(m, v) is Some by {
            lemma_key_index(t, v);
            lemma_key_index(m, v);
            let i = key_index(t, v)->0;
            assert(m[i].0 == v);
        }
        assert forall|j: int| 0 <= j < m1.len() implies key_index(m, #[trigger] m1[j].1) is Some by {
            if j < m0.len() && m1[j] == m0[j] {
            } else {
            }
        }
    }
}

/// What a successful read promises of the document: no two chapters share
/// a file or an id; no asset shares a file with a chapter or has a
/// chapter's id; each other Dublin Core name is listed once; no
/// page-progression direction or rendition layout is reported.
pub proof fn parsed_document_laws(epub: Seq<u8>)
    requires
        parsed(epub) is Ok,
    ensures
        ({
            let d = parsed(epub)->Ok_0;
            &&& forall|i: int, j: int|
                0 <= i < j < d.spine.len() ==> #[trigger] d.spine[i].file_name
                    != #[trigger] d.spine[j].file_name && d.spine[i].id != d.spine[j].id
            &&& forall|i: int, j: int|
                0 <= i < d.assets.len() && 0 <= j < d.spine.len() ==> #[trigger] d.assets[i].file_name
                    != #[trigger] d.spine[j].file_name && d.assets[i].id != d.spine[j].id
            &&& keys_unique(d.metadata)
            &&& d.page_progression_direction is None
            &&& d.rendition_layout is None
        }),
{
    let (opf, path) = extracted(epub)->Ok_0;
    let x = opf_extras(opf, path)->Ok_0;
    opf_keys_unique(opf, path);
    let sc = spine_run(epub, x, Seq::empty(), x.spine.len() as int)->Ok_0;
    lemma_spine_ids(epub, x, Seq::empty(), x.spine.len() as int);
    assets_exclude_spine(epub, x, sc.hrefs, x.manifest.len() as int);
    let d = parsed(epub)->Ok_0;
    assert forall|i: int, j: int|
        0 <= i < d.assets.len() && 0 <= j < d.spine.len() implies #[trigger] d.assets[i].file_name
        != #[trigger] d.spine[j].file_name && d.assets[i].id != d.spine[j].id by {
        assert(sc.hrefs.contains(sc.chapters[j].file_name));
        assert(x.spine.contains(sc.chapters[j].id));
    }
}

// ---------------------------------------------------------------------------
// Parsing and the form of the mimetype entry

/// Both archives give the same reading for every file of the package `x`.
pub open spec fn same_package_reads(b0: Seq<u8>, b1: Seq<u8>, x: ExtrasV) -> bool {
    forall|i: int|
        0 <= i < x.manifest.len() ==> zip_entry(
            b0,
            #[trigger] archive_path(x.opf_dir, x.manifest[i].1.href),
        ) == zip_entry(b1, archive_path(x.opf_dir, x.manifest[i].1.href))
}

proof fn lemma_spine_same(b0: Seq<u8>, b1: Seq<u8>, x: ExtrasV, seed: Seq<Seq<char>>, k: int)
    requires
        same_package_reads(b0, b1, x),
    ensures
        spine_run(b0, x, seed, k) == spine_run(b1, x, seed, k),
    decreases k,
{
    if k > 0 {
        lemma_spine_same(b0, b1, x, seed, k - 1);
        let idref = x.spine[k - 1];
        lemma_key_index(x.manifest, idref);
        match key_index(x.manifest, idref) {
            Some(i) => {
                let p = archive_path(x.opf_dir, x.manifest[i].1.href);
                assert(zip_entry(b0, p) == zip_entry(b1, p));
                assert(file_read(b0, p) == file_read(b1, p));
            },
            None => {},
        }
    }
}

proof fn lemma_assets_same(b0: Seq<u8>, b1: Seq<u8>, x: ExtrasV, h: Seq<Seq<char>>, k: int)
    requires
        same_package_reads(b0, b1, x),
        k <= x.manifest.len(),
    ensures
        assets_run(b0, x, h, k) == assets_run(b1, x, h, k),
    decreases k,
{
    if k > 0 {
        lemma_assets_same(b0, b1, x, h, k - 1);
        let p = archive_path(x.opf_dir, x.manifest[k - 1].1.href);
        assert(zip_entry(b0, p) == zip_entry(b1, p));
        assert(file_read(b0, p) == file_read(b1, p));
    }
}

proof fn lemma_toc_same(b0: Seq<u8>, b1: Seq<u8>, x: ExtrasV)
    requires
        same_package_reads(b0, b1, x),
    ensures
        toc_of(b0, x) == toc_of(b1, x),
{
    lemma_first_fitting(x.manifest, true);
    lemma_first_fitting(x.manifest, false);
    match toc_choice(x.manifest) {
        Some((i, _)) => {
            let p = archive_path(x.opf_dir, x.manifest[i].1.href);
            assert(zip_entry(b0, p) == zip_entry(b1, p));
            assert(file_read(b0, p) == file_read(b1, p));
        },
        None => {},
    }
}

/// The package that `b` names reads no file called `mimetype`: neither its
/// package document nor any file of its manifest.
pub open spec fn reads_no_mimetype(b: Seq<u8>) -> bool {
    match located_opf(b) {
        Ok((o, p)) => p != "mimetype"@ && (opf_extras(o, p) matches Ok(x) ==> forall|i: int|
            0 <= i < x.manifest.len() ==> #[trigger] archive_path(x.opf_dir, x.manifest[i].1.href)
                != "mimetype"@),
        Err(_) => true,
    }
}

/// Parsing depends on the `mimetype` entry only through the lenient check:
/// two archives that agree on every other entry, whose `mimetype` entries
/// both pass the check (whatever byte-order mark or surrounding whitespace
/// they carry), and whose package reads no file called `mimetype`, parse the
/// same.
pub proof fn parse_ignores_mimetype_form(b0: Seq<u8>, b1: Seq<u8>)
    requires
        forall|n: Seq<char>| n != "mimetype"@ ==> #[trigger] zip_entry(b0, n) == zip_entry(b1, n),
        zip_entry(b0, "mimetype"@) matches ZipReadV::Found(c) && mimetype_problem(c) is None,
        zip_entry(b1, "mimetype"@) matches ZipReadV::Found(c) && mimetype_problem(c) is None,
        reads_no_mimetype(b0),
    ensures
        parsed(b0) == parsed(b1),
{
    reveal_strlit("mimetype");
    reveal_strlit("META-INF/container.xml");
    assert("META-INF/container.xml"@ != "mimetype"@) by {
        assert("META-INF/container.xml"@.len() != "mimetype"@.len());
    }
    assert(zip_entry(b0, "META-INF/container.xml"@) == zip_entry(b1, "META-INF/container.xml"@));
    match located_opf(b0) {
        Ok((o, p)) => {
            assert(zip_entry(b0, p) == zip_entry(b1, p));
            assert(located_opf(b1) == located_opf(b0));
            match opf_extras(o, p) {
                Ok(x) => {
                    assert forall|i: int| 0 <= i < x.manifest.len() implies zip_entry(
                        b0,
                        #[trigger] archive_path(x.opf_dir, x.manifest[i].1.href),
                    ) == zip_entry(b1, archive_path(x.opf_dir, x.manifest[i].1.href)) by {}
                    lemma_spine_same(b0, b1, x, Seq::empty(), x.spine.len() as int);
                    match spine_run(b0, x, Seq::empty(), x.spine.len() as int) {
                        Ok(sc) => {
                            lemma_assets_same(b0, b1, x, sc.hrefs, x.manifest.len() as int);
                            lemma_toc_same(b0, b1, x);
                        },
                        Err(_) => {},
                    }
                },
                Err(_) => {},
            }
        },
        Err(_) => {
            assert(located_opf(b1) == located_opf(b0)) by {
                match zip_entry(b0, "META-INF/container.xml"@) {
                    ZipReadV::Found(c) => {
                        if vstd::utf8::valid_utf8(c) {
                            match crate::opf::rootfile_scan(xml_events(c, true), 0) {
                                crate::opf::RootfileScan::Path(p) => {
                                    if p != "mimetype"@ {
                                        assert(zip_entry(b0, p) == zip_entry(b1, p));
                                    } else {
                                        assert(zip_entry(b0, p) matches ZipReadV::Found(_));
                                    }
                                },
                                _ => {},
                            }
                        }
                    },
                    _ => {},
                }
            }
        },
    }
}

} // verus!
