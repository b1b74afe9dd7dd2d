//! The EPUB 3 generator, epub-builder: its types and the calls the writer
//! makes. The generated archive carries the time of generation, so it is
//! not named; what the generator is handed (metadata, files, TOC entries) is
//! described exactly, as the sequence of additions it accepted
//! (`generator_steps`), and of the archive it returns, where its package
//! document is and that the files it was handed read back unchanged.

use crate::types::NavV;
use crate::writer::container_opf_path;
use crate::zipio::{zip_count, zip_entry, zip_name, ZipReadV};
use vstd::prelude::*;

verus! {

/// The generator: an `epub_builder::EpubBuilder` writing with
/// `epub_builder::ZipLibrary`. The builder's type names a trait that
/// epub-builder does not export, so it is held in a field of this struct
/// rather than declared.
#[verifier::external_body]
pub struct Generator {
    builder: epub_builder::EpubBuilder<epub_builder::ZipLibrary>,
}

/// One addition that the builder accepted.
pub enum GenStep {
    /// `epub_version(V30)`.
    Epub3,
    /// `set_uuid` with this value.
    Uuid(u128),
    /// `metadata(key, value)`.
    Metadata(Seq<char>, Seq<char>),
    /// `add_cover_image(path, data, media type)`.
    CoverImage(Seq<char>, Seq<u8>, Seq<char>),
    /// `stylesheet(data)`.
    Stylesheet(Seq<u8>),
    /// `add_resource(path, data, media type)`.
    Resource(Seq<char>, Seq<u8>, Seq<char>),
    /// `add_content` with this TOC element and data.
    Content(NavV, Seq<u8>),
}

/// The additions the builder has accepted since it was made, in order.
/// What it holds (metadata, files, table of contents) is built from them.
pub uninterp spec fn generator_steps(g: Generator) -> Seq<GenStep>;

/// Whether the builder, as it is, refuses a content file of that name and
/// data: `add_content` fails only when its in-memory zip write of the file
/// fails (a file of that name already written, or data too large for the
/// writer's entry settings).
pub uninterp spec fn refuses_content(g: Generator, href: Seq<char>, data: Seq<u8>) -> bool;

/// Whether `bytes` is an archive that `EpubBuilder::generate` writes for a
/// builder that accepted `steps`. Two calls on builders with the same steps
/// may give different bytes: the archive records the time it was made.
pub uninterp spec fn generated_from(bytes: Seq<u8>, steps: Seq<GenStep>) -> bool;

#[verifier::external_type_specification]
#[verifier::external_body]
pub struct ExZipLibrary(epub_builder::ZipLibrary);

#[verifier::external_type_specification]
#[verifier::external_body]
pub struct ExTocElement(epub_builder::TocElement);

/// What a TOC element holds: its link (`url`), its title, and its children
/// in order.
pub uninterp spec fn toc_entry(e: epub_builder::TocElement) -> NavV;

/// `TocElement::new(url, title)`: an element with that link and title and
/// no children.
#[verifier::external_body]
pub(crate) fn toc_element(url: &str, title: &str) -> (r: epub_builder::TocElement)
    ensures
        toc_entry(r) == (NavV { title: title@, href: url@, children: Seq::empty() }),
{
    epub_builder::TocElement::new(url, title)
}

/// `TocElement::child`: `child` becomes the last child of `e` (the levels
/// of `child`'s subtree are renumbered, which `toc_entry` does not record).
#[verifier::external_body]
pub(crate) fn toc_element_child(e: epub_builder::TocElement, child: epub_builder::TocElement) -> (r:
    epub_builder::TocElement)
    ensures
        toc_entry(r) == (NavV {
            children: toc_entry(e).children.push(toc_entry(child)),
            ..toc_entry(e)
        }),
{
    e.child(child)
}

/// `ZipLibrary::new`: the in-memory zip writer, or the error's message.
#[verifier::external_body]
pub(crate) fn zip_library() -> (r: Result<epub_builder::ZipLibrary, String>) {
    epub_builder::ZipLibrary::new().map_err(|e| e.to_string())
}

/// `EpubBuilder::new`, or the error's message. A new builder has accepted
/// nothing yet.
#[verifier::external_body]
pub(crate) fn generator_new(zip: epub_builder::ZipLibrary) -> (r: Result<Generator, String>)
    ensures
        r matches Ok(g) ==> generator_steps(g) == Seq::<GenStep>::empty(),
{
    epub_builder::EpubBuilder::new(zip).map(|builder| Generator { builder }).map_err(
        |e| e.to_string(),
    )
}

/// `EpubBuilder::epub_version(EpubVersion::V30)`, recorded as accepted.
#[verifier::external_body]
pub(crate) fn generator_epub3(g: &mut Generator)
    ensures
        generator_steps(*final(g)) == generator_steps(*old(g)).push(GenStep::Epub3),
{
    g.builder.epub_version(epub_builder::EpubVersion::V30);
}

/// `EpubBuilder::set_uuid` with the UUID whose value is `value`, recorded
/// as accepted.
#[verifier::external_body]
pub(crate) fn generator_set_uuid(g: &mut Generator, value: u128)
    ensures
        generator_steps(*final(g)) == generator_steps(*old(g)).push(GenStep::Uuid(value)),
{
    g.builder.set_uuid(uuid::Uuid::from_u128(value));
}

/// The metadata keys that `EpubBuilder::metadata` always accepts, whatever
/// the value.
pub open spec fn metadata_key_known(key: Seq<char>) -> bool {
    ||| key == "author"@
    ||| key == "title"@
    ||| key == "lang"@
    ||| key == "generator"@
    ||| key == "description"@
    ||| key == "subject"@
    ||| key == "license"@
    ||| key == "toc_name"@
}

/// `EpubBuilder::metadata(key, value)`, or the error's message; on success
/// the entry is recorded as accepted. It fails only on an unknown key (or a
/// `direction` value it cannot read), so a known key always succeeds.
#[verifier::external_body]
pub(crate) fn generator_metadata(g: &mut Generator, key: &str, value: &str) -> (r: Result<(), String>)
    ensures
        r is Ok ==> generator_steps(*final(g)) == generator_steps(*old(g)).push(
            GenStep::Metadata(key@, value@),
        ),
        metadata_key_known(key@) ==> r is Ok,
{
    g.builder.metadata(key, value).map(|_| ()).map_err(|e| e.to_string())
}

/// `EpubBuilder::add_cover_image(path, data, media_type)`, or the error's
/// message; on success the image is recorded as accepted.
#[verifier::external_body]
pub(crate) fn generator_cover_image(g: &mut Generator, path: &str, data: &[u8], media_type: &str) -> (r:
    Result<(), String>)
    ensures
        r is Ok ==> generator_steps(*final(g)) == generator_steps(*old(g)).push(
            GenStep::CoverImage(path@, data@, media_type@),
        ),
{
    g.builder.add_cover_image(path, data, media_type).map(|_| ()).map_err(|e| e.to_string())
}

/// `EpubBuilder::stylesheet(data)`, or the error's message; on success the
/// stylesheet is recorded as accepted.
#[verifier::external_body]
pub(crate) fn generator_stylesheet(g: &mut Generator, data: &[u8]) -> (r: Result<(), String>)
    ensures
        r is Ok ==> generator_steps(*final(g)) == generator_steps(*old(g)).push(
            GenStep::Stylesheet(data@),
        ),
{
    g.builder.stylesheet(data).map(|_| ()).map_err(|e| e.to_string())
}

/// `EpubBuilder::add_resource(path, data, media_type)`, or the error's
/// message; on success the resource is recorded as accepted.
#[verifier::external_body]
pub(crate) fn generator_resource(g: &mut Generator, path: &str, data: &[u8], media_type: &str) -> (r:
    Result<(), String>)
    ensures
        r is Ok ==> generator_steps(*final(g)) == generator_steps(*old(g)).push(
            GenStep::Resource(path@, data@, media_type@),
        ),
{
    g.builder.add_resource(path, data, media_type).map(|_| ()).map_err(|e| e.to_string())
}

/// `EpubBuilder::add_content` with the content whose data is `data` and
/// whose TOC element is `entry` (what `EpubContent::new(url, data)` with
/// `title` and `child` calls builds), or the error's message; on success
/// the content, with what `toc_entry` gives of its element, is recorded as
/// accepted. It fails exactly when the builder refuses the file
/// (`refuses_content`), and then accepts nothing.
#[verifier::external_body]
pub(crate) fn generator_content(g: &mut Generator, entry: epub_builder::TocElement, data: &[u8]) -> (r:
    Result<(), String>)
    ensures
        r is Ok ==> generator_steps(*final(g)) == generator_steps(*old(g)).push(
            GenStep::Content(toc_entry(entry), data@),
        ),
        r is Err <==> refuses_content(*old(g), toc_entry(entry).href, data@),
        r is Err ==> generator_steps(*final(g)) == generator_steps(*old(g)),
{
    let content = epub_builder::EpubContent { toc: entry, content: data, reftype: None };
    g.builder.add_content(content).map(|_| ()).map_err(|e| e.to_string())
}

/// A file path that the builder stores as `OEBPS/` followed by the path
/// (`Path::join` keeps it as it is): not empty and not starting with `/`.
pub open spec fn plain_path(p: Seq<char>) -> bool {
    p.len() > 0 && p[0] != '/'
}

/// The file a step hands the builder, as its path and data.
pub open spec fn step_file(s: GenStep) -> Option<(Seq<char>, Seq<u8>)> {
    match s {
        GenStep::Content(nav, d) => Some((nav.href, d)),
        GenStep::Resource(p, d, _) => Some((p, d)),
        GenStep::CoverImage(p, d, _) => Some((p, d)),
        GenStep::Stylesheet(d) => Some(("stylesheet.css"@, d)),
        _ => None,
    }
}

/// The archive lists an entry of that name.
pub open spec fn zip_listed(b: Seq<u8>, name: Seq<char>) -> bool {
    zip_count(b) matches Ok(n) && exists|j: nat| j < n && #[trigger] zip_name(b, j) == Ok::<
        Seq<char>,
        Seq<char>,
    >(name)
}

/// What an archive generated from `steps` holds: its container names
/// `OEBPS/content.opf` as the package document, and every file a step handed
/// over under a plain path is listed at `OEBPS/` followed by the path and
/// reads back unchanged.
pub open spec fn stores_files(b: Seq<u8>, steps: Seq<GenStep>) -> bool {
    &&& container_opf_path(b) == Ok::<Seq<char>, crate::error::ErrorV>("OEBPS/content.opf"@)
    &&& forall|k: int| 0 <= k < steps.len() ==> #[trigger] stored_at(b, steps[k])
}

/// The file the step handed over, if any and under a plain path, is listed
/// at `OEBPS/` followed by its path and reads back unchanged.
pub open spec fn stored_at(b: Seq<u8>, s: GenStep) -> bool {
    match step_file(s) {
        Some(f) => plain_path(f.0) ==> zip_entry(b, "OEBPS/"@ + f.0) == ZipReadV::Found(f.1)
            && zip_listed(b, "OEBPS/"@ + f.0),
        None => true,
    }
}

/// `EpubBuilder::generate` into a byte buffer, or the error's message; the
/// bytes are an archive generated from what the builder accepted. Its
/// container is epub-builder's template, naming `OEBPS/content.opf`; each
/// content, resource, cover image and stylesheet was written with
/// `ZipLibrary::write_file` at `OEBPS/` joined with its path, and reads back
/// unchanged (a second file at the same name would have been refused).
#[verifier::external_body]
pub(crate) fn generator_generate(g: Generator) -> (r: Result<Vec<u8>, String>)
    ensures
        r matches Ok(b) ==> generated_from(b@, generator_steps(g)),
        r matches Ok(b) ==> stores_files(b@, generator_steps(g)),
{
    let mut out: Vec<u8> = Vec::new();
    match g.builder.generate(&mut out) {
        Ok(()) => Ok(out),
        Err(e) => Err(e.to_string()),
    }
}

} // verus!
