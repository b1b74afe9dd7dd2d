//! The document model exchanged with callers: a parsed or buildable EPUB.

use crate::text::strs;
use vstd::prelude::*;

verus! {

/// Raw file contents (chapter XHTML, images, fonts, ...).
#[derive(Clone, Debug)]
pub struct Bytes(pub Vec<u8>);

/// A chapter in the spine. `data` holds the raw XHTML bytes.
#[derive(Clone, Debug)]
pub struct Chapter {
    pub id: String,
    pub file_name: String,
    pub title: Option<String>,
    pub media_type: String,
    pub data: Bytes,
}

/// A non-chapter resource: CSS, font, image, or other.
#[derive(Clone, Debug)]
pub struct Asset {
    pub id: String,
    pub file_name: String,
    pub media_type: String,
    pub data: Bytes,
}

/// A node in the table of contents. May contain nested children.
#[derive(Debug)]
pub struct NavItem {
    pub title: String,
    pub href: String,
    pub children: Vec<NavItem>,
}

/// A chapter as plain values.
pub struct ChapterV {
    pub id: Seq<char>,
    pub file_name: Seq<char>,
    pub title: Option<Seq<char>>,
    pub media_type: Seq<char>,
    pub data: Seq<u8>,
}

impl View for Chapter {
    type V = ChapterV;

    open spec fn view(&self) -> ChapterV {
        ChapterV {
            id: self.id@,
            file_name: self.file_name@,
            title: opt_view(self.title),
            media_type: self.media_type@,
            data: self.data.0@,
        }
    }
}

/// An asset as plain values.
pub struct AssetV {
    pub id: Seq<char>,
    pub file_name: Seq<char>,
    pub media_type: Seq<char>,
    pub data: Seq<u8>,
}

impl View for Asset {
    type V = AssetV;

    open spec fn view(&self) -> AssetV {
        AssetV {
            id: self.id@,
            file_name: self.file_name@,
            media_type: self.media_type@,
            data: self.data.0@,
        }
    }
}

pub open spec fn chapters_view(v: Seq<Chapter>) -> Seq<ChapterV> {
    Seq::new(v.len(), |i: int| v[i]@)
}

pub open spec fn assets_view(v: Seq<Asset>) -> Seq<AssetV> {
    Seq::new(v.len(), |i: int| v[i]@)
}

/// A table-of-contents node as plain values.
pub struct NavV {
    pub title: Seq<char>,
    pub href: Seq<char>,
    pub children: Seq<NavV>,
}

/// The views of a list of TOC nodes.
pub open spec fn navs_view(v: Seq<NavItem>) -> Seq<NavV>
    decreases v, 0nat,
{
    if v.len() == 0 {
        Seq::empty()
    } else {
        navs_view(v.drop_last()).push(nav_view(v.last()))
    }
}

/// The view of one TOC node.
pub open spec fn nav_view(n: NavItem) -> NavV
    decreases n, 1nat,
{
    NavV { title: n.title@, href: n.href@, children: navs_view(n.children@) }
}

impl View for NavItem {
    type V = NavV;

    open spec fn view(&self) -> NavV {
        nav_view(*self)
    }
}

/// An EPUB document: metadata, spine (reading order), assets and TOC.
///
/// `metadata` holds the other Dublin Core entries as `(name, values)` pairs,
/// each name at most once, in the order in which they were first seen.
#[derive(Debug)]
pub struct Document {
    pub title: String,
    pub creators: Vec<String>,
    pub language: Option<String>,
    pub identifier: String,
    pub publisher: Option<String>,
    pub date: Option<String>,
    pub description: Option<String>,
    pub rights: Option<String>,
    pub metadata: Vec<(String, Vec<String>)>,
    pub spine: Vec<Chapter>,
    pub assets: Vec<Asset>,
    pub toc: Vec<NavItem>,
    pub cover_asset_id: Option<String>,
    pub version: String,
    pub page_progression_direction: Option<String>,
    pub rendition_layout: Option<String>,
}

/// A document as plain values.
pub struct DocV {
    pub title: Seq<char>,
    pub creators: Seq<Seq<char>>,
    pub language: Option<Seq<char>>,
    pub identifier: Seq<char>,
    pub publisher: Option<Seq<char>>,
    pub date: Option<Seq<char>>,
    pub description: Option<Seq<char>>,
    pub rights: Option<Seq<char>>,
    pub metadata: Seq<(Seq<char>, Seq<Seq<char>>)>,
    pub spine: Seq<ChapterV>,
    pub assets: Seq<AssetV>,
    pub toc: Seq<NavV>,
    pub cover_asset_id: Option<Seq<char>>,
    pub version: Seq<char>,
    pub page_progression_direction: Option<Seq<char>>,
    pub rendition_layout: Option<Seq<char>>,
}

/// The views of `(name, values)` metadata pairs.
pub open spec fn metadata_view(m: Seq<(String, Vec<String>)>) -> Seq<(Seq<char>, Seq<Seq<char>>)> {
    Seq::new(m.len(), |i: int| (m[i].0@, strs(m[i].1@)))
}

impl View for Document {
    type V = DocV;

    open spec fn view(&self) -> DocV {
        DocV {
            title: self.title@,
            creators: strs(self.creators@),
            language: opt_view(self.language),
            identifier: self.identifier@,
            publisher: opt_view(self.publisher),
            date: opt_view(self.date),
            description: opt_view(self.description),
            rights: opt_view(self.rights),
            metadata: metadata_view(self.metadata@),
            spine: chapters_view(self.spine@),
            assets: assets_view(self.assets@),
            toc: navs_view(self.toc@),
            cover_asset_id: opt_view(self.cover_asset_id),
            version: self.version@,
            page_progression_direction: opt_view(self.page_progression_direction),
            rendition_layout: opt_view(self.rendition_layout),
        }
    }
}

/// The class of an error, as reported to callers.
#[derive(Debug, Clone, Copy, PartialEq, Eq, Structural)]
pub enum ErrorKind {
    InvalidZip,
    InvalidMimetype,
    MissingContainer,
    MissingOpf,
    MalformedOpf,
    Io,
    InvalidChapter,
    MissingRequiredField,
    DuplicateId,
    Panic,
    InvalidPageDirection,
    InvalidRenditionLayout,
    MissingViewport,
}

/// The view of an optional string.
pub open spec fn opt_view(o: Option<String>) -> Option<Seq<char>> {
    match o {
        Some(s) => Some(s@),
        None => None,
    }
}

} // verus!
