use langelic_epub::error::AppError;
use langelic_epub::reader::parse;
use langelic_epub::types::{Asset, Bytes, Chapter, Document, ErrorKind, NavItem};
use langelic_epub::writer::{
    add_dir_and_lang_to_html, build, build_extra_dc_xml, fix_language_id_collision,
    has_viewport_meta, remove_attr, renumber_ncx_play_order, rewrite_opf_metadata,
    set_play_order, set_spine_direction, strip_empty_landmarks_nav, validate,
};

fn chapter(id: &str, file: &str, title: Option<&str>, body: &str) -> Chapter {
    Chapter {
        id: id.to_string(),
        file_name: file.to_string(),
        title: title.map(|t| t.to_string()),
        media_type: "application/xhtml+xml".to_string(),
        data: Bytes(body.as_bytes().to_vec()),
    }
}

fn xhtml(title: &str, text: &str) -> String {
    format!(
        "<?xml version=\"1.0\" encoding=\"UTF-8\"?>\n<html xmlns=\"http://www.w3.org/1999/xhtml\"><head><title>{}</title></head><body><p>{}</p></body></html>",
        title, text
    )
}

fn nav(title: &str, href: &str, children: Vec<NavItem>) -> NavItem {
    NavItem { title: title.to_string(), href: href.to_string(), children }
}

fn document() -> Document {
    Document {
        title: "A Book".to_string(),
        creators: vec!["Ann Author".to_string(), "Bob Writer".to_string()],
        language: Some("en".to_string()),
        identifier: "isbn:9780000000000".to_string(),
        publisher: Some("Pub and Co".to_string()),
        date: Some("2024-01-02".to_string()),
        description: Some("About things".to_string()),
        rights: Some("CC0".to_string()),
        metadata: vec![("subject".to_string(), vec!["Fiction".to_string(), "Tests".to_string()])],
        spine: vec![
            chapter("c1", "ch1.xhtml", Some("First"), &xhtml("First", "one")),
            chapter("c2", "ch2.xhtml", None, &xhtml("", "two")),
        ],
        assets: vec![
            Asset {
                id: "css".to_string(),
                file_name: "style.css".to_string(),
                media_type: "text/css".to_string(),
                data: Bytes(b"p { color: black }".to_vec()),
            },
            Asset {
                id: "cover".to_string(),
                file_name: "images/cover.png".to_string(),
                media_type: "image/png".to_string(),
                data: Bytes(vec![0x89, 0x50, 0x4e, 0x47]),
            },
        ],
        toc: vec![
            nav("First", "ch1.xhtml", vec![nav("Part A", "ch1.xhtml#a", vec![])]),
            nav("Second", "ch2.xhtml", vec![]),
        ],
        cover_asset_id: Some("cover".to_string()),
        version: "3.0".to_string(),
        page_progression_direction: None,
        rendition_layout: None,
    }
}

fn read_entry(archive: &[u8], name: &str) -> String {
    let mut a = zip::ZipArchive::new(std::io::Cursor::new(archive)).unwrap();
    let mut f = a.by_name(name).unwrap();
    let mut s = String::new();
    std::io::Read::read_to_string(&mut f, &mut s).unwrap();
    s
}

#[test]
fn build_then_parse_round_trips_the_document() {
    let doc = document();
    let bytes = match build(&doc) {
        Ok(b) => b,
        Err(e) => panic!("build failed: {:?}", e),
    };
    let back = match parse(&bytes) {
        Ok(d) => d,
        Err(e) => panic!("parse failed: {:?}", e),
    };
    assert_eq!(back.title, "A Book");
    assert_eq!(back.identifier, "isbn:9780000000000");
    assert_eq!(back.language.as_deref(), Some("en"));
    assert_eq!(back.creators, vec!["Ann Author".to_string(), "Bob Writer".to_string()]);
    assert_eq!(back.publisher.as_deref(), Some("Pub and Co"));
    assert_eq!(back.date.as_deref(), Some("2024-01-02"));
    assert_eq!(back.rights.as_deref(), Some("CC0"));
    assert_eq!(back.description.as_deref(), Some("About things"));
    let files: Vec<&str> = back.spine.iter().map(|c| c.file_name.as_str()).collect();
    assert_eq!(files, vec!["ch1.xhtml", "ch2.xhtml"]);
    assert_eq!(back.spine[0].data.0, doc.spine[0].data.0);
    assert_eq!(back.spine[1].data.0, doc.spine[1].data.0);
    let subjects = back.metadata.iter().find(|(k, _)| k == "subject").map(|(_, v)| v.clone());
    assert_eq!(subjects, Some(vec!["Fiction".to_string(), "Tests".to_string()]));
    let cover = back.cover_asset_id.clone().expect("cover kept");
    let cover_asset = back.assets.iter().find(|a| a.id == cover).expect("cover is an asset");
    assert_eq!(cover_asset.file_name, "images/cover.png");
    assert_eq!(back.page_progression_direction, None);
}

#[test]
fn build_gives_untitled_chapters_a_toc_title() {
    let bytes = build(&document()).unwrap();
    let back = parse(&bytes).unwrap();
    let titles: Vec<&str> = back.toc.iter().map(|n| n.title.as_str()).collect();
    assert_eq!(titles, vec!["First", "Second"]);
    assert_eq!(back.toc[0].children.len(), 1);
    assert_eq!(back.toc[0].children[0].title, "Part A");
}

#[test]
fn build_falls_back_to_positional_titles() {
    let mut doc = document();
    doc.toc = vec![];
    doc.spine[0].title = Some(String::new());
    let bytes = build(&doc).unwrap();
    let back = parse(&bytes).unwrap();
    let titles: Vec<&str> = back.toc.iter().map(|n| n.title.as_str()).collect();
    assert_eq!(titles, vec!["Chapter 1", "Chapter 2"]);
}

#[test]
fn build_sets_and_strips_spine_direction() {
    let mut doc = document();
    let bytes = build(&doc).unwrap();
    let opf = read_entry(&bytes, "OEBPS/content.opf");
    assert!(!opf.contains("page-progression-direction"));

    doc.page_progression_direction = Some("rtl".to_string());
    doc.language = Some("ar".to_string());
    let bytes = build(&doc).unwrap();
    let opf = read_entry(&bytes, "OEBPS/content.opf");
    assert!(opf.contains("page-progression-direction=\"rtl\""));
    let nav = read_entry(&bytes, "OEBPS/nav.xhtml");
    assert!(nav.contains("dir=\"rtl\""));
    assert!(nav.contains("lang=\"ar\""));
}

#[test]
fn build_keeps_identifier_verbatim_and_injects_metadata() {
    let mut doc = document();
    doc.publisher = Some("Pub & Co".to_string());
    let bytes = build(&doc).unwrap();
    let opf = read_entry(&bytes, "OEBPS/content.opf");
    assert!(opf.contains(">isbn:9780000000000</dc:identifier>"));
    assert!(opf.contains("<dc:publisher>Pub &amp; Co</dc:publisher>"));
    assert!(opf.contains("<dc:rights>CC0</dc:rights>"));
    assert!(!opf.contains("<dc:language id=\"epub-creator-"));
}

#[test]
fn build_writes_no_empty_landmarks_nav() {
    let bytes = build(&document()).unwrap();
    let nav = read_entry(&bytes, "OEBPS/nav.xhtml");
    assert!(!nav.contains("landmarks"));
}

#[test]
fn build_shares_play_order_for_repeated_targets() {
    let mut doc = document();
    doc.toc = vec![
        nav("First", "ch1.xhtml", vec![nav("Again", "ch2.xhtml", vec![])]),
        nav("Second", "ch2.xhtml", vec![]),
    ];
    let bytes = build(&doc).unwrap();
    let ncx = read_entry(&bytes, "OEBPS/toc.ncx");
    let renumbered = renumber_ncx_play_order(&ncx);
    assert_eq!(renumbered, ncx);
}

#[test]
fn build_writes_rendition_layout() {
    let mut doc = document();
    doc.rendition_layout = Some("pre-paginated".to_string());
    let with_viewport = "<html><head><meta name=\"viewport\" content=\"width=100\"/></head><body/></html>";
    doc.spine[0].data = Bytes(with_viewport.as_bytes().to_vec());
    doc.spine[1].data = Bytes(with_viewport.as_bytes().to_vec());
    let bytes = build(&doc).unwrap();
    let opf = read_entry(&bytes, "OEBPS/content.opf");
    assert!(opf.contains("<meta property=\"rendition:layout\">pre-paginated</meta>"));
}

#[test]
fn validate_reports_missing_fields() {
    let mut doc = document();
    doc.title = String::new();
    match validate(&doc) {
        Err(AppError::MissingRequiredField(f)) => assert_eq!(f, "title"),
        other => panic!("unexpected {:?}", other),
    }
    let mut doc = document();
    doc.identifier = String::new();
    match validate(&doc) {
        Err(AppError::MissingRequiredField(f)) => assert_eq!(f, "identifier"),
        other => panic!("unexpected {:?}", other),
    }
    let mut doc = document();
    doc.language = Some(String::new());
    match validate(&doc) {
        Err(AppError::MissingRequiredField(f)) => assert_eq!(f, "language"),
        other => panic!("unexpected {:?}", other),
    }
}

#[test]
fn validate_reports_bad_direction_and_layout() {
    let mut doc = document();
    doc.page_progression_direction = Some("up".to_string());
    match validate(&doc) {
        Err(e) => assert_eq!(e.kind(), ErrorKind::InvalidPageDirection),
        Ok(()) => panic!("accepted a bad direction"),
    }
    let mut doc = document();
    doc.rendition_layout = Some("scrolled".to_string());
    match validate(&doc) {
        Err(e) => assert_eq!(e.kind(), ErrorKind::InvalidRenditionLayout),
        Ok(()) => panic!("accepted a bad layout"),
    }
}

#[test]
fn validate_reports_duplicate_ids_and_bad_chapters() {
    let mut doc = document();
    doc.assets[0].id = "c1".to_string();
    match validate(&doc) {
        Err(AppError::DuplicateId(id)) => assert_eq!(id, "c1"),
        other => panic!("unexpected {:?}", other),
    }
    let mut doc = document();
    doc.spine[1].data = Bytes(vec![0xff, 0xfe]);
    match validate(&doc) {
        Err(AppError::InvalidChapter(id, m)) => {
            assert_eq!(id, "c2");
            assert_eq!(m, "data is not valid UTF-8");
        },
        other => panic!("unexpected {:?}", other),
    }
    let mut doc = document();
    doc.rendition_layout = Some("pre-paginated".to_string());
    match validate(&doc) {
        Err(AppError::MissingViewport(id)) => assert_eq!(id, "c1"),
        other => panic!("unexpected {:?}", other),
    }
    assert!(validate(&document()).is_ok());
}

#[test]
fn build_refuses_invalid_documents() {
    let mut doc = document();
    doc.language = None;
    match build(&doc) {
        Err(e) => assert_eq!(e.kind(), ErrorKind::MissingRequiredField),
        Ok(_) => panic!("built without a language"),
    }
}

#[test]
fn viewport_meta_is_found_in_either_quote_style() {
    assert!(has_viewport_meta("<meta charset=\"utf-8\"/><meta content=\"w\" name='viewport'>"));
    assert!(has_viewport_meta("<meta name=\"viewport\" content=\"x\">"));
    assert!(!has_viewport_meta("<meta name=\"author\">viewport"));
    assert!(!has_viewport_meta("<meta name=\"viewport\""));
}

#[test]
fn remove_attr_drops_attribute_and_leading_space() {
    assert_eq!(remove_attr(" toc=\"ncx\" page-progression-direction=\"ltr\"", "page-progression-direction"), " toc=\"ncx\"");
    assert_eq!(remove_attr(" a=\"1\"", "b"), " a=\"1\"");
    assert_eq!(remove_attr(" b=\"1", "b"), " b=\"1");
}

#[test]
fn set_spine_direction_rewrites_attribute() {
    let mut doc = document();
    let opf = "<package><spine toc=\"ncx\" page-progression-direction=\"ltr\">\n</spine></package>";
    assert_eq!(set_spine_direction(opf, &doc), "<package><spine toc=\"ncx\">\n</spine></package>");
    doc.page_progression_direction = Some("rtl".to_string());
    assert_eq!(
        set_spine_direction(opf, &doc),
        "<package><spine toc=\"ncx\" page-progression-direction=\"rtl\">\n</spine></package>"
    );
    assert_eq!(set_spine_direction("<package/>", &doc), "<package/>");
}

#[test]
fn set_play_order_replaces_or_inserts() {
    assert_eq!(set_play_order("<navPoint id=\"n\" playOrder=\"7\">", 2), "<navPoint id=\"n\" playOrder=\"2\">");
    assert_eq!(set_play_order("<navPoint id=\"n\">", 12), "<navPoint playOrder=\"12\" id=\"n\">");
}

#[test]
fn renumber_ncx_shares_numbers_by_first_appearance() {
    let ncx = ["<navMap>", "<navPoint id=\"a\" playOrder=\"1\"><content src=\"x.xhtml\"/>", "<navPoint id=\"b\" playOrder=\"2\"><content src=\"y.xhtml\"/></navPoint>", "</navPoint>", "<navPoint id=\"c\" playOrder=\"3\"><content src=\"y.xhtml\"/></navPoint>", "<navPoint id=\"d\" playOrder=\"4\"><content src=\"z.xhtml\"/></navPoint>", "</navMap>"].join("");
    let expected = ["<navMap>", "<navPoint id=\"a\" playOrder=\"1\"><content src=\"x.xhtml\"/>", "<navPoint id=\"b\" playOrder=\"2\"><content src=\"y.xhtml\"/></navPoint>", "</navPoint>", "<navPoint id=\"c\" playOrder=\"2\"><content src=\"y.xhtml\"/></navPoint>", "<navPoint id=\"d\" playOrder=\"3\"><content src=\"z.xhtml\"/></navPoint>", "</navMap>"].join("");
    assert_eq!(renumber_ncx_play_order(&ncx), expected);
}

#[test]
fn add_dir_and_lang_orients_root() {
    assert_eq!(
        add_dir_and_lang_to_html("<html xmlns=\"x\"><body/></html>", "rtl", Some("he")),
        "<html dir=\"rtl\" xml:lang=\"he\" lang=\"he\" xmlns=\"x\"><body/></html>"
    );
}

#[test]
fn fix_language_id_collision_renames_language_ids() {
    let opf = "<dc:creator id=\"epub-creator-1\">A</dc:creator><dc:language id=\"epub-creator-1\">en</dc:language>";
    let fixed = fix_language_id_collision(opf);
    assert!(fixed.contains("<dc:creator id=\"epub-creator-1\">A</dc:creator>"));
    assert!(!fixed.contains("<dc:language id=\"epub-creator-1\">"));
    assert!(fixed.contains("<dc:language id=\"epub-lang-1\">en</dc:language>"));
}

#[test]
fn strip_empty_landmarks_keeps_real_entries() {
    let empty = "<body>\n  <nav epub:type=\"landmarks\">\n    <ol>\n    </ol>\n  </nav>\n  <nav epub:type=\"toc\"><ol><li>x</li></ol></nav>\n</body>";
    assert_eq!(
        strip_empty_landmarks_nav(empty),
        "<body>\n  <nav epub:type=\"toc\"><ol><li>x</li></ol></nav>\n</body>"
    );
    let full = "<nav epub:type=\"landmarks\"><ol><li><a href=\"c.xhtml\">C</a></li></ol></nav>";
    assert_eq!(strip_empty_landmarks_nav(full), full);
}

#[test]
fn extra_dc_xml_lists_missing_elements_escaped() {
    let mut doc = document();
    doc.publisher = Some("Pub & Co".to_string());
    let xml = build_extra_dc_xml(&doc);
    assert!(xml.contains("<dc:publisher>Pub &amp; Co</dc:publisher>"));
    assert!(xml.contains("<dc:date>2024-01-02</dc:date>"));
    assert!(xml.contains("<dc:rights>CC0</dc:rights>"));
    assert!(xml.contains("<dc:subject>Fiction</dc:subject>"));
    assert!(xml.contains("<dc:subject>Tests</dc:subject>"));
}

#[test]
fn rewrite_opf_replaces_identifier_and_injects_before_metadata_end() {
    let mut doc = document();
    doc.publisher = Some("Pub & Co".to_string());
    let opf = "<metadata><dc:identifier id=\"epub-id-1\">urn:uuid:x</dc:identifier>\n</metadata><spine page-progression-direction=\"ltr\"></spine>";
    let out = rewrite_opf_metadata(opf, &doc);
    assert!(out.starts_with("<metadata><dc:identifier id=\"epub-id-1\">isbn:9780000000000</dc:identifier>\n"));
    assert!(out.contains("<dc:publisher>Pub &amp; Co</dc:publisher>"));
    assert!(out.ends_with("</metadata><spine></spine>"));
}

#[test]
fn remove_attr_matches_whole_attribute_names_only() {
    assert_eq!(remove_attr(r#" ab="1""#, "b"), r#" ab="1""#);
    assert_eq!(remove_attr(r#" ab="1" b="2""#, "b"), r#" ab="1""#);
    assert_eq!(remove_attr(r#"b="2" c="3""#, "b"), r#" c="3""#);
}

#[test]
fn build_uses_the_toc_title_for_an_empty_chapter_title() {
    let mut doc = document();
    doc.spine[0].title = Some(String::new());
    doc.toc = vec![nav("Intro", "ch1.xhtml", vec![])];
    let bytes = build(&doc).unwrap();
    let back = parse(&bytes).unwrap();
    let titles: Vec<&str> = back.toc.iter().map(|n| n.title.as_str()).collect();
    assert_eq!(titles, vec!["Intro", "Chapter 2"]);
}

#[test]
fn validate_rejects_chapters_that_are_not_well_formed() {
    let mut doc = document();
    doc.spine[1].data = Bytes(b"<p>unclosed".to_vec());
    match validate(&doc) {
        Err(AppError::InvalidChapter(id, m)) => {
            assert_eq!(id, "c2");
            assert_eq!(m, "data is not well-formed XHTML");
        },
        other => panic!("unexpected {:?}", other),
    }
    doc.spine[1].data = Bytes(b"<p>a</q>".to_vec());
    assert!(matches!(validate(&doc), Err(AppError::InvalidChapter(_, _))));
    doc.spine[1].data = Bytes(b"<p>a</p>".to_vec());
    assert!(validate(&doc).is_ok());
}

#[test]
fn fixing_language_ids_twice_changes_nothing_more() {
    let opf = r#"<metadata><dc:creator id="epub-creator-1">A</dc:creator><dc:language id="epub-creator-2">en</dc:language><dc:language id="epub-creator-3" >fr</dc:language></metadata>"#;
    let once = fix_language_id_collision(opf);
    assert_eq!(
        once,
        r#"<metadata><dc:creator id="epub-creator-1">A</dc:creator><dc:language id="epub-lang-2">en</dc:language><dc:language id="epub-lang-3" >fr</dc:language></metadata>"#
    );
    assert_eq!(fix_language_id_collision(&once), once);
}

#[test]
fn build_stores_each_chapter_unchanged() {
    let doc = document();
    let bytes = build(&doc).unwrap();
    for ch in &doc.spine {
        let stored = read_entry(&bytes, &format!("OEBPS/{}", ch.file_name));
        assert_eq!(stored.as_bytes(), &ch.data.0[..]);
    }
}
