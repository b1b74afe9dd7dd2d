use langelic_epub::error::AppError;
use langelic_epub::opf::{check_mimetype, extract_from_zip, find_opf_path, parse_extras};
use langelic_epub::reader::{extract_xhtml_title, parse};
use langelic_epub::types::{Document, ErrorKind, NavItem};

fn zip_of(entries: &[(&str, &[u8])]) -> Vec<u8> {
    let mut w = zip::ZipWriter::new(std::io::Cursor::new(Vec::new()));
    for (name, data) in entries {
        let opts = zip::write::SimpleFileOptions::default()
            .compression_method(zip::CompressionMethod::Stored);
        w.start_file(*name, opts).unwrap();
        std::io::Write::write_all(&mut w, data).unwrap();
    }
    w.finish().unwrap().into_inner()
}

const CONTAINER: &str = r#"<?xml version="1.0"?>
<container version="1.0" xmlns="urn:oasis:names:tc:opendocument:xmlns:container">
  <rootfiles>
    <rootfile full-path="OEBPS/content.opf" media-type="application/oebps-package+xml"/>
  </rootfiles>
</container>"#;

const OPF3: &str = r#"<?xml version="1.0" encoding="UTF-8"?>
<package xmlns="http://www.idpf.org/2007/opf" version="3.0" unique-identifier="bookid">
  <metadata xmlns:dc="http://purl.org/dc/elements/1.1/">
    <dc:identifier id="bookid">urn:isbn:9780000000000</dc:identifier>
    <dc:title>  The Hobbit </dc:title>
    <dc:title>Second title</dc:title>
    <dc:language>en</dc:language>
    <dc:creator>J. R. R. Tolkien</dc:creator>
    <dc:creator>Christopher Tolkien</dc:creator>
    <dc:creator>   </dc:creator>
    <dc:rights>All rights reserved</dc:rights>
    <dc:publisher>Allen&#x26;Unwin</dc:publisher>
    <dc:date>1937-09-21</dc:date>
    <dc:subject>Fantasy</dc:subject>
    <dc:subject>Adventure</dc:subject>
    <dc:contributor>Alan Lee</dc:contributor>
    <meta property="dcterms:modified">2020-01-01T00:00:00Z</meta>
  </metadata>
  <manifest>
    <item id="nav" href="nav.xhtml" media-type="application/xhtml+xml" properties="nav"/>
    <item id="c1" href="text/ch1.xhtml" media-type="application/xhtml+xml"/>
    <item id="c2" href="text/ch2.xhtml" media-type="application/xhtml+xml"/>
    <item id="css" href="style.css" media-type="text/css"/>
    <item id="cover-image" href="images/cover.png" media-type="image/png" properties="cover-image"/>
  </manifest>
  <spine>
    <itemref idref="c1"/>
    <itemref idref="c2"/>
    <itemref idref="c1"/>
    <itemref idref="missing"/>
  </spine>
</package>"#;

const NAV: &str = r#"<?xml version="1.0" encoding="UTF-8"?>
<html xmlns="http://www.w3.org/1999/xhtml" xmlns:epub="http://www.idpf.org/2007/ops">
<body>
  <nav epub:type="landmarks"><ol><li><a href="text/ch1.xhtml">Start</a></li></ol></nav>
  <nav epub:type="toc" id="toc">
    <ol>
      <li><a href="text/ch1.xhtml">Chapter &amp; One</a>
        <ol><li><a href="text/ch1.xhtml#s1">Section 1.1</a></li></ol>
      </li>
      <li><a href="text/ch2.xhtml">  Chapter Two </a></li>
    </ol>
  </nav>
</body>
</html>"#;

const CH1: &str = r#"<?xml version="1.0" encoding="UTF-8"?>
<html xmlns="http://www.w3.org/1999/xhtml"><head><title>One &amp; Only</title></head><body><p>1</p></body></html>"#;
const CH2: &str = r#"<?xml version="1.0" encoding="UTF-8"?>
<html xmlns="http://www.w3.org/1999/xhtml"><head><title>   </title></head><body><p>2</p></body></html>"#;

fn epub3_with_mimetype(mimetype: &[u8]) -> Vec<u8> {
    zip_of(&[
        ("mimetype", mimetype),
        ("META-INF/container.xml", CONTAINER.as_bytes()),
        ("OEBPS/content.opf", OPF3.as_bytes()),
        ("OEBPS/nav.xhtml", NAV.as_bytes()),
        ("OEBPS/text/ch1.xhtml", CH1.as_bytes()),
        ("OEBPS/text/ch2.xhtml", CH2.as_bytes()),
        ("OEBPS/style.css", b"p { margin: 0 }"),
        ("OEBPS/images/cover.png", &[0x89, 0x50, 0x4e, 0x47]),
    ])
}

fn epub3() -> Vec<u8> {
    epub3_with_mimetype(b"application/epub+zip")
}

fn parsed_ok(bytes: &[u8]) -> Document {
    match parse(bytes) {
        Ok(d) => d,
        Err(e) => panic!("parse failed: {:?}", e),
    }
}

#[test]
fn parse_reads_metadata_with_first_value_winning() {
    let doc = parsed_ok(&epub3());
    assert_eq!(doc.title, "The Hobbit");
    assert_eq!(doc.identifier, "urn:isbn:9780000000000");
    assert_eq!(doc.language.as_deref(), Some("en"));
    assert_eq!(doc.creators, vec!["J. R. R. Tolkien".to_string(), "Christopher Tolkien".to_string()]);
    assert_eq!(doc.rights.as_deref(), Some("All rights reserved"));
    assert_eq!(doc.publisher.as_deref(), Some("Allen&Unwin"));
    assert_eq!(doc.date.as_deref(), Some("1937-09-21"));
    assert_eq!(doc.description, None);
    assert_eq!(doc.version, "3.0");
    assert_eq!(doc.page_progression_direction, None);
    assert_eq!(doc.rendition_layout, None);
}

#[test]
fn parse_collects_other_dublin_core_in_first_seen_order() {
    let doc = parsed_ok(&epub3());
    assert_eq!(doc.metadata.len(), 2);
    assert_eq!(doc.metadata[0].0, "subject");
    assert_eq!(doc.metadata[0].1, vec!["Fantasy".to_string(), "Adventure".to_string()]);
    assert_eq!(doc.metadata[1].0, "contributor");
    assert_eq!(doc.metadata[1].1, vec!["Alan Lee".to_string()]);
}

#[test]
fn parse_builds_spine_once_per_file_in_order() {
    let doc = parsed_ok(&epub3());
    assert_eq!(doc.spine.len(), 2);
    assert_eq!(doc.spine[0].id, "c1");
    assert_eq!(doc.spine[0].file_name, "text/ch1.xhtml");
    assert_eq!(doc.spine[0].title.as_deref(), Some("One & Only"));
    assert_eq!(doc.spine[0].media_type, "application/xhtml+xml");
    assert_eq!(doc.spine[0].data.0, CH1.as_bytes().to_vec());
    assert_eq!(doc.spine[1].id, "c2");
    assert_eq!(doc.spine[1].title, None);
}

#[test]
fn parse_keeps_assets_apart_from_chapters_and_toc() {
    let doc = parsed_ok(&epub3());
    let ids: Vec<&str> = doc.assets.iter().map(|a| a.id.as_str()).collect();
    assert_eq!(ids, vec!["css", "cover-image"]);
    assert_eq!(doc.assets[0].file_name, "style.css");
    assert_eq!(doc.assets[0].data.0, b"p { margin: 0 }".to_vec());
    assert_eq!(doc.assets[1].media_type, "image/png");
    for a in &doc.assets {
        for c in &doc.spine {
            assert_ne!(a.file_name, c.file_name);
            assert_ne!(a.id, c.id);
        }
    }
}

#[test]
fn parse_resolves_cover_from_cover_image_property() {
    let doc = parsed_ok(&epub3());
    assert_eq!(doc.cover_asset_id.as_deref(), Some("cover-image"));
}

fn titles(items: &[NavItem]) -> Vec<String> {
    items.iter().map(|n| n.title.clone()).collect()
}

#[test]
fn parse_reads_toc_from_the_toc_nav_only() {
    let doc = parsed_ok(&epub3());
    assert_eq!(titles(&doc.toc), vec!["Chapter & One".to_string(), "Chapter Two".to_string()]);
    assert_eq!(doc.toc[0].href, "text/ch1.xhtml");
    assert_eq!(doc.toc[0].children.len(), 1);
    assert_eq!(doc.toc[0].children[0].href, "text/ch1.xhtml#s1");
    assert_eq!(doc.toc[0].children[0].title, "Section 1.1");
    assert_eq!(doc.toc[1].href, "text/ch2.xhtml");
    assert!(doc.toc[1].children.is_empty());
}

#[test]
fn lenient_mimetype_accepts_trailing_whitespace_and_bom() {
    for m in [
        &b"application/epub+zip\n"[..],
        &b"application/epub+zip\r\n"[..],
        &b"application/epub+zip "[..],
        &b"\xEF\xBB\xBFapplication/epub+zip"[..],
    ] {
        let doc = parsed_ok(&epub3_with_mimetype(m));
        assert_eq!(doc.spine.len(), 2);
    }
}

#[test]
fn wrong_mimetype_is_invalid_mimetype() {
    match parse(&epub3_with_mimetype(b"application/zip")) {
        Err(e) => {
            assert_eq!(e.kind(), ErrorKind::InvalidMimetype);
            match e {
                AppError::InvalidMimetype(m) => {
                    assert_eq!(m, "expected \"application/epub+zip\", got \"application/zip\"")
                },
                _ => panic!("wrong variant"),
            }
        },
        Ok(_) => panic!("accepted a wrong mimetype"),
    }
}

#[test]
fn random_mimetype_bytes_are_invalid_mimetype() {
    match parse(&epub3_with_mimetype(&[0x00, 0xff, 0x13, 0x37, 0xfe])) {
        Err(e) => assert_eq!(e.kind(), ErrorKind::InvalidMimetype),
        Ok(_) => panic!("accepted random mimetype bytes"),
    }
}

#[test]
fn missing_mimetype_is_invalid_mimetype() {
    let bytes = zip_of(&[("META-INF/container.xml", CONTAINER.as_bytes())]);
    match parse(&bytes) {
        Err(e) => assert_eq!(e.kind(), ErrorKind::InvalidMimetype),
        Ok(_) => panic!("accepted an archive without mimetype"),
    }
}

#[test]
fn not_a_zip_is_invalid_zip() {
    match parse(b"this is not a zip archive") {
        Err(e) => assert_eq!(e.kind(), ErrorKind::InvalidZip),
        Ok(_) => panic!("accepted random bytes"),
    }
}

#[test]
fn missing_container_is_reported() {
    let bytes = zip_of(&[("mimetype", b"application/epub+zip")]);
    match parse(&bytes) {
        Err(e) => assert_eq!(e.kind(), ErrorKind::MissingContainer),
        Ok(_) => panic!("accepted an archive without container"),
    }
}

#[test]
fn missing_opf_is_reported_with_its_path() {
    let bytes = zip_of(&[
        ("mimetype", b"application/epub+zip"),
        ("META-INF/container.xml", CONTAINER.as_bytes()),
    ]);
    match parse(&bytes) {
        Err(AppError::MissingOpf(p)) => assert_eq!(p, "OEBPS/content.opf"),
        Err(e) => panic!("wrong error {:?}", e),
        Ok(_) => panic!("accepted an archive without OPF"),
    }
}

#[test]
fn missing_chapter_file_is_an_io_error() {
    let bytes = zip_of(&[
        ("mimetype", b"application/epub+zip"),
        ("META-INF/container.xml", CONTAINER.as_bytes()),
        ("OEBPS/content.opf", OPF3.as_bytes()),
    ]);
    match parse(&bytes) {
        Err(AppError::Io(m)) => assert!(m.starts_with("reading OEBPS/text/ch1.xhtml: ")),
        Err(e) => panic!("wrong error {:?}", e),
        Ok(_) => panic!("accepted an archive without chapters"),
    }
}

#[test]
fn malformed_opf_is_reported() {
    let bytes = zip_of(&[
        ("mimetype", b"application/epub+zip"),
        ("META-INF/container.xml", CONTAINER.as_bytes()),
        ("OEBPS/content.opf", b"<package><metadata></package>"),
    ]);
    match parse(&bytes) {
        Err(e) => assert_eq!(e.kind(), ErrorKind::MalformedOpf),
        Ok(_) => panic!("accepted a malformed OPF"),
    }
}

const OPF2_NS: &str = r#"<?xml version="1.0" encoding="utf-8"?>
<opf:package xmlns:opf="http://www.idpf.org/2007/opf" xmlns:dc="http://purl.org/dc/elements/1.1/" version="2.0" unique-identifier="bookid">
  <opf:metadata>
    <dc:identifier id="bookid">urn:uuid:e571c065-846f-4bb5-85fb-4d618eb425be</dc:identifier>
    <dc:language>en-GB</dc:language>
    <dc:title>There Is No Antimemetics Division</dc:title>
    <dc:creator opf:role="aut">qntm</dc:creator>
    <opf:meta name="cover" content="COVER_REF" />
  </opf:metadata>
  <opf:manifest>
    <opf:item id="ncxtoc" media-type="application/x-dtbncx+xml" href="toc.ncx" />
    <opf:item id="cover" media-type="application/xhtml+xml" href="cover.html" />
    <opf:item id="ch1" media-type="application/xhtml+xml" href="ch1.html" />
    <opf:item id="coverpng" media-type="image/png" href="images/cover.png" />
  </opf:manifest>
  <opf:spine toc="ncxtoc">
    <opf:itemref idref="cover" />
    <opf:itemref idref="ch1" />
  </opf:spine>
</opf:package>"#;

const NCX: &str = r#"<?xml version="1.0" encoding="UTF-8"?>
<ncx xmlns="http://www.daisy.org/z3986/2005/ncx/" version="2005-1">
  <docTitle><text>Ignored</text></docTitle>
  <navMap>
    <navPoint id="n1" playOrder="1">
      <navLabel><text>Cover</text></navLabel>
      <content src="cover.html"/>
    </navPoint>
    <navPoint id="n2" playOrder="2">
      <navLabel><text> One </text></navLabel>
      <content src="ch1.html#start"/>
      <navPoint id="n3" playOrder="3">
        <navLabel><text>One, part A</text></navLabel>
        <content src="ch1.html#a"/>
      </navPoint>
    </navPoint>
  </navMap>
</ncx>"#;

fn namespaced_epub2(cover_ref: &str) -> Vec<u8> {
    let opf = OPF2_NS.replace("COVER_REF", cover_ref);
    let container = CONTAINER.replace("OEBPS/content.opf", "content.opf");
    zip_of(&[
        ("mimetype", b"application/epub+zip"),
        ("META-INF/container.xml", container.as_bytes()),
        ("content.opf", opf.as_bytes()),
        ("toc.ncx", NCX.as_bytes()),
        ("cover.html", b"<html><head><title>Cover</title></head><body/></html>"),
        ("ch1.html", b"<html><head><title>One</title></head><body/></html>"),
        ("images/cover.png", &[1, 2, 3]),
    ])
}

#[test]
fn parse_namespaced_epub2_spine_in_declaration_order() {
    let doc = parsed_ok(&namespaced_epub2("coverpng"));
    let ids: Vec<&str> = doc.spine.iter().map(|c| c.id.as_str()).collect();
    assert_eq!(ids, vec!["cover", "ch1"]);
    assert_eq!(doc.spine[1].data.0, b"<html><head><title>One</title></head><body/></html>".to_vec());
    assert_eq!(doc.version, "2.0");
    assert_eq!(doc.language.as_deref(), Some("en-GB"));
    let asset_ids: Vec<&str> = doc.assets.iter().map(|a| a.id.as_str()).collect();
    assert_eq!(asset_ids, vec!["coverpng"]);
}

#[test]
fn parse_reads_ncx_toc() {
    let doc = parsed_ok(&namespaced_epub2("coverpng"));
    assert_eq!(titles(&doc.toc), vec!["Cover".to_string(), "One".to_string()]);
    assert_eq!(doc.toc[1].href, "ch1.html#start");
    assert_eq!(doc.toc[1].children.len(), 1);
    assert_eq!(doc.toc[1].children[0].title, "One, part A");
    assert_eq!(doc.toc[1].children[0].href, "ch1.html#a");
}

#[test]
fn cover_given_as_path_resolves_to_its_id() {
    let doc = parsed_ok(&namespaced_epub2("images/cover.png"));
    assert_eq!(doc.cover_asset_id.as_deref(), Some("coverpng"));
}

#[test]
fn cover_given_as_id_passes_through() {
    let doc = parsed_ok(&namespaced_epub2("coverpng"));
    assert_eq!(doc.cover_asset_id.as_deref(), Some("coverpng"));
}

#[test]
fn cover_naming_nothing_is_none() {
    let doc = parsed_ok(&namespaced_epub2("images/nothing.png"));
    assert_eq!(doc.cover_asset_id, None);
}

#[test]
fn find_opf_path_reads_first_rootfile() {
    assert_eq!(find_opf_path(CONTAINER).unwrap(), "OEBPS/content.opf");
    match find_opf_path("<container><rootfiles/></container>") {
        Err(AppError::MissingContainer) => {},
        other => panic!("unexpected {:?}", other),
    }
}

#[test]
fn extract_from_zip_returns_opf_bytes_and_path() {
    let (bytes, path) = extract_from_zip(&epub3()).unwrap();
    assert_eq!(path, "OEBPS/content.opf");
    assert_eq!(bytes, OPF3.as_bytes().to_vec());
}

#[test]
fn parse_extras_records_manifest_spine_and_dir() {
    let x = parse_extras(OPF3.as_bytes(), "OEBPS/content.opf").unwrap();
    assert_eq!(x.opf_dir, "OEBPS/");
    assert_eq!(x.manifest.len(), 5);
    assert_eq!(x.manifest[1].0, "c1");
    assert_eq!(x.manifest[1].1.href, "text/ch1.xhtml");
    assert_eq!(x.manifest[0].1.properties.as_deref(), Some("nav"));
    assert_eq!(x.spine, vec!["c1", "c2", "c1", "missing"]);
    assert_eq!(x.cover_id.as_deref(), Some("cover-image"));
    assert_eq!(x.version.as_deref(), Some("3.0"));
    assert_eq!(x.title.as_deref(), Some("The Hobbit"));
}

#[test]
fn check_mimetype_messages() {
    assert!(check_mimetype(b"application/epub+zip").is_ok());
    match check_mimetype(&[0xff]) {
        Err(AppError::InvalidMimetype(m)) => assert_eq!(m, "mimetype is not valid UTF-8"),
        other => panic!("unexpected {:?}", other),
    }
}

#[test]
fn xhtml_title_is_trimmed_and_empty_is_none() {
    assert_eq!(extract_xhtml_title(b"<html><head><title> A &lt; B </title></head></html>").as_deref(), Some("A < B"));
    assert_eq!(extract_xhtml_title(b"<html><head><title> </title></head></html>"), None);
    assert_eq!(extract_xhtml_title(b"<html><body/></html>"), None);
}

#[test]
fn every_error_reports_its_kind() {
    let cases: Vec<(AppError, ErrorKind)> = vec![
        (AppError::InvalidZip("x".to_string()), ErrorKind::InvalidZip),
        (AppError::InvalidMimetype("x".to_string()), ErrorKind::InvalidMimetype),
        (AppError::MissingContainer, ErrorKind::MissingContainer),
        (AppError::MissingOpf("x".to_string()), ErrorKind::MissingOpf),
        (AppError::MalformedOpf("x".to_string()), ErrorKind::MalformedOpf),
        (AppError::Io("x".to_string()), ErrorKind::Io),
        (AppError::InvalidChapter("c".to_string(), "m".to_string()), ErrorKind::InvalidChapter),
        (AppError::MissingRequiredField("title"), ErrorKind::MissingRequiredField),
        (AppError::DuplicateId("x".to_string()), ErrorKind::DuplicateId),
        (AppError::Panic("x".to_string()), ErrorKind::Panic),
        (AppError::InvalidPageDirection("x".to_string()), ErrorKind::InvalidPageDirection),
        (AppError::InvalidRenditionLayout("x".to_string()), ErrorKind::InvalidRenditionLayout),
        (AppError::MissingViewport("x".to_string()), ErrorKind::MissingViewport),
    ];
    for (e, k) in cases {
        assert_eq!(e.kind(), k);
    }
}

#[test]
fn container_that_is_not_utf8_is_an_io_error() {
    let bytes = zip_of(&[
        ("mimetype", b"application/epub+zip"),
        ("META-INF/container.xml", &[0xff, 0xfe, 0x00]),
    ]);
    match parse(&bytes) {
        Err(AppError::Io(m)) => assert_eq!(m, "stream did not contain valid UTF-8"),
        other => panic!("unexpected {:?}", other.map(|d| d.title)),
    }
}

#[test]
fn parse_extras_matches_dublin_core_by_namespace() {
    let opf = r#"<package><metadata xmlns:d="http://purl.org/dc/elements/1.1/"><d:title>T</d:title><d:language>en</d:language></metadata></package>"#;
    let x = parse_extras(opf.as_bytes(), "content.opf").unwrap();
    assert_eq!(x.title.as_deref(), Some("T"));
    assert_eq!(x.language.as_deref(), Some("en"));
}

#[test]
fn parse_extras_matches_dublin_core_in_a_default_namespace() {
    let opf = r#"<package><metadata><title xmlns="http://purl.org/dc/elements/1.1/">Plain</title></metadata></package>"#;
    let x = parse_extras(opf.as_bytes(), "content.opf").unwrap();
    assert_eq!(x.title.as_deref(), Some("Plain"));
}

#[test]
fn parse_extras_ignores_a_dc_prefix_bound_elsewhere() {
    let opf = r#"<package><metadata xmlns:dc="urn:not-dublin-core"><dc:title>T</dc:title></metadata></package>"#;
    let x = parse_extras(opf.as_bytes(), "content.opf").unwrap();
    assert_eq!(x.title, None);
}

fn opf_with_bindings(n: usize) -> String {
    let mut attrs = String::new();
    for i in 0..n {
        attrs.push_str(&format!(" xmlns:p{}=\"urn:x:{}\"", i, i));
    }
    format!(
        "<package{}><metadata xmlns:dc=\"http://purl.org/dc/elements/1.1/\"><dc:title>T</dc:title></metadata></package>",
        attrs
    )
}

#[test]
fn parse_extras_accepts_256_namespace_bindings() {
    let x = parse_extras(opf_with_bindings(256).as_bytes(), "content.opf").unwrap();
    assert_eq!(x.title.as_deref(), Some("T"));
}

#[test]
fn parse_extras_rejects_more_than_256_namespace_bindings() {
    match parse_extras(opf_with_bindings(257).as_bytes(), "content.opf") {
        Err(AppError::MalformedOpf(m)) => {
            assert_eq!(m, "element declares more than 256 namespace bindings")
        },
        other => panic!("unexpected {:?}", other.map(|x| x.title)),
    }
}

#[test]
fn mimetype_form_does_not_change_what_is_parsed() {
    let base = parsed_ok(&epub3());
    for m in [
        &b"application/epub+zip\n"[..],
        &b"\xEF\xBB\xBFapplication/epub+zip\r\n"[..],
    ] {
        let doc = parsed_ok(&epub3_with_mimetype(m));
        assert_eq!(format!("{:?}", doc), format!("{:?}", base));
    }
}
