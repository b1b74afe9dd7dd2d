use langelic_epub::ident::identifier_to_uuid;
use langelic_epub::paths::{
    normalize_path, opf_dir, parent_dir, resolve_archive_path, resolve_within, strip_fragment,
};
use langelic_epub::text::{has_word_exec, trim_exec};
use langelic_epub::writer::{dir_of, xml_escape};
use langelic_epub::xml::{local_name_bytes, resolve_entity};

#[test]
fn normalize_path_collapses_dots_and_empty_segments() {
    assert_eq!(normalize_path("OEBPS/./text/../images//cover.jpg"), "OEBPS/images/cover.jpg");
    assert_eq!(normalize_path("/a/b/"), "a/b");
    assert_eq!(normalize_path("../../x"), "x");
    assert_eq!(normalize_path(""), "");
}

#[test]
fn normalize_path_is_idempotent_on_examples() {
    for p in ["a/./b/../c", "//x//y/", "../a/b/../../c/d"] {
        let once = normalize_path(p);
        assert_eq!(normalize_path(&once), once);
    }
}

#[test]
fn strip_fragment_drops_from_first_hash() {
    assert_eq!(strip_fragment("ch1.xhtml#sec2"), "ch1.xhtml");
    assert_eq!(strip_fragment("ch1.xhtml"), "ch1.xhtml");
    assert_eq!(strip_fragment("#top"), "");
    assert_eq!(strip_fragment("a#b#c"), "a");
}

#[test]
fn resolve_archive_path_joins_opf_dir() {
    assert_eq!(resolve_archive_path("OEBPS/", "text/ch1.xhtml#x"), "OEBPS/text/ch1.xhtml");
    assert_eq!(resolve_archive_path("OEBPS/", "../images/c.jpg"), "images/c.jpg");
    assert_eq!(resolve_archive_path("OEBPS/", "/abs/c.jpg"), "abs/c.jpg");
    assert_eq!(resolve_archive_path("", "ch1.xhtml"), "ch1.xhtml");
}

#[test]
fn opf_dir_and_dir_of_keep_trailing_slash() {
    assert_eq!(opf_dir("OEBPS/content.opf"), "OEBPS/");
    assert_eq!(opf_dir("content.opf"), "");
    assert_eq!(dir_of("a/b/c.opf"), "a/b/");
    assert_eq!(parent_dir("text/nav.xhtml#toc"), "text/");
    assert_eq!(parent_dir("nav.xhtml"), "");
}

#[test]
fn resolve_within_keeps_nonempty_fragment() {
    assert_eq!(resolve_within("text/", "ch1.xhtml#s1"), "text/ch1.xhtml#s1");
    assert_eq!(resolve_within("text/", "../ch1.xhtml#"), "ch1.xhtml");
    assert_eq!(resolve_within("", "ch1.xhtml"), "ch1.xhtml");
    assert_eq!(resolve_within("text/", "/ch1.xhtml"), "ch1.xhtml");
}

#[test]
fn xml_escape_escapes_the_five_characters() {
    assert_eq!(xml_escape("a<b>&\"c'"), "a&lt;b&gt;&amp;&quot;c&apos;");
    assert_eq!(xml_escape("plain"), "plain");
}

#[test]
fn resolve_entity_covers_named_numeric_and_unknown() {
    assert_eq!(resolve_entity(b"amp").as_deref(), Some("&"));
    assert_eq!(resolve_entity(b"lt").as_deref(), Some("<"));
    assert_eq!(resolve_entity(b"gt").as_deref(), Some(">"));
    assert_eq!(resolve_entity(b"quot").as_deref(), Some("\""));
    assert_eq!(resolve_entity(b"apos").as_deref(), Some("'"));
    assert_eq!(resolve_entity(b"#x41").as_deref(), Some("A"));
    assert_eq!(resolve_entity(b"#X263A").as_deref(), Some("\u{263A}"));
    assert_eq!(resolve_entity(b"#233").as_deref(), Some("\u{e9}"));
    assert_eq!(resolve_entity(b"nbsp").as_deref(), Some("&nbsp;"));
    assert_eq!(resolve_entity(b"#xD800"), None);
    assert_eq!(resolve_entity(b"#abc"), None);
    assert_eq!(resolve_entity(&[0xff, 0xfe]), None);
}

#[test]
fn local_name_drops_prefix() {
    assert_eq!(local_name_bytes(b"opf:spine"), b"spine".to_vec());
    assert_eq!(local_name_bytes(b"spine"), b"spine".to_vec());
    assert_eq!(local_name_bytes(b"a:b:c"), b"b:c".to_vec());
}

#[test]
fn has_word_matches_whole_words_only() {
    let s: Vec<char> = "cover-image nav scripted".chars().collect();
    let nav: Vec<char> = "nav".chars().collect();
    let cover: Vec<char> = "cover".chars().collect();
    assert!(has_word_exec(&s, &nav));
    assert!(!has_word_exec(&s, &cover));
}

#[test]
fn trim_uses_unicode_whitespace() {
    let s: Vec<char> = "\u{a0} x y \n".chars().collect();
    let t: String = trim_exec(&s).into_iter().collect();
    assert_eq!(t, "x y");
}

#[test]
fn uuid_identifiers_keep_their_value() {
    let plain = identifier_to_uuid("550e8400-e29b-41d4-a716-446655440000");
    let urn = identifier_to_uuid("urn:uuid:550e8400-e29b-41d4-a716-446655440000");
    assert_eq!(plain, 0x550e8400_e29b_41d4_a716_446655440000u128);
    assert_eq!(urn, plain);
}

#[test]
fn other_identifiers_map_to_a_stable_v5_uuid() {
    let a = identifier_to_uuid("isbn:9780000000000");
    let b = identifier_to_uuid("isbn:9780000000000");
    let c = identifier_to_uuid("isbn:9780000000001");
    assert_eq!(a, b);
    assert_ne!(a, c);
    // version 5 and RFC 4122 variant bits
    assert_eq!((a >> 76) & 0xf, 5);
    assert_eq!((a >> 62) & 0x3, 2);
}

#[test]
fn identifier_uuid_forms_keep_their_value() {
    let v = 0x550e8400_e29b_41d4_a716_446655440000u128;
    assert_eq!(identifier_to_uuid("550e8400e29b41d4a716446655440000"), v);
    assert_eq!(identifier_to_uuid("{550e8400-e29b-41d4-a716-446655440000}"), v);
    assert_eq!(identifier_to_uuid("550E8400-E29B-41D4-A716-446655440000"), v);
    assert_eq!(identifier_to_uuid("URN:UUID:550e8400-e29b-41d4-a716-446655440000"), v);
    assert_ne!(identifier_to_uuid("550e8400-e29b-41d4-a716-44665544000g"), v);
}
