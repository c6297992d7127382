use reader_core::covers::{
    cover_format_of, find_cover_by_id, find_cover_heuristic, find_epub3_cover,
    find_name_case_insensitive, has_cover_image_prop, is_cbz_cover_image, is_cover_reference_type,
    is_epub_cover_fallback_name, is_image_item, is_supported_image_path, normalize_zip_path,
    percent_decode_to_string, resolve_epub_href, strip_fragment_and_query, CoverFormat,
    ManifestItem,
};

#[test]
fn percent_decoding_handles_escapes_and_plus() {
    assert_eq!(percent_decode_to_string("%41%2Fb+c"), "A/b c".to_string());
    assert_eq!(percent_decode_to_string("no escapes"), "no escapes".to_string());
    assert_eq!(percent_decode_to_string("%zz"), "%zz".to_string());
    assert_eq!(percent_decode_to_string("a%2"), "a%2".to_string());
    // Integer parsing of the payload accepts an explicit plus sign.
    assert_eq!(percent_decode_to_string("%+A"), "\u{a}".to_string());
}

#[test]
fn zip_paths_normalize() {
    assert_eq!(normalize_zip_path("a/./b/../c"), "a/c".to_string());
    assert_eq!(normalize_zip_path("a\\b\\c"), "a/b/c".to_string());
    assert_eq!(normalize_zip_path("a//b"), "a/b".to_string());
    assert_eq!(normalize_zip_path("../a"), "a".to_string());
    assert_eq!(normalize_zip_path(""), "".to_string());
}

#[test]
fn fragments_and_queries_are_cut() {
    assert_eq!(strip_fragment_and_query("a/b#frag?x"), "a/b");
    assert_eq!(strip_fragment_and_query("a?q#f"), "a");
    assert_eq!(strip_fragment_and_query("plain"), "plain");
}

#[test]
fn hrefs_resolve_against_their_base() {
    assert_eq!(
        resolve_epub_href("OEBPS/content.opf", "images/cover.jpg"),
        "OEBPS/images/cover.jpg".to_string()
    );
    assert_eq!(resolve_epub_href("x.opf", "/abs/img.png"), "abs/img.png".to_string());
    assert_eq!(resolve_epub_href("OEBPS/a.opf", "../img.png"), "img.png".to_string());
    assert_eq!(
        resolve_epub_href("base.opf", "http://example.org/c.png"),
        "http://example.org/c.png".to_string()
    );
    assert_eq!(
        resolve_epub_href("OEBPS/a.opf", " im%20g.png#frag "),
        "OEBPS/im g.png".to_string()
    );
}

#[test]
fn image_paths_compare_case_insensitively() {
    assert!(is_supported_image_path("A.JPG"));
    assert!(is_supported_image_path("x/y.webp"));
    assert!(!is_supported_image_path("notes.txt"));
}

fn item(id: &str, href: &str, mt: Option<&str>, props: Option<&str>) -> ManifestItem {
    ManifestItem {
        id: id.to_string(),
        href: href.to_string(),
        media_type: mt.map(|s| s.to_string()),
        properties: props.map(|s| s.to_string()),
    }
}

#[test]
fn cover_image_property_needs_a_whole_token() {
    assert!(has_cover_image_prop("cover-image"));
    assert!(has_cover_image_prop("svg COVER-IMAGE nav"));
    assert!(!has_cover_image_prop("cover-images"));
    assert!(!has_cover_image_prop("xcover-image"));
    assert!(!has_cover_image_prop(""));
}

#[test]
fn epub3_cover_picks_first_declared_image() {
    let manifest = vec![
        item("css", "style.css", Some("text/css"), Some("cover-image")),
        item("img1", "a.png", Some("image/png"), None),
        item("img2", "b.png", Some("image/png"), Some("nav cover-image")),
    ];
    assert_eq!(find_epub3_cover(&manifest), Some(2));
    assert!(is_image_item(&manifest[1]));
    assert!(!is_image_item(&manifest[0]));
}

#[test]
fn cover_by_id_and_heuristic() {
    let manifest = vec![
        item("toc", "toc.xhtml", Some("application/xhtml+xml"), None),
        item("c1", "img/front.jpeg", None, None),
        item("art", "img/Title-Page.png", Some("image/png"), None),
    ];
    assert_eq!(find_cover_by_id(&manifest, "c1"), Some(1));
    assert_eq!(find_cover_by_id(&manifest, "toc"), None);
    assert_eq!(find_cover_heuristic(&manifest), Some(2));
}

#[test]
fn guide_reference_types() {
    assert!(is_cover_reference_type("Cover"));
    assert!(is_cover_reference_type("TITLE-PAGE"));
    assert!(!is_cover_reference_type("toc"));
}

#[test]
fn fallback_cover_names() {
    assert!(is_epub_cover_fallback_name("images/Cover01.JPG"));
    assert!(is_epub_cover_fallback_name("OEBPS/title.png"));
    assert!(!is_epub_cover_fallback_name("cover.txt"));
    assert!(!is_epub_cover_fallback_name("page1.jpg"));
}

#[test]
fn cbz_cover_images_exclude_gif() {
    assert!(is_cbz_cover_image("p.PNG"));
    assert!(is_cbz_cover_image("p.webp"));
    assert!(!is_cbz_cover_image("p.gif"));
}

#[test]
fn cover_format_follows_last_dot_segment() {
    assert_eq!(cover_format_of("book.PDF"), CoverFormat::Pdf);
    assert_eq!(cover_format_of("b.epub"), CoverFormat::Epub);
    assert_eq!(cover_format_of("c.cbz"), CoverFormat::Cbz);
    assert_eq!(cover_format_of("c.cbr"), CoverFormat::Cbz);
    assert_eq!(cover_format_of("noext"), CoverFormat::Unsupported);
    assert_eq!(cover_format_of("a.tar.gz"), CoverFormat::Unsupported);
}

#[test]
fn archive_lookup_ignores_case() {
    let names = vec!["A.Png".to_string(), "b.jpg".to_string()];
    assert_eq!(find_name_case_insensitive(&names, "a.png"), Some(0));
    assert_eq!(find_name_case_insensitive(&names, "B.JPG"), Some(1));
    assert_eq!(find_name_case_insensitive(&names, "c.png"), None);
}
