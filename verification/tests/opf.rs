use kepub::container::find_opf_path;
use kepub::opf::{content_docs, normalize_cover, percent_decode, resolve_href};

#[test]
fn resolves_hrefs_relative_to_opf() {
    assert_eq!(
        resolve_href("OEBPS/content.opf", "text/ch1.xhtml"),
        "OEBPS/text/ch1.xhtml"
    );
    assert_eq!(
        resolve_href("OEBPS/sub/content.opf", "../images/c.jpg"),
        "OEBPS/images/c.jpg"
    );
    assert_eq!(resolve_href("content.opf", "ch1.xhtml"), "ch1.xhtml");
    assert_eq!(
        resolve_href("OEBPS/content.opf", "a%20b.xhtml"),
        "OEBPS/a b.xhtml"
    );
}

#[test]
fn lists_only_xhtml_content() {
    let opf = br#"<package><manifest>
        <item id="c1" href="ch1.xhtml" media-type="application/xhtml+xml"/>
        <item id="css" href="style.css" media-type="text/css"/>
        <item id="c2" href="ch2.html" media-type="text/html"/>
      </manifest></package>"#;
    let docs = content_docs(opf, "OEBPS/content.opf");
    assert_eq!(docs, vec!["OEBPS/ch1.xhtml", "OEBPS/ch2.html"]);
}

#[test]
fn adds_cover_image_property() {
    let opf = br#"<package><metadata>
        <meta name="cover" content="cover-img"/>
      </metadata><manifest>
        <item id="cover-img" href="cover.jpg" media-type="image/jpeg"/>
      </manifest></package>"#;
    let out = normalize_cover(opf).expect("should change");
    let text = String::from_utf8(out).unwrap();
    assert!(text.contains(r#"properties="cover-image""#), "{text}");
}

#[test]
fn leaves_opf_without_cover_alone() {
    let opf = br#"<package><manifest>
        <item id="c1" href="ch1.xhtml" media-type="application/xhtml+xml"/>
      </manifest></package>"#;
    assert!(normalize_cover(opf).is_none());
}

#[test]
fn reads_rootfile_path() {
    let xml = br#"<?xml version="1.0"?>
        <container version="1.0" xmlns="urn:oasis:names:tc:opendocument:xmlns:container">
          <rootfiles>
            <rootfile full-path="OEBPS/content.opf" media-type="application/oebps-package+xml"/>
          </rootfiles>
        </container>"#;
    assert_eq!(find_opf_path(xml).as_deref(), Some("OEBPS/content.opf"));
}

#[test]
fn rootfile_path_is_unescaped_and_first_wins() {
    let xml = br#"<container><rootfiles>
        <rootfile media-type="x"/>
        <rootfile full-path="a&amp;b.opf"/>
        <rootfile full-path="second.opf"/>
      </rootfiles></container>"#;
    assert_eq!(find_opf_path(xml).as_deref(), Some("a&b.opf"));
}

#[test]
fn container_without_rootfile_or_malformed_gives_none() {
    assert_eq!(find_opf_path(b"<container><rootfiles/></container>"), None);
    assert_eq!(find_opf_path(b""), None);
    assert_eq!(find_opf_path(b"<a></b><rootfile full-path=\"x.opf\"/>"), None);
}

#[test]
fn percent_decode_handles_valid_and_invalid_escapes() {
    assert_eq!(percent_decode("a%20b"), "a b");
    assert_eq!(percent_decode("%41%42c"), "ABc");
    assert_eq!(percent_decode("100%"), "100%");
    assert_eq!(percent_decode("%zz%4"), "%zz%4");
    assert_eq!(percent_decode("%C3%A9"), "\u{e9}");
    assert_eq!(percent_decode("%FF"), "\u{FFFD}");
}

#[test]
fn resolve_href_drops_fragments_and_queries_and_climbs() {
    assert_eq!(resolve_href("OEBPS/content.opf", "ch1.xhtml#sec2"), "OEBPS/ch1.xhtml");
    assert_eq!(resolve_href("OEBPS/content.opf", "ch1.xhtml?x=1"), "OEBPS/ch1.xhtml");
    assert_eq!(resolve_href("OEBPS/content.opf", "./a/../b.xhtml"), "OEBPS/b.xhtml");
    assert_eq!(resolve_href("content.opf", "../../x.xhtml"), "x.xhtml");
    assert_eq!(resolve_href("a//b/content.opf", "c.xhtml"), "a/b/c.xhtml");
}

#[test]
fn content_types_match_ignoring_ascii_case_and_need_href() {
    let opf = br#"<package><manifest>
        <item id="a" href="A.XHTML" media-type="Application/XHTML+XML"/>
        <item id="b" media-type="text/html"/>
        <opf:item id="c" href="c.htm" media-type="TEXT/HTML"/>
      </manifest></package>"#;
    assert_eq!(content_docs(opf, "content.opf"), vec!["A.XHTML", "c.htm"]);
}

#[test]
fn cover_found_by_id_when_no_meta() {
    let opf = br#"<package><manifest><item id="cover" href="c.png" media-type="image/png" properties="nav"></item></manifest></package>"#;
    let out = String::from_utf8(normalize_cover(opf).expect("should change")).unwrap();
    assert_eq!(
        out,
        r#"<package><manifest><item id="cover" href="c.png" media-type="image/png" properties="nav cover-image"></item></manifest></package>"#
    );
}

#[test]
fn cover_left_alone_when_already_marked_or_not_an_image() {
    let marked = br#"<package><manifest><item id="cover" href="c.png" media-type="image/png" properties="cover-image"/></manifest></package>"#;
    assert!(normalize_cover(marked).is_none());
    let not_image = br#"<package><manifest><item id="cover" href="c.xhtml" media-type="application/xhtml+xml"/></manifest></package>"#;
    assert!(normalize_cover(not_image).is_none());
    let meta_elsewhere = br#"<package><metadata><meta name="cover" content="img"/></metadata><manifest><item id="cover" href="c.png" media-type="image/png"/></manifest></package>"#;
    assert!(normalize_cover(meta_elsewhere).is_none());
}

#[test]
fn cover_rewrite_keeps_the_rest_of_the_document() {
    let opf = br#"<?xml version="1.0"?><package><metadata><meta name="cover" content="i"/></metadata><manifest><item id="i" href="c.jpg" media-type="image/jpeg"/></manifest></package>"#;
    let out = String::from_utf8(normalize_cover(opf).unwrap()).unwrap();
    assert_eq!(
        out,
        r#"<?xml version="1.0"?><package><metadata><meta name="cover" content="i"/></metadata><manifest><item id="i" href="c.jpg" media-type="image/jpeg" properties="cover-image"/></manifest></package>"#
    );
}

#[test]
fn cover_rewrite_escapes_the_merged_value_and_copies_other_attributes() {
    let opf = br#"<package><manifest><opf:item id='cover' href="a&amp;b.png" media-type="image/png" opf:properties="x&amp;y"/></manifest></package>"#;
    let out = String::from_utf8(normalize_cover(opf).unwrap()).unwrap();
    assert_eq!(
        out,
        r#"<package><manifest><opf:item id="cover" href="a&amp;b.png" media-type="image/png" opf:properties="x&amp;y cover-image"/></manifest></package>"#
    );
}

#[test]
fn malformed_opf_is_left_alone() {
    let after = br#"<package><manifest><item id="cover" href="c.png" media-type="image/png"/></manifest></wrong>"#;
    assert!(normalize_cover(after).is_none());
    let before = br#"<package></wrong><manifest><item id="cover" href="c.png" media-type="image/png"/></manifest></package>"#;
    assert!(normalize_cover(before).is_none());
}
