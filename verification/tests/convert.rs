use std::io::{Cursor, Write};

use kepub::convert::{convert_epub, fallback_docs, is_content_ext, is_junk, kepub_document, ConvertError};
use kepub::zip_io::{read_epub, Epub};
use zip::write::SimpleFileOptions;
use zip::{ZipArchive, ZipWriter};

fn zip_of(files: &[(&str, &[u8])]) -> Vec<u8> {
    let mut zip = ZipWriter::new(Cursor::new(Vec::new()));
    for (name, data) in files {
        zip.start_file(*name, SimpleFileOptions::default()).unwrap();
        zip.write_all(data).unwrap();
    }
    zip.finish().unwrap().into_inner()
}

const CONTAINER: &[u8] = br#"<?xml version="1.0"?><container><rootfiles><rootfile full-path="OEBPS/content.opf"/></rootfiles></container>"#;
const OPF: &[u8] = br#"<package><metadata><meta name="cover" content="img"/></metadata><manifest><item id="c1" href="ch1.xhtml" media-type="application/xhtml+xml"/><item id="img" href="cover.jpg" media-type="image/jpeg"/></manifest></package>"#;
const CHAPTER: &[u8] = b"<html><head></head><body><p>One. Two.</p></body></html>";

#[test]
fn converts_a_whole_book() {
    let bytes = zip_of(&[
        ("mimetype", b"application/epub+zip"),
        ("META-INF/container.xml", CONTAINER),
        ("OEBPS/content.opf", OPF),
        ("OEBPS/ch1.xhtml", CHAPTER),
        ("OEBPS/cover.jpg", b"\xFF\xD8jpeg"),
        ("OEBPS/.DS_Store", b"junk"),
        ("__MACOSX/OEBPS/._ch1.xhtml", b"junk"),
        ("iTunesMetadata.plist", b"junk"),
    ]);
    let out = convert_epub(&bytes).unwrap();
    let book = read_epub(&out).unwrap();
    let names: Vec<&str> = book.entries.iter().map(|e| e.name.as_str()).collect();
    assert_eq!(
        names,
        vec!["META-INF/container.xml", "OEBPS/content.opf", "OEBPS/ch1.xhtml", "OEBPS/cover.jpg"]
    );
    let ch1 = String::from_utf8(book.get("OEBPS/ch1.xhtml").unwrap().to_vec()).unwrap();
    assert!(ch1.contains(r#"<div id="book-columns"><div id="book-inner"><p><span class="koboSpan" id="kobo.1.1">One. </span>"#), "{ch1}");
    assert!(ch1.contains(r#"<style id="kobostylehacks""#), "{ch1}");
    let opf = String::from_utf8(book.get("OEBPS/content.opf").unwrap().to_vec()).unwrap();
    assert!(opf.contains(r#"properties="cover-image""#), "{opf}");
    assert_eq!(book.get("OEBPS/cover.jpg"), Some(&b"\xFF\xD8jpeg"[..]));
    let mut zip = ZipArchive::new(Cursor::new(&out)).unwrap();
    assert_eq!(zip.by_index(0).unwrap().name().unwrap(), "mimetype");
}

#[test]
fn falls_back_to_conventional_opf_and_to_extensions() {
    // No container.xml: the OPF at `content.opf` is used.
    let opf = br#"<package><manifest><item id="c" href="a.xhtml" media-type="application/xhtml+xml"/></manifest></package>"#;
    let bytes = zip_of(&[("content.opf", opf), ("a.xhtml", CHAPTER), ("b.xhtml", CHAPTER)]);
    let book = read_epub(&convert_epub(&bytes).unwrap()).unwrap();
    assert!(String::from_utf8_lossy(book.get("a.xhtml").unwrap()).contains("koboSpan"));
    assert_eq!(book.get("b.xhtml"), Some(CHAPTER));

    // No OPF at all: every XHTML-looking entry is converted.
    let bytes = zip_of(&[("x.HTM", CHAPTER), ("y.txt", b"One. Two.")]);
    let book = read_epub(&convert_epub(&bytes).unwrap()).unwrap();
    assert!(String::from_utf8_lossy(book.get("x.HTM").unwrap()).contains("koboSpan"));
    assert_eq!(book.get("y.txt"), Some(&b"One. Two."[..]));
}

#[test]
fn conversion_errors_name_their_stage() {
    match convert_epub(b"not a zip") {
        Err(e @ ConvertError::Read(_)) => assert_eq!(e.context(), "reading EPUB container"),
        other => panic!("unexpected: {:?}", other.map(|v| v.len())),
    }
}

#[test]
fn junk_names() {
    assert!(is_junk("__MACOSX/a"));
    assert!(is_junk("$RECYCLE.BIN/x"));
    assert!(is_junk("Thumbs.db"));
    assert!(is_junk("OEBPS/images/.DS_Store"));
    assert!(is_junk("calibre_bookmarks.txt"));
    assert!(!is_junk("OEBPS/Thumbs.dbx"));
    assert!(!is_junk("notiTunesArtwork"));
    assert!(!is_junk("OEBPS/ch1.xhtml"));
}

#[test]
fn content_extensions_ignore_case() {
    assert!(is_content_ext("a.xhtml"));
    assert!(is_content_ext("A.XHTML"));
    assert!(is_content_ext("b.Html"));
    assert!(is_content_ext("c.htm"));
    assert!(!is_content_ext("d.xml"));
    assert!(!is_content_ext("htm"));
}

#[test]
fn fallback_docs_lists_xhtml_entries_in_order() {
    let mut epub = Epub::default();
    epub.set("z.xhtml", vec![]);
    epub.set("style.css", vec![]);
    epub.set("a.html", vec![]);
    assert_eq!(fallback_docs(&epub), vec!["z.xhtml", "a.html"]);
}

#[test]
fn kepub_document_converts_one_page() {
    let out = String::from_utf8(kepub_document(b"<p>Hi.</p>")).unwrap();
    assert_eq!(
        out,
        "<html xmlns=\"http://www.w3.org/1999/xhtml\"><head><style id=\"kobostylehacks\" type=\"text/css\">div#book-inner { margin-top: 0; margin-bottom: 0;}</style></head><body><div id=\"book-columns\"><div id=\"book-inner\"><p><span class=\"koboSpan\" id=\"kobo.1.1\">Hi.</span></p></div></div></body></html>"
    );
}
