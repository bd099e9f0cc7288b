use std::io::{Cursor, Read, Write};

use kepub::zip_io::{read_epub, write_epub, Epub};
use zip::write::SimpleFileOptions;
use zip::{CompressionMethod, ZipArchive, ZipWriter};

#[test]
fn round_trips_entries_and_normalizes_mimetype() {
    let mut epub = Epub::default();
    epub.set("OEBPS/content.opf", b"<package/>".to_vec());
    epub.set("OEBPS/ch1.xhtml", b"<html/>".to_vec());

    let bytes = write_epub(&epub).unwrap();
    let back = read_epub(&bytes).unwrap();

    assert_eq!(back.entries.len(), 2);
    assert_eq!(back.get("OEBPS/content.opf"), Some(&b"<package/>"[..]));
    assert_eq!(back.get("OEBPS/ch1.xhtml"), Some(&b"<html/>"[..]));

    // mimetype must be the first entry and uncompressed.
    let mut zip = ZipArchive::new(Cursor::new(&bytes)).unwrap();
    let first = zip.by_index(0).unwrap();
    assert_eq!(first.name().unwrap(), "mimetype");
    assert_eq!(first.compression(), CompressionMethod::Stored);
}

fn zip_of(files: &[(&str, &[u8])]) -> Vec<u8> {
    let mut zip = ZipWriter::new(Cursor::new(Vec::new()));
    for (name, data) in files {
        zip.start_file(*name, SimpleFileOptions::default()).unwrap();
        zip.write_all(data).unwrap();
    }
    zip.finish().unwrap().into_inner()
}

#[test]
fn read_drops_directories_and_mimetype_and_keeps_order() {
    let bytes = zip_of(&[
        ("mimetype", b"application/epub+zip"),
        ("OEBPS/", b""),
        ("b.txt", b"B"),
        ("a.txt", b"A"),
    ]);
    let epub = read_epub(&bytes).unwrap();
    let names: Vec<&str> = epub.entries.iter().map(|e| e.name.as_str()).collect();
    assert_eq!(names, vec!["b.txt", "a.txt"]);
    assert_eq!(epub.get("a.txt"), Some(&b"A"[..]));
}

#[test]
fn read_rejects_bytes_that_are_not_a_zip() {
    assert!(read_epub(b"not a zip at all").is_err());
    assert!(read_epub(b"").is_err());
}

#[test]
fn set_replaces_existing_and_appends_new() {
    let mut epub = Epub::default();
    epub.set("a", b"1".to_vec());
    epub.set("b", b"2".to_vec());
    epub.set("a", b"3".to_vec());
    assert_eq!(epub.entries.len(), 2);
    assert_eq!(epub.entries[0].name, "a");
    assert_eq!(epub.get("a"), Some(&b"3"[..]));
    assert_eq!(epub.get("b"), Some(&b"2"[..]));
    assert_eq!(epub.get("c"), None);
}

#[test]
fn retain_keeps_matching_entries_in_order() {
    let mut epub = Epub::default();
    for n in ["x", "drop-1", "y", "drop-2", "z"] {
        epub.set(n, n.as_bytes().to_vec());
    }
    epub.retain(|name: &String| !name.starts_with("drop"));
    let names: Vec<&str> = epub.entries.iter().map(|e| e.name.as_str()).collect();
    assert_eq!(names, vec!["x", "y", "z"]);
}

#[test]
fn written_container_lists_mimetype_then_entries() {
    let mut epub = Epub::default();
    epub.set("z.xhtml", b"<z/>".to_vec());
    epub.set("a.css", b"a{}".to_vec());
    let bytes = write_epub(&epub).unwrap();
    let mut zip = ZipArchive::new(Cursor::new(&bytes)).unwrap();
    assert_eq!(zip.len(), 3);
    let mut data = String::new();
    zip.by_index(0).unwrap().read_to_string(&mut data).unwrap();
    assert_eq!(data, "application/epub+zip");
    assert_eq!(zip.by_index(1).unwrap().name().unwrap(), "z.xhtml");
    assert_eq!(zip.by_index(2).unwrap().name().unwrap(), "a.css");
    assert_eq!(zip.by_index(1).unwrap().compression(), CompressionMethod::Deflated);
}

#[test]
fn writing_an_entry_named_mimetype_fails() {
    let mut epub = Epub::default();
    epub.set("mimetype", b"other".to_vec());
    assert!(write_epub(&epub).is_err());
}

#[test]
fn writing_distinct_small_entries_succeeds_with_mimetype_stored() {
    let mut epub = Epub::default();
    epub.set("a", vec![7]);
    epub.set("b/c.xhtml", b"<p/>".to_vec());
    let bytes = write_epub(&epub).expect("within limits and distinct");
    let mut zip = ZipArchive::new(Cursor::new(&bytes)).unwrap();
    assert_eq!(zip.by_index(0).unwrap().compression(), CompressionMethod::Stored);
    assert_eq!(zip.len(), 3);
}
