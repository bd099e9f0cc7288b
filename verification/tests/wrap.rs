use kepub::parse::parse;
use kepub::serialize::serialize;
use kepub::wrap::transform;

#[test]
fn wraps_body_and_adds_style() {
    let mut doc = parse(b"<html><head></head><body><p>hi</p></body></html>");
    transform(&mut doc);
    let out = serialize(&doc);
    assert!(out.contains(r#"<div id="book-columns"><div id="book-inner"><p>hi</p>"#), "{out}");
    assert!(out.contains(r#"<style id="kobostylehacks""#), "{out}");
}

#[test]
fn wrap_is_idempotent() {
    let mut doc = parse(b"<html><head></head><body><p>hi</p></body></html>");
    transform(&mut doc);
    let once = serialize(&doc);
    transform(&mut doc);
    assert_eq!(once, serialize(&doc));
}

#[test]
fn wrap_keeps_an_existing_style_block() {
    let mut doc = parse(b"<html><head><style id=\"kobostylehacks\">x</style></head><body><div id=\"book-columns\"><p>hi</p></div></body></html>");
    let before = serialize(&doc);
    transform(&mut doc);
    assert_eq!(before, serialize(&doc));
}
