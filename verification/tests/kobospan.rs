use kepub::dom::{element, find_child};
use kepub::kobospan::{transform, State};
use kepub::parse::parse;
use kepub::serialize::serialize;

#[test]
fn wraps_sentences_in_numbered_spans() {
    let mut doc = parse(b"<html><body><p>One. Two.</p></body></html>");
    transform(&mut doc);
    let out = serialize(&doc);
    assert!(out.contains(r#"<span class="koboSpan" id="kobo.1.1">One. </span>"#), "{out}");
    assert!(out.contains(r#"<span class="koboSpan" id="kobo.1.2">Two.</span>"#), "{out}");
}

#[test]
fn separate_paragraphs_get_separate_counters() {
    let mut doc = parse(b"<html><body><p>A.</p><p>B.</p></body></html>");
    transform(&mut doc);
    let out = serialize(&doc);
    assert!(out.contains(r#"id="kobo.1.1">A.</span>"#), "{out}");
    assert!(out.contains(r#"id="kobo.2.1">B.</span>"#), "{out}");
}

#[test]
fn wraps_images() {
    let mut doc = parse(b"<html><body><div><img src=\"c.jpg\"/></div></body></html>");
    transform(&mut doc);
    let out = serialize(&doc);
    assert!(out.contains(r#"<span class="koboSpan" id="kobo.1.1"><img src="c.jpg"/></span>"#), "{out}");
}

#[test]
fn leaves_pre_untouched() {
    let mut doc = parse(b"<html><body><pre>code. here.</pre></body></html>");
    transform(&mut doc);
    let out = serialize(&doc);
    assert!(out.contains("<pre>code. here.</pre>"), "{out}");
    assert!(!out.contains("koboSpan"), "{out}");
}

#[test]
fn kobospan_is_idempotent() {
    let mut doc = parse(b"<html><body><p>One. Two.</p></body></html>");
    transform(&mut doc);
    let once = serialize(&doc);
    transform(&mut doc);
    assert_eq!(once, serialize(&doc));
}

#[test]
fn alloc_id_starts_the_first_paragraph() {
    let mut st = State { para: 0, seg: 3 };
    assert_eq!(st.alloc_id(), "kobo.1.3");
    assert_eq!(st.para, 1);
    assert_eq!(st.seg, 3);
    let mut st = State { para: 7, seg: 12 };
    assert_eq!(st.alloc_id(), "kobo.7.12");
    assert_eq!(st.para, 7);
}

#[test]
fn already_spanned_document_is_left_alone() {
    let src = b"<html><body><p><span class=\"koboSpan\" id=\"kobo.1.1\">Done.</span> More.</p></body></html>";
    let mut doc = parse(src);
    let before = serialize(&doc);
    transform(&mut doc);
    assert_eq!(before, serialize(&doc));
}

#[test]
fn whitespace_only_text_is_not_spanned() {
    let mut doc = parse(b"<html><body><p>A.</p>\n  <p>B.</p></body></html>");
    transform(&mut doc);
    let out = serialize(&doc);
    assert!(out.contains("</p>\n  <p>"), "{out}");
    assert_eq!(out.matches("koboSpan").count(), 2, "{out}");
}

#[test]
fn implied_body_gets_spans() {
    let mut doc = parse(b"<p>x</p>");
    let before = serialize(&doc);
    transform(&mut doc);
    // html5ever always builds html/head/body, so spans go into the body.
    let after = serialize(&doc);
    assert!(after.contains(r#"<span class="koboSpan" id="kobo.1.1">x</span>"#), "{after}");
    assert_ne!(before, after);
}

#[test]
fn a_kobospan_anywhere_leaves_the_document_alone() {
    let mut doc = parse(b"<html><head></head><body><p>One.</p></body></html>");
    let hi = find_child(&doc.dom, "html").unwrap();
    let head = find_child(&doc.dom.children[hi], "head").unwrap();
    doc.dom.children[hi].children[head]
        .children
        .push(element("span", &[("class", "koboSpan")]));
    let before = serialize(&doc);
    transform(&mut doc);
    assert_eq!(before, serialize(&doc));
    assert!(!before.contains("kobo.1.1"));
}
