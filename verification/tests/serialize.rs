use kepub::parse::{decode_utf8, parse, split_xml_declaration};
use kepub::serialize::{escape_attr, escape_text, serialize};

#[test]
fn self_closes_void_elements_only() {
    let doc = parse(b"<html><body><p>hi<br>there</p><div></div></body></html>");
    let out = serialize(&doc);
    assert!(out.contains("<br/>"), "{out}");
    assert!(out.contains("<div></div>"), "{out}");
    assert!(out.contains("<p>hi<br/>there</p>"), "{out}");
}

#[test]
fn escapes_text_and_keeps_script_raw() {
    let doc = parse(b"<html><body><p>a &amp; b &lt; c</p><script>1 < 2 && 3</script></body></html>");
    let out = serialize(&doc);
    assert!(out.contains("a &amp; b &lt; c"), "{out}");
    assert!(out.contains("<script>1 < 2 && 3</script>"), "{out}");
}

#[test]
fn restores_xml_declaration_and_xmlns() {
    let src = b"<?xml version=\"1.0\" encoding=\"utf-8\"?>\n<html><body><p>x</p></body></html>";
    let doc = parse(src);
    let out = serialize(&doc);
    assert!(out.starts_with("<?xml version=\"1.0\" encoding=\"utf-8\"?>"), "{out}");
    assert!(out.contains("xmlns=\"http://www.w3.org/1999/xhtml\""), "{out}");
}

#[test]
fn escape_text_replaces_markup_characters() {
    let mut out = String::new();
    escape_text("a & b < c > d \u{a0}\"q\"", &mut out);
    assert_eq!(out, "a &amp; b &lt; c &gt; d &#160;\"q\"");
}

#[test]
fn escape_attr_also_escapes_quotes() {
    let mut out = String::from("x=");
    escape_attr("a & \"b\" <c>\u{a0}", &mut out);
    assert_eq!(out, "x=a &amp; &quot;b&quot; &lt;c>&#160;");
}

#[test]
fn decode_utf8_drops_bom_and_replaces_invalid_bytes() {
    assert_eq!(decode_utf8(b"\xEF\xBB\xBFabc"), "abc");
    assert_eq!(decode_utf8(b"a\xFFb"), "a\u{FFFD}b");
    assert_eq!(decode_utf8(b""), "");
}

#[test]
fn split_xml_declaration_takes_only_a_leading_declaration() {
    let (decl, rest) = split_xml_declaration("  <?xml version=\"1.0\"?>\n<html/>");
    assert_eq!(decl.as_deref(), Some("<?xml version=\"1.0\"?>"));
    assert_eq!(rest, "\n<html/>");
    let (decl, rest) = split_xml_declaration("<html/>");
    assert_eq!(decl, None);
    assert_eq!(rest, "<html/>");
    let (decl, rest) = split_xml_declaration("<?xml unterminated");
    assert_eq!(decl, None);
    assert_eq!(rest, "<?xml unterminated");
}

#[test]
fn serializes_doctype_comments_and_attributes() {
    let doc = parse(b"<!DOCTYPE html><html><body><!-- note --><a href=\"x?a=1&amp;b=2\" title='say \"hi\"'>t</a></body></html>");
    let out = serialize(&doc);
    assert!(out.starts_with("<!DOCTYPE html>"), "{out}");
    assert!(out.contains("<!-- note -->"), "{out}");
    assert!(out.contains("href=\"x?a=1&amp;b=2\""), "{out}");
    assert!(out.contains("title=\"say &quot;hi&quot;\""), "{out}");
}
