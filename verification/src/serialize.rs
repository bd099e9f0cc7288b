//! Serializing a document back to polyglot HTML/XHTML.
use vstd::prelude::*;

use crate::dom::{attrs_view, lemma_nodes_view, nodes_view, AttrV, Attribute, DataV, HtmlNode, NodeData, NodeV, XHTML_NS};
use crate::parse::Document;
use crate::text::{chars_of, str_eq};

verus! {

/// HTML void elements: self-closed in polyglot XHTML output.
pub open spec fn is_void(tag: Seq<char>) -> bool {
    tag == "area"@ || tag == "base"@ || tag == "br"@ || tag == "col"@ || tag == "embed"@ || tag
        == "hr"@ || tag == "img"@ || tag == "input"@ || tag == "link"@ || tag == "meta"@ || tag
        == "param"@ || tag == "source"@ || tag == "track"@ || tag == "wbr"@
}

/// Elements whose text content must not be entity-escaped.
pub open spec fn is_raw_text(tag: Seq<char>) -> bool {
    tag == "script"@ || tag == "style"@
}

/// The escaped form of one character of text content.
pub open spec fn escape_text_char(c: char) -> Seq<char> {
    if c == '&' {
        "&amp;"@
    } else if c == '<' {
        "&lt;"@
    } else if c == '>' {
        "&gt;"@
    } else if c == '\u{00A0}' {
        "&#160;"@
    } else {
        seq![c]
    }
}

/// The escaped form of one character of an attribute value.
pub open spec fn escape_attr_char(c: char) -> Seq<char> {
    if c == '&' {
        "&amp;"@
    } else if c == '<' {
        "&lt;"@
    } else if c == '"' {
        "&quot;"@
    } else if c == '\u{00A0}' {
        "&#160;"@
    } else {
        seq![c]
    }
}

/// Text content with `&`, `<`, `>` and no-break spaces escaped.
pub open spec fn spec_escape_text(s: Seq<char>) -> Seq<char>
    decreases s.len(),
{
    if s.len() == 0 {
        Seq::empty()
    } else {
        spec_escape_text(s.drop_last()) + escape_text_char(s.last())
    }
}

/// An attribute value with `&`, `<`, `"` and no-break spaces escaped.
pub open spec fn spec_escape_attr(s: Seq<char>) -> Seq<char>
    decreases s.len(),
{
    if s.len() == 0 {
        Seq::empty()
    } else {
        spec_escape_attr(s.drop_last()) + escape_attr_char(s.last())
    }
}

/// Escaped text content holds no `<`, `>` or no-break space, and text that
/// holds none of `&`, `<`, `>` and the no-break space is written as it is.
pub proof fn lemma_escape_text_safe(s: Seq<char>)
    ensures
        forall|i: int|
            0 <= i < spec_escape_text(s).len() ==> #[trigger] spec_escape_text(s)[i] != '<'
                && spec_escape_text(s)[i] != '>' && spec_escape_text(s)[i] != '\u{00A0}',
        (forall|i: int|
            0 <= i < s.len() ==> #[trigger] s[i] != '&' && s[i] != '<' && s[i] != '>' && s[i]
                != '\u{00A0}') ==> spec_escape_text(s) == s,
    decreases s.len(),
{
    reveal_strlit("&amp;");
    reveal_strlit("&lt;");
    reveal_strlit("&gt;");
    reveal_strlit("&#160;");
    if s.len() > 0 {
        lemma_escape_text_safe(s.drop_last());
        let pre = spec_escape_text(s.drop_last());
        let e = escape_text_char(s.last());
        let out = spec_escape_text(s);
        assert(out == pre + e);
        assert forall|i: int| 0 <= i < out.len() implies #[trigger] out[i] != '<' && out[i] != '>'
            && out[i] != '\u{00A0}' by {
            if i < pre.len() {
                assert(out[i] == pre[i]);
            } else {
                assert(out[i] == e[i - pre.len()]);
            }
        }
        if forall|i: int|
            0 <= i < s.len() ==> #[trigger] s[i] != '&' && s[i] != '<' && s[i] != '>' && s[i]
                != '\u{00A0}' {
            assert forall|i: int| 0 <= i < s.drop_last().len() implies #[trigger] s.drop_last()[i]
                != '&' && s.drop_last()[i] != '<' && s.drop_last()[i] != '>' && s.drop_last()[i]
                != '\u{00A0}' by {
                assert(s.drop_last()[i] == s[i]);
            }
            assert(s[s.len() - 1] == s.last());
            assert(s.drop_last() + seq![s.last()] =~= s);
        }
    }
}

/// An escaped attribute value holds no `<`, `"` or no-break space, and a
/// value that holds none of `&`, `<`, `"` and the no-break space is written
/// as it is.
pub proof fn lemma_escape_attr_safe(s: Seq<char>)
    ensures
        forall|i: int|
            0 <= i < spec_escape_attr(s).len() ==> #[trigger] spec_escape_attr(s)[i] != '<'
                && spec_escape_attr(s)[i] != '"' && spec_escape_attr(s)[i] != '\u{00A0}',
        (forall|i: int|
            0 <= i < s.len() ==> #[trigger] s[i] != '&' && s[i] != '<' && s[i] != '"' && s[i]
                != '\u{00A0}') ==> spec_escape_attr(s) == s,
    decreases s.len(),
{
    reveal_strlit("&amp;");
    reveal_strlit("&lt;");
    reveal_strlit("&quot;");
    reveal_strlit("&#160;");
    if s.len() > 0 {
        lemma_escape_attr_safe(s.drop_last());
        let pre = spec_escape_attr(s.drop_last());
        let e = escape_attr_char(s.last());
        let out = spec_escape_attr(s);
        assert(out == pre + e);
        assert forall|i: int| 0 <= i < out.len() implies #[trigger] out[i] != '<' && out[i] != '"'
            && out[i] != '\u{00A0}' by {
            if i < pre.len() {
                assert(out[i] == pre[i]);
            } else {
                assert(out[i] == e[i - pre.len()]);
            }
        }
        if forall|i: int|
            0 <= i < s.len() ==> #[trigger] s[i] != '&' && s[i] != '<' && s[i] != '"' && s[i]
                != '\u{00A0}' {
            assert forall|i: int| 0 <= i < s.drop_last().len() implies #[trigger] s.drop_last()[i]
                != '&' && s.drop_last()[i] != '<' && s.drop_last()[i] != '"' && s.drop_last()[i]
                != '\u{00A0}' by {
                assert(s.drop_last()[i] == s[i]);
            }
            assert(s[s.len() - 1] == s.last());
            assert(s.drop_last() + seq![s.last()] =~= s);
        }
    }
}

/// `s` begins with `p`.
pub open spec fn begins_with(s: Seq<char>, p: Seq<char>) -> bool {
    p.len() <= s.len() && s.take(p.len() as int) == p
}

/// Text read back from its escaped form: `&amp;`, `&lt;`, `&gt;`, `&quot;`
/// and `&#160;` stand for `&`, `<`, `>`, `"` and the no-break space.
pub open spec fn unescape(s: Seq<char>) -> Seq<char>
    decreases s.len(),
{
    if s.len() == 0 {
        Seq::empty()
    } else if begins_with(s, seq!['&', 'a', 'm', 'p', ';']) {
        seq!['&'] + unescape(s.skip(5))
    } else if begins_with(s, seq!['&', 'l', 't', ';']) {
        seq!['<'] + unescape(s.skip(4))
    } else if begins_with(s, seq!['&', 'g', 't', ';']) {
        seq!['>'] + unescape(s.skip(4))
    } else if begins_with(s, seq!['&', 'q', 'u', 'o', 't', ';']) {
        seq!['"'] + unescape(s.skip(6))
    } else if begins_with(s, seq!['&', '#', '1', '6', '0', ';']) {
        seq!['\u{00A0}'] + unescape(s.skip(6))
    } else {
        seq![s[0]] + unescape(s.skip(1))
    }
}

proof fn lemma_escape_text_concat(a: Seq<char>, b: Seq<char>)
    ensures
        spec_escape_text(a + b) == spec_escape_text(a) + spec_escape_text(b),
    decreases b.len(),
{
    if b.len() == 0 {
        assert(a + b =~= a);
        assert(spec_escape_text(a) + Seq::<char>::empty() =~= spec_escape_text(a));
    } else {
        assert((a + b).drop_last() =~= a + b.drop_last());
        assert((a + b).last() == b.last());
        lemma_escape_text_concat(a, b.drop_last());
        assert(spec_escape_text(a) + spec_escape_text(b.drop_last()) + escape_text_char(b.last())
            =~= spec_escape_text(a) + (spec_escape_text(b.drop_last()) + escape_text_char(b.last())));
    }
}

proof fn lemma_escape_attr_concat(a: Seq<char>, b: Seq<char>)
    ensures
        spec_escape_attr(a + b) == spec_escape_attr(a) + spec_escape_attr(b),
    decreases b.len(),
{
    if b.len() == 0 {
        assert(a + b =~= a);
        assert(spec_escape_attr(a) + Seq::<char>::empty() =~= spec_escape_attr(a));
    } else {
        assert((a + b).drop_last() =~= a + b.drop_last());
        assert((a + b).last() == b.last());
        lemma_escape_attr_concat(a, b.drop_last());
        assert(spec_escape_attr(a) + spec_escape_attr(b.drop_last()) + escape_attr_char(b.last())
            =~= spec_escape_attr(a) + (spec_escape_attr(b.drop_last()) + escape_attr_char(b.last())));
    }
}

/// Reading back an entity, or a character that starts none, then the rest.
proof fn lemma_unescape_step(c: char, e: Seq<char>, rest: Seq<char>)
    requires
        e == "&amp;"@ && c == '&' || e == "&lt;"@ && c == '<' || e == "&gt;"@ && c == '>' || e
            == "&quot;"@ && c == '"' || e == "&#160;"@ && c == '\u{00A0}' || e == seq![c] && c
            != '&',
    ensures
        unescape(e + rest) == seq![c] + unescape(rest),
{
    reveal_strlit("&amp;");
    reveal_strlit("&lt;");
    reveal_strlit("&gt;");
    reveal_strlit("&quot;");
    reveal_strlit("&#160;");
    assert("&amp;"@ =~= seq!['&', 'a', 'm', 'p', ';']);
    assert("&lt;"@ =~= seq!['&', 'l', 't', ';']);
    assert("&gt;"@ =~= seq!['&', 'g', 't', ';']);
    assert("&quot;"@ =~= seq!['&', 'q', 'u', 'o', 't', ';']);
    assert("&#160;"@ =~= seq!['&', '#', '1', '6', '0', ';']);
    let s = e + rest;
    assert(s.skip(e.len() as int) =~= rest);
    assert(s.take(e.len() as int) =~= e);
    assert(s[0] == e[0]);
    if e.len() > 1 {
        assert(s[1] == e[1]);
    }
    if e.len() > 2 {
        assert(s[2] == e[2]);
    }
    assert(s.len() >= 5 ==> s.take(5)[1] == s[1]);
    assert(s.len() >= 4 ==> s.take(4)[1] == s[1]);
    assert(s.len() >= 6 ==> s.take(6)[1] == s[1] && s.take(6)[2] == s[2]);
    assert(s.len() >= 5 ==> s.take(5)[0] == s[0]);
    assert(s.len() >= 4 ==> s.take(4)[0] == s[0]);
    assert(s.len() >= 6 ==> s.take(6)[0] == s[0]);
}

/// Escaped text reads back as the text: no character is lost or changed.
pub proof fn lemma_escape_text_reads_back(s: Seq<char>)
    ensures
        unescape(spec_escape_text(s)) == s,
    decreases s.len(),
{
    if s.len() > 0 {
        let t = s.skip(1);
        assert(s =~= seq![s[0]] + t);
        lemma_escape_text_concat(seq![s[0]], t);
        assert(seq![s[0]].drop_last() =~= Seq::<char>::empty());
        assert(seq![s[0]].last() == s[0]);
        assert(spec_escape_text(Seq::<char>::empty()) == Seq::<char>::empty());
        assert(spec_escape_text(seq![s[0]]) =~= escape_text_char(s[0]));
        lemma_unescape_step(s[0], escape_text_char(s[0]), spec_escape_text(t));
        lemma_escape_text_reads_back(t);
    }
}

/// An escaped attribute value reads back as the value.
pub proof fn lemma_escape_attr_reads_back(s: Seq<char>)
    ensures
        unescape(spec_escape_attr(s)) == s,
    decreases s.len(),
{
    if s.len() > 0 {
        let t = s.skip(1);
        assert(s =~= seq![s[0]] + t);
        lemma_escape_attr_concat(seq![s[0]], t);
        assert(seq![s[0]].drop_last() =~= Seq::<char>::empty());
        assert(seq![s[0]].last() == s[0]);
        assert(spec_escape_attr(Seq::<char>::empty()) == Seq::<char>::empty());
        assert(spec_escape_attr(seq![s[0]]) =~= escape_attr_char(s[0]));
        lemma_unescape_step(s[0], escape_attr_char(s[0]), spec_escape_attr(t));
        lemma_escape_attr_reads_back(t);
    }
}

/// The elements written self-closed when empty: the HTML void elements.
pub open spec fn void_element(name: Seq<char>) -> bool {
    ||| name == "area"@ || name == "base"@ || name == "br"@ || name == "col"@ || name == "embed"@
    ||| name == "hr"@ || name == "img"@ || name == "input"@ || name == "link"@ || name == "meta"@
    ||| name == "param"@ || name == "source"@ || name == "track"@ || name == "wbr"@
}

/// An element is self-closed exactly when it is an empty void element;
/// otherwise it gets an explicit end tag, and its text is written raw
/// exactly inside `script` and `style`.
pub proof fn lemma_element_closing(name: Seq<char>, attrs: Seq<AttrV>, children: Seq<NodeV>, raw: bool)
    ensures
        ({
            let out = ser_node(NodeV { data: DataV::Element { name, attrs }, children }, raw);
            &&& children.len() == 0 && void_element(name) ==> out == open_tag(name, attrs) + "/>"@
            &&& !(children.len() == 0 && void_element(name)) ==> out == open_tag(name, attrs)
                + ">"@ + ser_children(children, name == "script"@ || name == "style"@) + "</"@
                + name + ">"@
        }),
{
}

/// An attribute name with its namespace prefix, if any.
pub open spec fn spec_qualified_name(a: AttrV) -> Seq<char> {
    match a.prefix {
        Some(p) => p + ":"@ + a.local,
        None => a.local,
    }
}

/// ` name="value"` for each attribute, in order.
pub open spec fn ser_attrs(attrs: Seq<AttrV>) -> Seq<char>
    decreases attrs.len(),
{
    if attrs.len() == 0 {
        Seq::empty()
    } else {
        let a = attrs.last();
        ser_attrs(attrs.drop_last()) + " "@ + spec_qualified_name(a) + "=\""@ + spec_escape_attr(
            a.value,
        ) + "\""@
    }
}

/// Some attribute is named `xmlns`.
pub open spec fn has_xmlns(attrs: Seq<AttrV>) -> bool {
    exists|i: int| 0 <= i < attrs.len() && spec_qualified_name(#[trigger] attrs[i]) == "xmlns"@
}

pub open spec fn ser_doctype(name: Seq<char>, public_id: Seq<char>, system_id: Seq<char>) -> Seq<
    char,
> {
    "<!DOCTYPE "@ + name + if public_id.len() != 0 {
        " PUBLIC \""@ + public_id + "\" \""@ + system_id + "\""@
    } else if system_id.len() != 0 {
        " SYSTEM \""@ + system_id + "\""@
    } else {
        Seq::empty()
    } + ">"@
}

/// A doctype node is written with its name and both of its identifiers: the
/// public one, when there is one, is followed by the system one; a system
/// identifier alone is written after `SYSTEM`; with neither, only the name.
pub proof fn lemma_doctype_written_whole(
    name: Seq<char>,
    public_id: Seq<char>,
    system_id: Seq<char>,
    children: Seq<NodeV>,
    raw: bool,
)
    ensures
        ({
            let out = ser_node(
                NodeV { data: DataV::Doctype { name, public_id, system_id }, children },
                raw,
            );
            &&& public_id.len() > 0 ==> out == "<!DOCTYPE "@ + name + " PUBLIC \""@ + public_id
                + "\" \""@ + system_id + "\">"@
            &&& public_id.len() == 0 && system_id.len() > 0 ==> out == "<!DOCTYPE "@ + name
                + " SYSTEM \""@ + system_id + "\">"@
            &&& public_id.len() == 0 && system_id.len() == 0 ==> out == "<!DOCTYPE "@ + name
                + ">"@
        }),
{
    reveal_strlit("\"");
    reveal_strlit("\">");
    reveal_strlit(">");
    reveal_strlit("\" \"");
    let out = ser_doctype(name, public_id, system_id);
    if public_id.len() > 0 {
        assert(out =~= "<!DOCTYPE "@ + name + " PUBLIC \""@ + public_id + "\" \""@ + system_id
            + "\">"@);
    } else if system_id.len() > 0 {
        assert(out =~= "<!DOCTYPE "@ + name + " SYSTEM \""@ + system_id + "\">"@);
    } else {
        assert(out =~= "<!DOCTYPE "@ + name + ">"@);
    }
}

/// `<name attrs...`, with the XHTML namespace added to a bare `html` element.
pub open spec fn open_tag(name: Seq<char>, attrs: Seq<AttrV>) -> Seq<char> {
    "<"@ + name + ser_attrs(attrs) + if name == "html"@ && !has_xmlns(attrs) {
        " xmlns=\""@ + XHTML_NS@ + "\""@
    } else {
        Seq::empty()
    }
}

/// An attribute's name as written: `prefix:local`, or `local` alone.
pub open spec fn written_name(a: AttrV) -> Seq<char> {
    match a.prefix {
        Some(p) => p + seq![':'] + a.local,
        None => a.local,
    }
}

/// The attributes as written in a start tag: for each, a space, its name,
/// `="`, its escaped value and `"`.
pub open spec fn attributes_text(attrs: Seq<AttrV>) -> Seq<char>
    decreases attrs.len(),
{
    if attrs.len() == 0 {
        Seq::empty()
    } else {
        let a = attrs.last();
        attributes_text(attrs.drop_last()) + seq![' '] + written_name(a) + seq!['=', '"']
            + spec_escape_attr(a.value) + seq!['"']
    }
}

proof fn lemma_attributes_text(attrs: Seq<AttrV>)
    ensures
        ser_attrs(attrs) == attributes_text(attrs),
    decreases attrs.len(),
{
    reveal_strlit(" ");
    reveal_strlit(":");
    reveal_strlit("=\"");
    reveal_strlit("\"");
    assert(" "@ =~= seq![' ']);
    assert(":"@ =~= seq![':']);
    assert("=\""@ =~= seq!['=', '"']);
    assert("\""@ =~= seq!['"']);
    if attrs.len() > 0 {
        lemma_attributes_text(attrs.drop_last());
    }
}

/// A start tag is `<`, the name and the attributes in their order; an
/// `html` element with no `xmlns` attribute also gets
/// ` xmlns="http://www.w3.org/1999/xhtml"`.
pub proof fn lemma_start_tag(name: Seq<char>, attrs: Seq<AttrV>)
    ensures
        open_tag(name, attrs) == "<"@ + name + attributes_text(attrs) + if name == "html"@ && (
        forall|i: int| 0 <= i < attrs.len() ==> written_name(#[trigger] attrs[i]) != "xmlns"@) {
            " xmlns=\"http://www.w3.org/1999/xhtml\""@
        } else {
            Seq::empty()
        },
{
    lemma_attributes_text(attrs);
    reveal_strlit(":");
    assert(":"@ =~= seq![':']);
    assert(forall|a: AttrV| #[trigger] written_name(a) == spec_qualified_name(a));
    reveal_strlit(" xmlns=\"");
    reveal_strlit("\"");
    reveal_strlit("http://www.w3.org/1999/xhtml");
    reveal_strlit(" xmlns=\"http://www.w3.org/1999/xhtml\"");
    assert(XHTML_NS@ == "http://www.w3.org/1999/xhtml"@);
    assert(" xmlns=\""@ + XHTML_NS@ + "\""@ =~= " xmlns=\"http://www.w3.org/1999/xhtml\""@);
}

/// The serialization of a node; `raw` when it sits in a raw-text element.
pub open spec fn ser_node(n: NodeV, raw: bool) -> Seq<char>
    decreases n, 1int,
{
    match n.data {
        DataV::Document => ser_children(n.children, false),
        DataV::Doctype { name, public_id, system_id } => ser_doctype(name, public_id, system_id),
        DataV::Text { contents } => if raw {
            contents
        } else {
            spec_escape_text(contents)
        },
        DataV::Comment { contents } => "<!--"@ + contents + "-->"@,
        DataV::ProcessingInstruction { target, contents } => "<?"@ + target + " "@ + contents
            + "?>"@,
        DataV::Element { name, attrs } => {
            let open = open_tag(name, attrs);
            if n.children.len() == 0 && is_void(name) {
                open + "/>"@
            } else {
                open + ">"@ + ser_children(n.children, is_raw_text(name)) + "</"@ + name + ">"@
            }
        },
    }
}

/// A comment is written as `<!--contents-->`, a processing instruction as
/// `<?target contents?>`, and text as it is inside `script` and `style`
/// and escaped elsewhere.
pub proof fn lemma_leaf_nodes_written(a: Seq<char>, b: Seq<char>, children: Seq<NodeV>, raw: bool)
    ensures
        ser_node(NodeV { data: DataV::Comment { contents: a }, children }, raw) == "<!--"@ + a
            + "-->"@,
        ser_node(NodeV { data: DataV::ProcessingInstruction { target: a, contents: b }, children }, raw)
            == "<?"@ + a + " "@ + b + "?>"@,
        ser_node(NodeV { data: DataV::Text { contents: a }, children }, raw) == if raw {
            a
        } else {
            spec_escape_text(a)
        },
{
}

/// The serializations of a sequence of sibling nodes, concatenated.
pub open spec fn ser_children(cs: Seq<NodeV>, raw: bool) -> Seq<char>
    decreases cs, 0int,
{
    if cs.len() == 0 {
        Seq::empty()
    } else {
        ser_children(cs.drop_last(), raw) + ser_node(cs.last(), raw)
    }
}

/// Siblings are written one after another, in their order.
pub proof fn lemma_children_in_order(a: Seq<NodeV>, b: Seq<NodeV>, x: NodeV, raw: bool)
    ensures
        ser_children(seq![x], raw) == ser_node(x, raw),
        ser_children(a + b, raw) == ser_children(a, raw) + ser_children(b, raw),
    decreases b.len(),
{
    assert(seq![x].drop_last() =~= Seq::<NodeV>::empty());
    assert(ser_children(Seq::<NodeV>::empty(), raw) == Seq::<char>::empty());
    assert(Seq::<char>::empty() + ser_node(x, raw) =~= ser_node(x, raw));
    if b.len() == 0 {
        assert(a + b =~= a);
        assert(ser_children(a, raw) + Seq::<char>::empty() =~= ser_children(a, raw));
    } else {
        lemma_children_in_order(a, b.drop_last(), x, raw);
        assert((a + b).drop_last() =~= a + b.drop_last());
        assert((a + b).last() == b.last());
        assert(ser_children(a, raw) + ser_children(b.drop_last(), raw) + ser_node(b.last(), raw)
            =~= ser_children(a, raw) + (ser_children(b.drop_last(), raw) + ser_node(b.last(), raw)));
    }
}

/// The whole output for a document: the XML declaration line, if any, then
/// the tree.
pub open spec fn spec_serialize(decl: Option<Seq<char>>, dom: NodeV) -> Seq<char> {
    match decl {
        Some(d) => d + "\n"@ + ser_node(dom, false),
        None => ser_node(dom, false),
    }
}

/// The XML declaration, when the document had one, is written first, on a
/// line of its own, before the tree; a document node is written as its
/// children one after another.
pub proof fn lemma_declaration_first(d: Seq<char>, dom: NodeV)
    ensures
        spec_serialize(Some(d), dom) == d + seq!['\n'] + spec_serialize(None, dom),
        dom.data is Document ==> spec_serialize(None, dom) == ser_children(dom.children, false),
{
    reveal_strlit("\n");
    assert("\n"@ =~= seq!['\n']);
}

/// Serialize a document back to polyglot HTML/XHTML: void elements are
/// self-closed, all other elements get explicit end tags, and the original
/// XML declaration (if any) is restored.
pub fn serialize(doc: &Document) -> (out: String)
    ensures
        out@ == spec_serialize(
            match doc.xml_declaration {
                Some(d) => Some(d@),
                None => None,
            },
            doc.dom@,
        ),
{
    let mut out = String::new();
    match &doc.xml_declaration {
        Some(decl) => {
            out.push_str(decl.as_str());
            out.push('\n');
        },
        None => {},
    }
    let ghost start = out@;
    write_node(&doc.dom, false, &mut out);
    proof {
        if doc.xml_declaration is Some {
            assert(start =~= doc.xml_declaration->0@ + "\n"@) by {
                reveal_strlit("\n");
            }
        } else {
            assert(start =~= Seq::<char>::empty());
        }
    }
    out
}

fn is_void_tag(tag: &str) -> (b: bool)
    ensures
        b == is_void(tag@),
{
    str_eq(tag, "area") || str_eq(tag, "base") || str_eq(tag, "br") || str_eq(tag, "col")
        || str_eq(tag, "embed") || str_eq(tag, "hr") || str_eq(tag, "img") || str_eq(tag, "input")
        || str_eq(tag, "link") || str_eq(tag, "meta") || str_eq(tag, "param") || str_eq(
        tag,
        "source",
    ) || str_eq(tag, "track") || str_eq(tag, "wbr")
}

fn write_doctype(name: &String, public_id: &String, system_id: &String, out: &mut String)
    ensures
        final(out)@ == old(out)@ + ser_doctype(name@, public_id@, system_id@),
{
    out.push_str("<!DOCTYPE ");
    out.push_str(name.as_str());
    if !public_id.as_str().is_empty() {
        out.push_str(" PUBLIC \"");
        out.push_str(public_id.as_str());
        out.push_str("\" \"");
        out.push_str(system_id.as_str());
        out.push_str("\"");
    } else if !system_id.as_str().is_empty() {
        out.push_str(" SYSTEM \"");
        out.push_str(system_id.as_str());
        out.push_str("\"");
    }
    out.push_str(">");
    proof {
        assert(final(out)@ =~= old(out)@ + ser_doctype(name@, public_id@, system_id@));
    }
}

/// Reconstruct an attribute name, including any namespace prefix.
pub fn qualified_attr_name(attr: &Attribute) -> (name: String)
    ensures
        name@ == spec_qualified_name(attr@),
{
    match &attr.prefix {
        Some(prefix) => {
            let mut s = prefix.clone();
            s.push_str(":");
            s.push_str(attr.local.as_str());
            s
        },
        None => attr.local.clone(),
    }
}

/// Append `text` with `&`, `<`, `>` and no-break spaces escaped.
pub fn escape_text(text: &str, out: &mut String)
    ensures
        final(out)@ == old(out)@ + spec_escape_text(text@),
{
    let cs = chars_of(text);
    let ghost start = out@;
    let mut i: usize = 0;
    while i < cs.len()
        invariant
            cs@ == text@,
            i <= cs.len(),
            out@ == start + spec_escape_text(cs@.take(i as int)),
        decreases cs.len() - i,
    {
        let ch = cs[i];
        if ch == '&' {
            out.push_str("&amp;");
        } else if ch == '<' {
            out.push_str("&lt;");
        } else if ch == '>' {
            out.push_str("&gt;");
        } else if ch == '\u{00A0}' {
            out.push_str("&#160;");
        } else {
            out.push(ch);
        }
        assert(cs@.take(i + 1).drop_last() =~= cs@.take(i as int));
        assert(out@ =~= start + spec_escape_text(cs@.take(i + 1)));
        i += 1;
    }
    assert(cs@.take(cs.len() as int) =~= text@);
}

/// Append `value` with `&`, `<`, `"` and no-break spaces escaped.
pub fn escape_attr(value: &str, out: &mut String)
    ensures
        final(out)@ == old(out)@ + spec_escape_attr(value@),
{
    let cs = chars_of(value);
    let ghost start = out@;
    let mut i: usize = 0;
    while i < cs.len()
        invariant
            cs@ == value@,
            i <= cs.len(),
            out@ == start + spec_escape_attr(cs@.take(i as int)),
        decreases cs.len() - i,
    {
        let ch = cs[i];
        if ch == '&' {
            out.push_str("&amp;");
        } else if ch == '<' {
            out.push_str("&lt;");
        } else if ch == '"' {
            out.push_str("&quot;");
        } else if ch == '\u{00A0}' {
            out.push_str("&#160;");
        } else {
            out.push(ch);
        }
        assert(cs@.take(i + 1).drop_last() =~= cs@.take(i as int));
        assert(out@ =~= start + spec_escape_attr(cs@.take(i + 1)));
        i += 1;
    }
    assert(cs@.take(cs.len() as int) =~= value@);
}

/// Append ` name="value"` for every attribute; tells whether one is `xmlns`.
fn write_attrs(attrs: &Vec<Attribute>, out: &mut String) -> (found_xmlns: bool)
    ensures
        final(out)@ == old(out)@ + ser_attrs(attrs_view(attrs@)),
        found_xmlns == has_xmlns(attrs_view(attrs@)),
{
    let ghost start = out@;
    let ghost av = attrs_view(attrs@);
    let mut found = false;
    let mut k: usize = 0;
    while k < attrs.len()
        invariant
            av == attrs_view(attrs@),
            k <= attrs@.len(),
            out@ == start + ser_attrs(av.take(k as int)),
            found == exists|i: int| 0 <= i < k && spec_qualified_name(#[trigger] av[i]) == "xmlns"@,
        decreases attrs@.len() - k,
    {
        let attr = &attrs[k];
        let name = qualified_attr_name(attr);
        if str_eq(name.as_str(), "xmlns") {
            found = true;
        }
        out.push_str(" ");
        out.push_str(name.as_str());
        out.push_str("=\"");
        escape_attr(attr.value.as_str(), out);
        out.push_str("\"");
        assert(av[k as int] == attr@);
        assert(av.take(k + 1).drop_last() =~= av.take(k as int));
        assert(out@ =~= start + ser_attrs(av.take(k + 1)));
        k += 1;
    }
    assert(av.take(attrs@.len() as int) =~= av);
    found
}

fn write_node(node: &HtmlNode, raw_text: bool, out: &mut String)
    ensures
        final(out)@ == old(out)@ + ser_node(node@, raw_text),
    decreases node,
{
    let ghost start = out@;
    proof {
        lemma_nodes_view(node.children@);
    }
    match &node.data {
        NodeData::Document => {
            write_children(node, false, out);
        },
        NodeData::Doctype { name, public_id, system_id } => {
            write_doctype(name, public_id, system_id, out);
        },
        NodeData::Text { contents } => {
            if raw_text {
                out.push_str(contents.as_str());
            } else {
                escape_text(contents.as_str(), out);
            }
        },
        NodeData::Comment { contents } => {
            out.push_str("<!--");
            out.push_str(contents.as_str());
            out.push_str("-->");
            assert(out@ =~= start + ser_node(node@, raw_text));
        },
        NodeData::ProcessingInstruction { target, contents } => {
            out.push_str("<?");
            out.push_str(target.as_str());
            out.push_str(" ");
            out.push_str(contents.as_str());
            out.push_str("?>");
            assert(out@ =~= start + ser_node(node@, raw_text));
        },
        NodeData::Element { name, attrs } => {
            let tag = name.as_str();
            write_open_tag(name, attrs, out);
            if node.children.len() == 0 && is_void_tag(tag) {
                out.push_str("/>");
            } else {
                out.push_str(">");
                let child_raw = str_eq(tag, "script") || str_eq(tag, "style");
                write_children(node, child_raw, out);
                out.push_str("</");
                out.push_str(tag);
                out.push_str(">");
            }
            assert(out@ =~= start + ser_node(node@, raw_text));
        },
    }
}

fn write_open_tag(name: &String, attrs: &Vec<Attribute>, out: &mut String)
    ensures
        final(out)@ == old(out)@ + open_tag(name@, attrs_view(attrs@)),
{
    let ghost start = out@;
    let tag = name.as_str();
    out.push_str("<");
    out.push_str(tag);
    let has_xmlns_attr = write_attrs(attrs, out);
    if str_eq(tag, "html") && !has_xmlns_attr {
        out.push_str(" xmlns=\"");
        out.push_str(XHTML_NS);
        out.push_str("\"");
    }
    assert(out@ =~= start + open_tag(name@, attrs_view(attrs@)));
}

fn write_children(node: &HtmlNode, raw_text: bool, out: &mut String)
    ensures
        final(out)@ == old(out)@ + ser_children(node@.children, raw_text),
    decreases node, 0int,
{
    let ghost start = out@;
    let ghost cv = node@.children;
    proof {
        lemma_nodes_view(node.children@);
    }
    let mut i: usize = 0;
    while i < node.children.len()
        invariant
            cv == node@.children,
            cv == nodes_view(node.children@),
            cv.len() == node.children@.len(),
            forall|j: int| 0 <= j < cv.len() ==> #[trigger] cv[j] == node.children@[j]@,
            i <= node.children@.len(),
            out@ == start + ser_children(cv.take(i as int), raw_text),
        decreases node.children@.len() - i,
    {
        write_node(&node.children[i], raw_text, out);
        assert(cv.take(i + 1).drop_last() =~= cv.take(i as int));
        assert(out@ =~= start + ser_children(cv.take(i + 1), raw_text));
        i += 1;
    }
    assert(cv.take(cv.len() as int) =~= cv);
}

} // verus!
