//! Parsing content documents.
use vstd::prelude::*;

use std::rc::Rc;

use html5ever::tendril::TendrilSink;
use markup5ever_rcdom::NodeData as RcNodeData;

use crate::dom::{attrs_view, lemma_nodes_view_push, node_view, nodes_view, Attribute, DataV, HtmlNode, NodeData, NodeV};
use crate::text::{chars_of, is_unicode_ws, is_whitespace, string_of};

verus! {

/// A parsed XHTML content document.
pub struct Document {
    /// The document node.
    pub dom: HtmlNode,
    /// The leading `<?xml ... ?>` declaration, kept verbatim for re-emission
    /// (the HTML parser would otherwise turn it into a comment).
    pub xml_declaration: Option<String>,
}

/// What `String::from_utf8_lossy` makes of some bytes: the decoded text, with
/// U+FFFD in place of each invalid sequence.
pub uninterp spec fn utf8_lossy(bytes: Seq<u8>) -> Seq<char>;

/// The document tree that html5ever's HTML5 tree builder, with default
/// options and an `RcDom` sink, builds for a text.
pub uninterp spec fn html5ever_tree(text: Seq<char>) -> NodeV;

/// `String::from_utf8_lossy` on `bytes[start..]`, as an owned `String`.
/// Claimed: the result is `utf8_lossy` of those bytes, which is their plain
/// decoding when they are valid UTF-8 (as the std documentation states).
#[verifier::external_body]
pub(crate) fn lossy_utf8_from(bytes: &[u8], start: usize) -> (s: String)
    requires
        start <= bytes@.len(),
    ensures
        s@ == utf8_lossy(bytes@.skip(start as int)),
        vstd::utf8::valid_utf8(bytes@.skip(start as int)) ==> s@ == vstd::utf8::decode_utf8(
            bytes@.skip(start as int),
        ),
{
    String::from_utf8_lossy(&bytes[start..]).into_owned()
}

/// `markup5ever_rcdom::Node`, the node type of html5ever's reference-counted DOM.
#[verifier::external_type_specification]
#[verifier::external_body]
pub struct ExRcDomNode(markup5ever_rcdom::Node);

/// What an `RcDom` node holds: its data and, in order, what its children hold.
pub uninterp spec fn rcdom_tree(node: markup5ever_rcdom::Node) -> NodeV;

/// The data of a node with an element's attributes left out.
pub open spec fn without_attrs(d: DataV) -> DataV {
    match d {
        DataV::Element { name, attrs } => DataV::Element { name, attrs: Seq::empty() },
        other => other,
    }
}

/// html5ever's `parse_document` into an `RcDom`, fed the whole text; the
/// document node. Claimed: what it holds is `html5ever_tree` of the text, a
/// function of the text alone.
#[verifier::external_body]
fn parse_html(text: &str) -> (doc: Rc<markup5ever_rcdom::Node>)
    ensures
        rcdom_tree(*doc) == html5ever_tree(text@),
{
    let sink = markup5ever_rcdom::RcDom::default();
    html5ever::parse_document(sink, Default::default()).one(text).document
}

/// A node's `data`, each field turned into a string; an element's
/// attributes are left out (`element_attributes` gives them). Claimed: it is
/// what `rcdom_tree` says the node holds, attributes aside.
#[verifier::external_body]
fn node_data(node: &Rc<markup5ever_rcdom::Node>) -> (d: NodeData)
    ensures
        d@ == without_attrs(rcdom_tree(**node).data),
{
    match &node.data {
        RcNodeData::Document => NodeData::Document,
        RcNodeData::Doctype { name, public_id, system_id } => NodeData::Doctype {
            name: name.to_string(),
            public_id: public_id.to_string(),
            system_id: system_id.to_string(),
        },
        RcNodeData::Text { contents } => NodeData::Text { contents: contents.borrow().to_string() },
        RcNodeData::Comment { contents } => NodeData::Comment { contents: contents.to_string() },
        RcNodeData::ProcessingInstruction { target, contents } => NodeData::ProcessingInstruction {
            target: target.to_string(),
            contents: contents.to_string(),
        },
        RcNodeData::Element { name, .. } => NodeData::Element { name: name.local.to_string(), attrs: Vec::new() },
    }
}

/// An element's attributes, in order, each as (prefix, local name, value);
/// none for any other node. Claimed: they are the attributes that
/// `rcdom_tree` says the element holds.
#[verifier::external_body]
fn element_attributes(node: &Rc<markup5ever_rcdom::Node>) -> (attrs: Vec<Attribute>)
    ensures
        rcdom_tree(**node).data is Element ==> attrs_view(attrs@) == rcdom_tree(**node).data->attrs,
        !(rcdom_tree(**node).data is Element) ==> attrs@.len() == 0,
{
    let mut out = Vec::new();
    if let RcNodeData::Element { attrs, .. } = &node.data {
        for a in attrs.borrow().iter() {
            let prefix = match &a.name.prefix {
                Some(p) => Some(p.to_string()),
                None => None,
            };
            out.push(Attribute { prefix, local: a.name.local.to_string(), value: a.value.to_string() });
        }
    }
    out
}

/// The node's children (a clone of its `children` list). Claimed: in order,
/// each holds what `rcdom_tree` says the node's child at that place holds.
#[verifier::external_body]
fn node_children(node: &Rc<markup5ever_rcdom::Node>) -> (children: Vec<Rc<markup5ever_rcdom::Node>>)
    ensures
        children@.len() == rcdom_tree(**node).children.len(),
        forall|i: int|
            0 <= i < children@.len() ==> rcdom_tree(*#[trigger] children@[i]) == rcdom_tree(
                **node,
            ).children[i],
{
    node.children.borrow().clone()
}

/// What the node behind a handle holds.
pub open spec fn handle_tree(node: &Rc<markup5ever_rcdom::Node>) -> NodeV {
    rcdom_tree(**node)
}

/// Copy an `RcDom` node and its descendants into an `HtmlNode` tree.
fn copy_node(node: &Rc<markup5ever_rcdom::Node>) -> (n: HtmlNode)
    ensures
        node_view(n) == rcdom_tree(**node),
    decreases rcdom_tree(**node),
{
    let ghost t = handle_tree(node);
    let mut data = node_data(node);
    if let NodeData::Element { name, attrs } = data {
        let all = element_attributes(node);
        data = NodeData::Element { name, attrs: all };
    }
    assert(data@ == t.data);
    let kids = node_children(node);
    let mut children: Vec<HtmlNode> = Vec::new();
    let mut i: usize = 0;
    while i < kids.len()
        invariant
            t == handle_tree(node),
            kids@.len() == t.children.len(),
            forall|k: int| 0 <= k < kids@.len() ==> handle_tree(&#[trigger] kids@[k]) == t.children[k],
            i <= kids@.len(),
            nodes_view(children@) == t.children.take(i as int),
        decreases kids@.len() - i,
    {
        assert(decreases_to!(t => t.children[i as int]));
        let c = copy_node(&kids[i]);
        let ghost before = children@;
        children.push(c);
        proof {
            lemma_nodes_view_push(before, c);
        }
        assert(t.children.take(i + 1) =~= t.children.take(i as int).push(t.children[i as int]));
        i += 1;
    }
    assert(t.children.take(t.children.len() as int) =~= t.children);
    HtmlNode { data, children }
}

/// The bytes with a leading UTF-8 byte-order mark removed.
pub open spec fn without_bom(bytes: Seq<u8>) -> Seq<u8> {
    if bytes.len() >= 3 && bytes[0] == 0xEF && bytes[1] == 0xBB && bytes[2] == 0xBF {
        bytes.skip(3)
    } else {
        bytes
    }
}

/// Decode bytes as UTF-8, dropping a leading byte-order mark if present.
pub fn decode_utf8(bytes: &[u8]) -> (text: String)
    ensures
        text@ == utf8_lossy(without_bom(bytes@)),
        vstd::utf8::valid_utf8(without_bom(bytes@)) ==> text@ == vstd::utf8::decode_utf8(
            without_bom(bytes@),
        ),
{
    let start: usize = if bytes.len() >= 3 && bytes[0] == 0xEF && bytes[1] == 0xBB && bytes[2]
        == 0xBF {
        3
    } else {
        0
    };
    proof {
        assert(bytes@.skip(0) =~= bytes@);
    }
    lossy_utf8_from(bytes, start)
}

/// Number of leading whitespace characters.
pub open spec fn leading_ws(s: Seq<char>) -> int
    decreases s.len(),
{
    if s.len() > 0 && is_unicode_ws(s[0]) {
        1 + leading_ws(s.drop_first())
    } else {
        0
    }
}

/// `s[i..]` starts with `pat`.
pub open spec fn matches_at(s: Seq<char>, pat: Seq<char>, i: int) -> bool {
    0 <= i && i + pat.len() <= s.len() && s.subrange(i, i + pat.len()) == pat
}

/// First index at or after `i` where `pat` occurs in `s`.
pub open spec fn find_at_or_after(s: Seq<char>, pat: Seq<char>, i: int) -> Option<int>
    decreases s.len() + 1 - i,
{
    if i < 0 || i > s.len() || i + pat.len() > s.len() {
        None
    } else if matches_at(s, pat, i) {
        Some(i)
    } else {
        find_at_or_after(s, pat, i + 1)
    }
}

/// A leading `<?xml ... ?>` declaration (after leading whitespace), and the
/// text after it; or no declaration and the whole text.
pub open spec fn spec_split_xml_declaration(text: Seq<char>) -> (Option<Seq<char>>, Seq<char>) {
    let offset = leading_ws(text);
    let trimmed = text.skip(offset);
    if matches_at(trimmed, "<?xml"@, 0) {
        match find_at_or_after(trimmed, "?>"@, 0) {
            Some(end) => (Some(trimmed.take(end + 2)), text.skip(offset + end + 2)),
            None => (None, text),
        }
    } else {
        (None, text)
    }
}

proof fn lemma_leading_ws_bound(s: Seq<char>)
    ensures
        0 <= leading_ws(s) <= s.len(),
        forall|k: int| 0 <= k < leading_ws(s) ==> is_unicode_ws(#[trigger] s[k]),
        leading_ws(s) < s.len() ==> !is_unicode_ws(s[leading_ws(s)]),
    decreases s.len(),
{
    if s.len() > 0 && is_unicode_ws(s[0]) {
        lemma_leading_ws_bound(s.drop_first());
        assert forall|k: int| 0 <= k < leading_ws(s) implies is_unicode_ws(#[trigger] s[k]) by {
            if k > 0 {
                assert(s[k] == s.drop_first()[k - 1]);
            }
        }
    }
}

proof fn lemma_leading_ws_skip(s: Seq<char>, i: int)
    requires
        0 <= i <= s.len(),
        forall|k: int| 0 <= k < i ==> is_unicode_ws(#[trigger] s[k]),
    ensures
        leading_ws(s) == i + leading_ws(s.skip(i)),
    decreases i,
{
    if i > 0 {
        assert(s.drop_first().skip(i - 1) =~= s.skip(i));
        assert forall|k: int| 0 <= k < i - 1 implies is_unicode_ws(#[trigger] s.drop_first()[k]) by {
            assert(s.drop_first()[k] == s[k + 1]);
        }
        lemma_leading_ws_skip(s.drop_first(), i - 1);
    } else {
        assert(s.skip(0) =~= s);
    }
}

fn matches_at_exec(s: &Vec<char>, pat: &Vec<char>, i: usize) -> (b: bool)
    ensures
        b == matches_at(s@, pat@, i as int),
{
    if i > s.len() || pat.len() > s.len() - i {
        return false;
    }
    let mut k: usize = 0;
    while k < pat.len()
        invariant
            i + pat@.len() <= s@.len(),
            i <= s@.len(),
            s@.len() == s.len(),
            k <= pat@.len(),
            forall|m: int| 0 <= m < k ==> s@[i + m] == pat@[m],
        decreases pat@.len() - k,
    {
        if s[i + k] != pat[k] {
            assert(s@.subrange(i as int, i + pat@.len())[k as int] != pat@[k as int]);
            return false;
        }
        k += 1;
    }
    assert(s@.subrange(i as int, i + pat@.len()) =~= pat@);
    true
}

/// Split off a leading `<?xml ... ?>` declaration, returning it and the rest.
pub fn split_xml_declaration(text: &str) -> (r: (Option<String>, String))
    ensures
        (match r.0 {
            Some(d) => Some(d@),
            None => None,
        }, r.1@) == spec_split_xml_declaration(text@),
{
    let cs = chars_of(text);
    let n = cs.len();
    let mut offset: usize = 0;
    while offset < n && is_whitespace(cs[offset])
        invariant
            cs@ == text@,
            n == cs@.len(),
            offset <= n,
            forall|k: int| 0 <= k < offset ==> is_unicode_ws(#[trigger] cs@[k]),
        decreases n - offset,
    {
        offset += 1;
    }
    proof {
        lemma_leading_ws_skip(cs@, offset as int);
        if offset < n {
            assert(cs@.skip(offset as int)[0] == cs@[offset as int]);
        }
        assert(leading_ws(cs@.skip(offset as int)) == 0);
    }
    let trimmed = string_of(&cs, offset, n);
    let tc = chars_of(trimmed.as_str());
    assert(tc@ =~= text@.skip(offset as int));
    let open_pat = chars_of("<?xml");
    let close_pat = chars_of("?>");
    assert(leading_ws(text@) == offset);
    if matches_at_exec(&tc, &open_pat, 0) {
        let mut e: usize = 0;
        while e < tc.len()
            invariant
                tc@ == text@.skip(offset as int),
                cs@ == text@,
                n == cs@.len(),
                offset <= n,
                tc@.len() == n - offset,
                leading_ws(text@) == offset,
                matches_at(tc@, "<?xml"@, 0),
                close_pat@ == "?>"@,
                e <= tc@.len(),
                find_at_or_after(tc@, "?>"@, 0) == find_at_or_after(tc@, "?>"@, e as int),
            decreases tc@.len() - e,
        {
            if matches_at_exec(&tc, &close_pat, e) {
                proof {
                    reveal_strlit("?>");
                }
                let decl = string_of(&tc, 0, e + 2);
                let rest = string_of(&cs, offset + e + 2, n);
                assert(decl@ =~= tc@.take(e + 2));
                assert(rest@ =~= text@.skip(offset + e + 2));
                assert(find_at_or_after(tc@, "?>"@, e as int) == Some(e as int));
                assert(leading_ws(text@) == offset);
                assert(matches_at(tc@, "<?xml"@, 0));
                return (Some(decl), rest);
            }
            e += 1;
        }
        proof {
            reveal_strlit("?>");
        }
    }
    let all = string_of(&cs, 0, n);
    assert(all@ =~= text@);
    (None, all)
}

/// `?>` stands at `j` in `s`.
pub open spec fn closes_at(s: Seq<char>, j: int) -> bool {
    0 <= j && j + 1 < s.len() && s[j] == '?' && s[j + 1] == '>'
}

proof fn lemma_find_close(s: Seq<char>, i: int)
    requires
        0 <= i <= s.len(),
    ensures
        find_at_or_after(s, "?>"@, i) matches Some(e) ==> i <= e && closes_at(s, e) && forall|j: int|
            i <= j < e ==> !closes_at(s, j),
        find_at_or_after(s, "?>"@, i) is None ==> forall|j: int| i <= j ==> !closes_at(s, j),
    decreases s.len() + 1 - i,
{
    reveal_strlit("?>");
    if i + 2 <= s.len() {
        if matches_at(s, "?>"@, i) {
            assert(s.subrange(i, i + 2)[0] == s[i]);
            assert(s.subrange(i, i + 2)[1] == s[i + 1]);
        } else {
            if closes_at(s, i) {
                assert(s.subrange(i, i + 2) =~= "?>"@);
            }
            lemma_find_close(s, i + 1);
        }
    }
}

/// A leading XML declaration is split off whole: after any leading
/// whitespace, text that starts with `<?xml` gives the declaration up to and
/// including the first `?>`, and the text after it; the whitespace, the
/// declaration and the rest make up the text. Text that does not start so,
/// or has no `?>`, has no declaration and is kept whole.
pub proof fn lemma_xml_declaration(text: Seq<char>, k: int)
    requires
        0 <= k <= text.len(),
        forall|i: int| 0 <= i < k ==> is_unicode_ws(#[trigger] text[i]),
        k < text.len() ==> !is_unicode_ws(text[k]),
    ensures
        ({
            let (decl, rest) = spec_split_xml_declaration(text);
            let t = text.skip(k);
            if t.len() >= 5 && t.take(5) == "<?xml"@ && exists|j: int| #[trigger] closes_at(t, j) {
                decl matches Some(d) && {
                    &&& text == text.take(k) + d + rest
                    &&& d.take(5) == "<?xml"@
                    &&& closes_at(d, d.len() - 2)
                    &&& forall|j: int| 0 <= j < d.len() - 2 ==> !#[trigger] closes_at(d, j)
                }
            } else {
                decl is None && rest == text
            }
        }),
{
    reveal_strlit("<?xml");
    lemma_leading_ws_bound(text);
    let w = leading_ws(text);
    if w < k {
        assert(is_unicode_ws(text[w]));
    }
    if w > k {
        assert(is_unicode_ws(text[k]));
    }
    assert(w == k);
    let t = text.skip(k);
    lemma_find_close(t, 0);
    if t.len() >= 5 && t.take(5) == "<?xml"@ {
        assert(t.subrange(0, 5) =~= t.take(5));
    }
    if matches_at(t, "<?xml"@, 0) {
        assert(t.subrange(0, 5) =~= t.take(5));
    }
    match find_at_or_after(t, "?>"@, 0) {
        Some(e) => {
            if matches_at(t, "<?xml"@, 0) {
                let d = t.take(e + 2);
                assert(text =~= text.take(k) + d + text.skip(k + e + 2));
                assert(d.take(5) =~= t.take(5)) by {
                    if e + 2 < 5 {
                        assert(closes_at(t, e));
                        assert(t.take(5)[e] == t[e]);
                        reveal_strlit("<?xml");
                        assert("<?xml"@[e] != '?' || "<?xml"@[e + 1] != '>');
                    }
                }
                assert(closes_at(d, d.len() - 2));
                assert forall|j: int| 0 <= j < d.len() - 2 implies !#[trigger] closes_at(d, j) by {
                    if closes_at(d, j) {
                        assert(closes_at(t, j));
                    }
                }
            }
        },
        None => {},
    }
}

/// The parsed document of a text: its XML declaration split off, the rest
/// given to the HTML5 parser.
pub open spec fn spec_parse(bytes: Seq<u8>) -> (Option<Seq<char>>, NodeV) {
    let (decl, rest) = spec_split_xml_declaration(utf8_lossy(without_bom(bytes)));
    (decl, html5ever_tree(rest))
}

/// Parse XHTML bytes with the error-tolerant HTML5 parser.
pub fn parse(bytes: &[u8]) -> (doc: Document)
    ensures
        (match doc.xml_declaration {
            Some(d) => Some(d@),
            None => None,
        }, doc.dom@) == spec_parse(bytes@),
{
    let text = decode_utf8(bytes);
    let (xml_declaration, rest) = split_xml_declaration(text.as_str());
    let root = parse_html(rest.as_str());
    let dom = copy_node(&root);
    Document { dom, xml_declaration }
}

} // verus!
