//! Kobo's structural wrapper divs and style hack.
use vstd::prelude::*;

use crate::dom::{
    attr_is, attr_lookup, find_child, is_element_named, lemma_find_from, lemma_find_from_same_names,
    lemma_nodes_view, lemma_nodes_view_push, lemma_nodes_view_update, nodes_view, plain_attr,
    spec_find_child, spec_get_attr, spec_local_name, spec_text, text,
    Attribute, DataV, HtmlNode, NodeData, NodeV,
};
use crate::kobospan::with_child;
use crate::parse::Document;
use crate::text::owned;

verus! {

/// The style that keeps Kobo from adding margins to the inner wrapper.
pub const KOBO_STYLE: &'static str = "div#book-inner { margin-top: 0; margin-bottom: 0;}";

/// An element with the given name and `id` attribute.
pub open spec fn is_tagged(n: NodeV, tag: Seq<char>, id: Seq<char>) -> bool {
    spec_local_name(n) == Some(tag) && spec_get_attr(n, "id"@) == Some(id)
}

/// Some child is an element with the given name and `id`.
pub open spec fn has_tagged_child(n: NodeV, tag: Seq<char>, id: Seq<char>) -> bool {
    exists|i: int| 0 <= i < n.children.len() && is_tagged(#[trigger] n.children[i], tag, id)
}

/// `<div id="..">` around the given children.
pub open spec fn div_with_id(id: Seq<char>, children: Seq<NodeV>) -> NodeV {
    NodeV {
        data: DataV::Element { name: "div"@, attrs: seq![plain_attr("id"@, id)] },
        children,
    }
}

/// The body with its children moved into `div#book-columns > div#book-inner`,
/// unless it is already wrapped.
pub open spec fn spec_wrap_body(body: NodeV) -> NodeV {
    if has_tagged_child(body, "div"@, "book-columns"@) {
        body
    } else {
        NodeV {
            data: body.data,
            children: seq![
                div_with_id("book-columns"@, seq![div_with_id("book-inner"@, body.children)]),
            ],
        }
    }
}

/// `<style id="kobostylehacks" type="text/css">` holding the Kobo style.
pub open spec fn kobo_style_node() -> NodeV {
    NodeV {
        data: DataV::Element {
            name: "style"@,
            attrs: seq![plain_attr("id"@, "kobostylehacks"@), plain_attr("type"@, "text/css"@)],
        },
        children: seq![spec_text(KOBO_STYLE@)],
    }
}

/// The head with the Kobo style appended, unless it already has it.
pub open spec fn spec_ensure_style(head: NodeV) -> NodeV {
    if has_tagged_child(head, "style"@, "kobostylehacks"@) {
        head
    } else {
        NodeV { data: head.data, children: head.children.push(kobo_style_node()) }
    }
}

/// The wrapping of a whole document tree.
pub open spec fn wrap_doc(d: NodeV) -> NodeV {
    match spec_find_child(d, "html"@) {
        None => d,
        Some(hi) => {
            let html = d.children[hi];
            let html1 = match spec_find_child(html, "head"@) {
                Some(h) => with_child(html, h, spec_ensure_style(html.children[h])),
                None => html,
            };
            let html2 = match spec_find_child(html1, "body"@) {
                Some(b) => with_child(html1, b, spec_wrap_body(html1.children[b])),
                None => html1,
            };
            with_child(d, hi, html2)
        },
    }
}

fn has_child_tagged(node: &HtmlNode, tag: &str, id: &str) -> (b: bool)
    ensures
        b == has_tagged_child(node@, tag@, id@),
{
    proof {
        lemma_nodes_view(node.children@);
    }
    let mut i: usize = 0;
    while i < node.children.len()
        invariant
            node@.children == nodes_view(node.children@),
            node@.children.len() == node.children@.len(),
            forall|j: int| 0 <= j < node.children@.len() ==> #[trigger] node@.children[j] == node.children@[j]@,
            i <= node.children@.len(),
            forall|j: int| 0 <= j < i ==> !is_tagged(#[trigger] node@.children[j], tag@, id@),
        decreases node.children@.len() - i,
    {
        let c = &node.children[i];
        if is_element_named(c, tag) && attr_is(c, "id", id) {
            assert(is_tagged(node@.children[i as int], tag@, id@));
            return true;
        }
        i += 1;
    }
    false
}

fn div_node(id: &str, children: Vec<HtmlNode>) -> (n: HtmlNode)
    ensures
        n@ == div_with_id(id@, nodes_view(children@)),
{
    let mut attrs = Vec::new();
    attrs.push(Attribute { prefix: None, local: owned("id"), value: owned(id) });
    let n = HtmlNode { data: NodeData::Element { name: owned("div"), attrs }, children };
    assert(crate::dom::attrs_view(attrs@) =~= seq![plain_attr("id"@, id@)]);
    n
}

fn wrap_body(body: &mut HtmlNode)
    ensures
        final(body)@ == spec_wrap_body(old(body)@),
{
    if has_child_tagged(body, "div", "book-columns") {
        return ;
    }
    let mut original: Vec<HtmlNode> = Vec::new();
    std::mem::swap(&mut original, &mut body.children);
    let inner = div_node("book-inner", original);
    let mut inner_list = Vec::new();
    inner_list.push(inner);
    let columns = div_node("book-columns", inner_list);
    let mut kids = Vec::new();
    kids.push(columns);
    body.children = kids;
    proof {
        lemma_nodes_view(inner_list@);
        lemma_nodes_view(kids@);
        assert(nodes_view(inner_list@) =~= seq![inner@]);
        assert(nodes_view(kids@) =~= seq![columns@]);
    }
}

fn ensure_style(head: &mut HtmlNode)
    ensures
        final(head)@ == spec_ensure_style(old(head)@),
{
    if has_child_tagged(head, "style", "kobostylehacks") {
        return ;
    }
    let mut attrs = Vec::new();
    attrs.push(Attribute { prefix: None, local: owned("id"), value: owned("kobostylehacks") });
    attrs.push(Attribute { prefix: None, local: owned("type"), value: owned("text/css") });
    let mut kids = Vec::new();
    kids.push(text(KOBO_STYLE));
    let style = HtmlNode { data: NodeData::Element { name: owned("style"), attrs }, children: kids };
    proof {
        lemma_nodes_view(kids@);
        assert(nodes_view(kids@) =~= seq![spec_text(KOBO_STYLE@)]);
        assert(crate::dom::attrs_view(attrs@) =~= seq![
            plain_attr("id"@, "kobostylehacks"@),
            plain_attr("type"@, "text/css"@),
        ]);
        lemma_nodes_view_push(head.children@, style);
    }
    head.children.push(style);
}

/// Apply the Kobo structural wrapping to a content document: wrap the body in
/// `div#book-columns > div#book-inner` and add the kobo style hack to the head.
/// Both steps are idempotent.
pub fn transform(doc: &mut Document)
    ensures
        final(doc).dom@ == wrap_doc(old(doc).dom@),
        final(doc).xml_declaration == old(doc).xml_declaration,
{
    let hi = match find_child(&doc.dom, "html") {
        Some(i) => i,
        None => return ,
    };
    proof {
        lemma_find_from(doc.dom@.children, "html"@, 0);
        lemma_nodes_view(doc.dom.children@);
    }
    let ghost d0 = doc.dom;
    let ghost h0 = doc.dom.children@[hi as int];
    match find_child(&doc.dom.children[hi], "head") {
        Some(h) => {
            proof {
                lemma_find_from(h0@.children, "head"@, 0);
                lemma_nodes_view(h0.children@);
            }
            ensure_style(&mut doc.dom.children[hi].children[h]);
            proof {
                let h1 = doc.dom.children@[hi as int];
                lemma_nodes_view_update(h0.children@, h as int, h1.children@[h as int]);
                assert(h1@ == with_child(h0@, h as int, h1.children@[h as int]@));
            }
        },
        None => {},
    }
    let ghost d1 = doc.dom;
    let ghost h1 = doc.dom.children@[hi as int];
    proof {
        lemma_nodes_view_update(d0.children@, hi as int, h1);
        lemma_nodes_view(d1.children@);
    }
    match find_child(&doc.dom.children[hi], "body") {
        Some(b) => {
            proof {
                lemma_find_from(h1@.children, "body"@, 0);
                lemma_nodes_view(h1.children@);
            }
            wrap_body(&mut doc.dom.children[hi].children[b]);
            proof {
                let h2 = doc.dom.children@[hi as int];
                lemma_nodes_view_update(h1.children@, b as int, h2.children@[b as int]);
                assert(h2@ == with_child(h1@, b as int, h2.children@[b as int]@));
                lemma_nodes_view_update(d1.children@, hi as int, h2);
            }
        },
        None => {},
    }
    proof {
        let h2 = doc.dom.children@[hi as int];
        lemma_nodes_view_update(d0.children@, hi as int, h2);
        assert(doc.dom.children@ =~= d0.children@.update(hi as int, h2));
        assert(doc.dom@.children =~= d0@.children.update(hi as int, h2@));
    }
}

/// Wrapping a body that is not wrapped yet leaves it one child, a `div`
/// with id `book-columns`, whose one child is a `div` with id `book-inner`
/// that holds all of the body's former children, in their order.
pub proof fn lemma_wrap_moves_every_child(body: NodeV)
    requires
        !has_tagged_child(body, "div"@, "book-columns"@),
    ensures
        ({
            let w = spec_wrap_body(body);
            &&& w.data == body.data
            &&& w.children.len() == 1
            &&& spec_local_name(w.children[0]) == Some("div"@)
            &&& spec_get_attr(w.children[0], "id"@) == Some("book-columns"@)
            &&& w.children[0].children.len() == 1
            &&& spec_local_name(w.children[0].children[0]) == Some("div"@)
            &&& spec_get_attr(w.children[0].children[0], "id"@) == Some("book-inner"@)
            &&& w.children[0].children[0].children == body.children
        }),
{
    reveal_strlit("id");
}

/// A head without the Kobo style keeps its children and gets, last, a
/// `style` element with id `kobostylehacks` and type `text/css` whose only
/// child is the text `div#book-inner { margin-top: 0; margin-bottom: 0;}`.
pub proof fn lemma_style_appended(head: NodeV)
    requires
        !has_tagged_child(head, "style"@, "kobostylehacks"@),
    ensures
        ({
            let h = spec_ensure_style(head);
            let st = h.children.last();
            &&& h.data == head.data
            &&& h.children.len() == head.children.len() + 1
            &&& h.children.take(head.children.len() as int) == head.children
            &&& spec_local_name(st) == Some("style"@)
            &&& spec_get_attr(st, "id"@) == Some("kobostylehacks"@)
            &&& spec_get_attr(st, "type"@) == Some("text/css"@)
            &&& st.children == seq![spec_text("div#book-inner { margin-top: 0; margin-bottom: 0;}"@)]
        }),
{
    reveal_strlit("id");
    reveal_strlit("type");
    assert("id"@ != "type"@) by {
        assert("id"@.len() != "type"@.len());
    }
    let h = spec_ensure_style(head);
    assert(h.children.take(head.children.len() as int) =~= head.children);
    let attrs = seq![plain_attr("id"@, "kobostylehacks"@), plain_attr("type"@, "text/css"@)];
    assert(attrs.drop_first() =~= seq![plain_attr("type"@, "text/css"@)]);
    assert(attrs[0].local != "type"@);
    assert(attr_lookup(seq![plain_attr("type"@, "text/css"@)], "type"@) == Some("text/css"@));
    assert(attr_lookup(attrs, "type"@) == Some("text/css"@));
}

proof fn lemma_ensure_style_idempotent(head: NodeV)
    ensures
        spec_ensure_style(spec_ensure_style(head)) == spec_ensure_style(head),
        spec_ensure_style(head).data == head.data,
{
    if !has_tagged_child(head, "style"@, "kobostylehacks"@) {
        let h2 = spec_ensure_style(head);
        let k = head.children.len() as int;
        assert(h2.children[k] == kobo_style_node());
        assert(is_tagged(h2.children[k], "style"@, "kobostylehacks"@));
    }
}

proof fn lemma_wrap_body_idempotent(body: NodeV)
    ensures
        spec_wrap_body(spec_wrap_body(body)) == spec_wrap_body(body),
        spec_wrap_body(body).data == body.data,
{
    if !has_tagged_child(body, "div"@, "book-columns"@) {
        let b2 = spec_wrap_body(body);
        assert(is_tagged(b2.children[0], "div"@, "book-columns"@));
    }
}

proof fn lemma_same_names_after(d: NodeV, i: int, c: NodeV, tag: Seq<char>)
    requires
        0 <= i < d.children.len(),
        c.data == d.children[i].data,
    ensures
        spec_find_child(with_child(d, i, c), tag) == spec_find_child(d, tag),
{
    lemma_find_from_same_names(with_child(d, i, c).children, d.children, tag, 0);
}

/// Wrapping a document rewrites only its `html` element: the `body` in it is
/// wrapped and the `head` in it gets the Kobo style; every other node stays
/// where and as it was.
pub proof fn lemma_wrap_doc_parts(d: NodeV, hi: int)
    requires
        spec_find_child(d, "html"@) == Some(hi),
    ensures
        ({
            let w = wrap_doc(d);
            let html = d.children[hi];
            &&& w.data == d.data
            &&& w.children.len() == d.children.len()
            &&& forall|i: int| 0 <= i < d.children.len() && i != hi ==> #[trigger] w.children[i] == d.children[i]
            &&& w.children[hi].data == html.data
            &&& w.children[hi].children.len() == html.children.len()
            &&& forall|i: int|
                0 <= i < html.children.len() ==> #[trigger] w.children[hi].children[i] == if Some(i)
                    == spec_find_child(html, "body"@) {
                    spec_wrap_body(html.children[i])
                } else if Some(i) == spec_find_child(html, "head"@) {
                    spec_ensure_style(html.children[i])
                } else {
                    html.children[i]
                }
        }),
{
    lemma_find_from(d.children, "html"@, 0);
    let html = d.children[hi];
    lemma_find_from(html.children, "head"@, 0);
    lemma_find_from(html.children, "body"@, 0);
    let html1 = match spec_find_child(html, "head"@) {
        Some(h) => with_child(html, h, spec_ensure_style(html.children[h])),
        None => html,
    };
    match spec_find_child(html, "head"@) {
        Some(h) => {
            lemma_ensure_style_idempotent(html.children[h]);
            lemma_same_names_after(html, h, spec_ensure_style(html.children[h]), "body"@);
        },
        None => {},
    }
    match spec_find_child(html, "body"@) {
        Some(b) => {
            lemma_wrap_body_idempotent(html1.children[b]);
            match spec_find_child(html, "head"@) {
                Some(h) => {
                    assert(h != b) by {
                        reveal_strlit("head");
                        reveal_strlit("body");
                        assert("head"@[0] != "body"@[0]);
                    }
                },
                None => {},
            }
        },
        None => {},
    }
}

/// Wrapping a document twice gives the same tree as wrapping it once.
pub proof fn lemma_wrap_idempotent(d: NodeV)
    ensures
        wrap_doc(wrap_doc(d)) == wrap_doc(d),
{
    match spec_find_child(d, "html"@) {
        None => {},
        Some(hi) => {
            lemma_find_from(d.children, "html"@, 0);
            let html = d.children[hi];
            let html1 = match spec_find_child(html, "head"@) {
                Some(h) => with_child(html, h, spec_ensure_style(html.children[h])),
                None => html,
            };
            match spec_find_child(html, "head"@) {
                Some(h) => {
                    lemma_find_from(html.children, "head"@, 0);
                    lemma_ensure_style_idempotent(html.children[h]);
                    lemma_same_names_after(html, h, spec_ensure_style(html.children[h]), "body"@);
                    lemma_same_names_after(html, h, spec_ensure_style(html.children[h]), "head"@);
                },
                None => {},
            }
            let html2 = match spec_find_child(html1, "body"@) {
                Some(b) => with_child(html1, b, spec_wrap_body(html1.children[b])),
                None => html1,
            };
            match spec_find_child(html1, "body"@) {
                Some(b) => {
                    lemma_find_from(html1.children, "body"@, 0);
                    lemma_wrap_body_idempotent(html1.children[b]);
                    lemma_same_names_after(html1, b, spec_wrap_body(html1.children[b]), "body"@);
                    lemma_same_names_after(html1, b, spec_wrap_body(html1.children[b]), "head"@);
                },
                None => {},
            }
            let d2 = with_child(d, hi, html2);
            assert(html2.data == html.data);
            lemma_same_names_after(d, hi, html2, "html"@);
            assert(d2.children[hi] == html2);
            // second pass
            assert(spec_find_child(html2, "head"@) == spec_find_child(html, "head"@));
            assert(spec_find_child(html2, "body"@) == spec_find_child(html1, "body"@));
            let html1b = match spec_find_child(html2, "head"@) {
                Some(h) => with_child(html2, h, spec_ensure_style(html2.children[h])),
                None => html2,
            };
            match spec_find_child(html2, "head"@) {
                Some(h) => {
                    match spec_find_child(html1, "body"@) {
                        Some(b) => {
                            lemma_find_from(html1.children, "body"@, 0);
                            lemma_find_from(html.children, "head"@, 0);
                            lemma_ensure_style_idempotent(html.children[h]);
                            reveal_strlit("body");
                            reveal_strlit("head");
                            assert(spec_local_name(html1.children[h]) == Some("head"@));
                            assert(spec_local_name(html1.children[b]) == Some("body"@));
                            assert("head"@[0] != "body"@[0]);
                            assert(h != b);
                        },
                        None => {},
                    }
                    assert(html2.children[h] == spec_ensure_style(html.children[h]));
                    assert(html1b.children =~= html2.children);
                },
                None => {},
            }
            assert(html1b == html2);
            match spec_find_child(html2, "body"@) {
                Some(b) => {
                    assert(html2.children[b] == spec_wrap_body(html1.children[b]));
                    assert(with_child(html1b, b, spec_wrap_body(html1b.children[b])).children
                        =~= html2.children);
                },
                None => {},
            }
            assert(with_child(d2, hi, html2).children =~= d2.children);
        },
    }
}

} // verus!
