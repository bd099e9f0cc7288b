//! The document tree that the HTML transformations work on.
use vstd::prelude::*;

use crate::text::{owned, str_eq};

verus! {

/// The namespace that every built element belongs to.
pub const XHTML_NS: &'static str = "http://www.w3.org/1999/xhtml";

/// An element attribute: optional namespace prefix, local name and value.
pub struct Attribute {
    pub prefix: Option<String>,
    pub local: String,
    pub value: String,
}

/// What a node is.
pub enum NodeData {
    Document,
    Doctype { name: String, public_id: String, system_id: String },
    Text { contents: String },
    Comment { contents: String },
    ProcessingInstruction { target: String, contents: String },
    Element { name: String, attrs: Vec<Attribute> },
}

/// A node of the document tree with its ordered children.
pub struct HtmlNode {
    pub data: NodeData,
    pub children: Vec<HtmlNode>,
}

/// Mathematical model of an attribute.
pub struct AttrV {
    pub prefix: Option<Seq<char>>,
    pub local: Seq<char>,
    pub value: Seq<char>,
}

/// Mathematical model of a node's data.
pub enum DataV {
    Document,
    Doctype { name: Seq<char>, public_id: Seq<char>, system_id: Seq<char> },
    Text { contents: Seq<char> },
    Comment { contents: Seq<char> },
    ProcessingInstruction { target: Seq<char>, contents: Seq<char> },
    Element { name: Seq<char>, attrs: Seq<AttrV> },
}

/// Mathematical model of a node: its data and the models of its children.
pub struct NodeV {
    pub data: DataV,
    pub children: Seq<NodeV>,
}

impl View for Attribute {
    type V = AttrV;

    open spec fn view(&self) -> AttrV {
        AttrV {
            prefix: match self.prefix {
                Some(p) => Some(p@),
                None => None,
            },
            local: self.local@,
            value: self.value@,
        }
    }
}

pub open spec fn attrs_view(attrs: Seq<Attribute>) -> Seq<AttrV> {
    attrs.map_values(|a: Attribute| a@)
}

impl View for NodeData {
    type V = DataV;

    open spec fn view(&self) -> DataV {
        match self {
            NodeData::Document => DataV::Document,
            NodeData::Doctype { name, public_id, system_id } => DataV::Doctype {
                name: name@,
                public_id: public_id@,
                system_id: system_id@,
            },
            NodeData::Text { contents } => DataV::Text { contents: contents@ },
            NodeData::Comment { contents } => DataV::Comment { contents: contents@ },
            NodeData::ProcessingInstruction { target, contents } => DataV::ProcessingInstruction {
                target: target@,
                contents: contents@,
            },
            NodeData::Element { name, attrs } => DataV::Element {
                name: name@,
                attrs: attrs_view(attrs@),
            },
        }
    }
}

pub open spec fn node_view(n: HtmlNode) -> NodeV
    decreases n, 1int,
{
    NodeV { data: n.data@, children: nodes_view(n.children@) }
}

pub open spec fn nodes_view(s: Seq<HtmlNode>) -> Seq<NodeV>
    decreases s, 0int,
{
    if s.len() == 0 {
        Seq::empty()
    } else {
        nodes_view(s.drop_last()).push(node_view(s.last()))
    }
}

impl View for HtmlNode {
    type V = NodeV;

    open spec fn view(&self) -> NodeV {
        node_view(*self)
    }
}

pub broadcast proof fn lemma_nodes_view(s: Seq<HtmlNode>)
    ensures
        #[trigger] nodes_view(s).len() == s.len(),
        forall|i: int| 0 <= i < s.len() ==> #[trigger] nodes_view(s)[i] == s[i]@,
    decreases s.len(),
{
    if s.len() > 0 {
        lemma_nodes_view(s.drop_last());
    }
}

pub proof fn lemma_nodes_view_push(s: Seq<HtmlNode>, n: HtmlNode)
    ensures
        nodes_view(s.push(n)) == nodes_view(s).push(n@),
{
    assert(s.push(n).drop_last() =~= s);
}

pub proof fn lemma_nodes_view_update(s: Seq<HtmlNode>, i: int, n: HtmlNode)
    requires
        0 <= i < s.len(),
    ensures
        nodes_view(s.update(i, n)) == nodes_view(s).update(i, n@),
{
    lemma_nodes_view(s);
    lemma_nodes_view(s.update(i, n));
    assert(nodes_view(s.update(i, n)) =~= nodes_view(s).update(i, n@));
}

/// A new element in the XHTML namespace with the given attributes.
pub open spec fn spec_element(tag: Seq<char>, attrs: Seq<AttrV>) -> NodeV {
    NodeV { data: DataV::Element { name: tag, attrs }, children: Seq::empty() }
}

/// A new text node.
pub open spec fn spec_text(contents: Seq<char>) -> NodeV {
    NodeV { data: DataV::Text { contents }, children: Seq::empty() }
}

/// An unprefixed attribute.
pub open spec fn plain_attr(key: Seq<char>, value: Seq<char>) -> AttrV {
    AttrV { prefix: None, local: key, value }
}

/// The tag name of an element node.
pub open spec fn spec_local_name(n: NodeV) -> Option<Seq<char>> {
    match n.data {
        DataV::Element { name, .. } => Some(name),
        _ => None,
    }
}

/// The value of the first attribute in `attrs` whose local name is `key`.
pub open spec fn attr_lookup(attrs: Seq<AttrV>, key: Seq<char>) -> Option<Seq<char>>
    decreases attrs.len(),
{
    if attrs.len() == 0 {
        None
    } else if attrs[0].local == key {
        Some(attrs[0].value)
    } else {
        attr_lookup(attrs.drop_first(), key)
    }
}

/// Value of an element attribute.
pub open spec fn spec_get_attr(n: NodeV, key: Seq<char>) -> Option<Seq<char>> {
    match n.data {
        DataV::Element { attrs, .. } => attr_lookup(attrs, key),
        _ => None,
    }
}

/// Index of the first node of `cs` at or after `i` that is an element named `tag`.
pub open spec fn find_from(cs: Seq<NodeV>, tag: Seq<char>, i: int) -> Option<int>
    decreases cs.len() - i,
{
    if i < 0 || i >= cs.len() {
        None
    } else if spec_local_name(cs[i]) == Some(tag) {
        Some(i)
    } else {
        find_from(cs, tag, i + 1)
    }
}

/// Index of the first direct child element with the given tag name.
pub open spec fn spec_find_child(parent: NodeV, tag: Seq<char>) -> Option<int> {
    find_from(parent.children, tag, 0)
}

pub proof fn lemma_find_from(cs: Seq<NodeV>, tag: Seq<char>, i: int)
    requires
        0 <= i,
    ensures
        find_from(cs, tag, i) matches Some(k) ==> i <= k < cs.len() && spec_local_name(cs[k])
            == Some(tag) && forall|m: int| i <= m < k ==> spec_local_name(#[trigger] cs[m])
            != Some(tag),
        find_from(cs, tag, i) is None ==> forall|m: int|
            i <= m < cs.len() ==> spec_local_name(#[trigger] cs[m]) != Some(tag),
    decreases cs.len() - i,
{
    if 0 <= i < cs.len() && spec_local_name(cs[i]) != Some(tag) {
        lemma_find_from(cs, tag, i + 1);
    }
}

/// Element names are all that `find_from` looks at.
pub proof fn lemma_find_from_same_names(a: Seq<NodeV>, b: Seq<NodeV>, tag: Seq<char>, i: int)
    requires
        a.len() == b.len(),
        forall|m: int| 0 <= m < a.len() ==> spec_local_name(#[trigger] a[m]) == spec_local_name(
            b[m],
        ),
    ensures
        find_from(a, tag, i) == find_from(b, tag, i),
    decreases a.len() - i,
{
    if 0 <= i < a.len() {
        lemma_find_from_same_names(a, b, tag, i + 1);
    }
}

/// Build a new element node in the XHTML namespace.
pub fn element(tag: &str, attrs: &[(&str, &str)]) -> (n: HtmlNode)
    ensures
        n@ == spec_element(tag@, attrs@.map_values(|p: (&str, &str)| plain_attr(p.0@, p.1@))),
{
    let mut out: Vec<Attribute> = Vec::new();
    let mut i: usize = 0;
    while i < attrs.len()
        invariant
            i <= attrs@.len(),
            attrs_view(out@) == attrs@.take(i as int).map_values(
                |p: (&str, &str)| plain_attr(p.0@, p.1@),
            ),
        decreases attrs@.len() - i,
    {
        let (k, v) = attrs[i];
        let a = Attribute { prefix: None, local: owned(k), value: owned(v) };
        let ghost old_out = out@;
        out.push(a);
        assert(attrs_view(out@) =~= attrs_view(old_out).push(a@));
        assert(attrs@.take(i + 1) =~= attrs@.take(i as int).push(attrs@[i as int]));
        assert(attrs_view(out@) =~= attrs@.take(i + 1).map_values(
            |p: (&str, &str)| plain_attr(p.0@, p.1@),
        ));
        i += 1;
    }
    assert(attrs@.take(attrs@.len() as int) =~= attrs@);
    let n = HtmlNode { data: NodeData::Element { name: owned(tag), attrs: out }, children: Vec::new() };
    proof {
        assert(n.children@ =~= Seq::<HtmlNode>::empty());
        assert(nodes_view(n.children@) =~= Seq::<NodeV>::empty());
    }
    n
}

/// Build a new text node.
pub fn text(contents: &str) -> (n: HtmlNode)
    ensures
        n@ == spec_text(contents@),
{
    let n = HtmlNode { data: NodeData::Text { contents: owned(contents) }, children: Vec::new() };
    proof {
        assert(nodes_view(n.children@) =~= Seq::<NodeV>::empty());
    }
    n
}

/// The tag name of an element node, or `None` for other node kinds.
pub fn local_name(node: &HtmlNode) -> (r: Option<&str>)
    ensures
        match r {
            Some(s) => spec_local_name(node@) == Some(s@),
            None => spec_local_name(node@) is None,
        },
{
    match &node.data {
        NodeData::Element { name, .. } => Some(name.as_str()),
        _ => None,
    }
}

/// Whether `node` is an element named `tag`.
pub fn is_element_named(node: &HtmlNode, tag: &str) -> (b: bool)
    ensures
        b == (spec_local_name(node@) == Some(tag@)),
{
    match local_name(node) {
        Some(name) => str_eq(name, tag),
        None => false,
    }
}

fn lookup_attr(attrs: &Vec<Attribute>, key: &str) -> (r: Option<String>)
    ensures
        match r {
            Some(v) => attr_lookup(attrs_view(attrs@), key@) == Some(v@),
            None => attr_lookup(attrs_view(attrs@), key@) is None,
        },
{
    let mut i: usize = 0;
    assert(attrs_view(attrs@).skip(0) =~= attrs_view(attrs@));
    while i < attrs.len()
        invariant
            i <= attrs@.len(),
            attr_lookup(attrs_view(attrs@), key@) == attr_lookup(
                attrs_view(attrs@).skip(i as int),
                key@,
            ),
        decreases attrs@.len() - i,
    {
        let ghost rest = attrs_view(attrs@).skip(i as int);
        assert(rest[0] == attrs@[i as int]@);
        if str_eq(attrs[i].local.as_str(), key) {
            return Some(attrs[i].value.clone());
        }
        assert(rest.drop_first() =~= attrs_view(attrs@).skip(i + 1));
        i += 1;
    }
    None
}

/// Value of an element attribute.
pub fn get_attr(node: &HtmlNode, key: &str) -> (r: Option<String>)
    ensures
        match r {
            Some(v) => spec_get_attr(node@, key@) == Some(v@),
            None => spec_get_attr(node@, key@) is None,
        },
{
    match &node.data {
        NodeData::Element { attrs, .. } => lookup_attr(attrs, key),
        _ => None,
    }
}

/// Whether `node` carries attribute `key` with exactly `value`.
pub fn attr_is(node: &HtmlNode, key: &str, value: &str) -> (b: bool)
    ensures
        b == (spec_get_attr(node@, key@) == Some(value@)),
{
    match get_attr(node, key) {
        Some(v) => str_eq(v.as_str(), value),
        None => false,
    }
}

/// The index of the first direct child element with the given tag name.
pub fn find_child(parent: &HtmlNode, tag: &str) -> (r: Option<usize>)
    ensures
        match r {
            Some(i) => spec_find_child(parent@, tag@) == Some(i as int),
            None => spec_find_child(parent@, tag@) is None,
        },
{
    proof {
        lemma_nodes_view(parent.children@);
    }
    let mut i: usize = 0;
    while i < parent.children.len()
        invariant
            i <= parent.children@.len(),
            spec_find_child(parent@, tag@) == find_from(parent@.children, tag@, i as int),
        decreases parent.children@.len() - i,
    {
        assert(parent@.children == nodes_view(parent.children@));
        proof {
            lemma_nodes_view(parent.children@);
        }
        assert(parent@.children[i as int] == parent.children@[i as int]@);
        if is_element_named(&parent.children[i], tag) {
            return Some(i);
        }
        i += 1;
    }
    proof {
        lemma_nodes_view(parent.children@);
    }
    None
}

} // verus!
