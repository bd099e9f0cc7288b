//! Injecting sentence-level `koboSpan` tags into a content document.
use vstd::prelude::*;

use crate::dom::{
    element, find_child, get_attr, lemma_nodes_view, lemma_nodes_view_push, lemma_nodes_view_update,
    nodes_view, plain_attr, spec_find_child, spec_get_attr, spec_text, text, DataV, HtmlNode,
    NodeData, NodeV,
};
use crate::parse::Document;
use crate::sentences::{sentence_fragments, split_sentences};
use crate::text::{all_ws, chars_of, decimal, is_whitespace, push_decimal, split_whitespace, str_eq, ws_tokens};

verus! {

/// Elements whose contents are emitted untouched (no spans inside).
pub open spec fn is_skip(tag: Seq<char>) -> bool {
    tag == "script"@ || tag == "style"@ || tag == "pre"@ || tag == "audio"@ || tag == "video"@
        || tag == "svg"@ || tag == "math"@
}

/// Block-level elements that start a new paragraph counter.
pub open spec fn is_block(tag: Seq<char>) -> bool {
    tag == "p"@ || tag == "ol"@ || tag == "ul"@ || tag == "table"@ || tag == "h1"@ || tag
        == "h2"@ || tag == "h3"@ || tag == "h4"@ || tag == "h5"@ || tag == "h6"@
}

/// Paragraph/segment counters for koboSpan ids.
#[derive(Clone, Copy)]
pub struct State {
    pub para: u32,
    pub seg: u32,
}

/// One more, wrapping around at the top of the `u32` range.
pub open spec fn inc(x: u32) -> u32 {
    if x == u32::MAX {
        0
    } else {
        (x + 1) as u32
    }
}

/// The id of the next span, and the counters after allocating it: a zero
/// paragraph counter becomes 1.
pub open spec fn spec_alloc_id(st: State) -> (Seq<char>, State) {
    let para: u32 = if st.para == 0 {
        1
    } else {
        st.para
    };
    ("kobo."@ + decimal(para as nat) + "."@ + decimal(st.seg as nat), State { para, seg: st.seg })
}

/// `<span class="koboSpan" id="..">child</span>`.
pub open spec fn span_node(id: Seq<char>, child: NodeV) -> NodeV {
    NodeV {
        data: DataV::Element {
            name: "span"@,
            attrs: seq![plain_attr("class"@, "koboSpan"@), plain_attr("id"@, id)],
        },
        children: seq![child],
    }
}

/// A span, with the next segment number, around `child`.
pub open spec fn next_span(child: NodeV, st: State) -> (NodeV, State) {
    let st1 = State { para: st.para, seg: inc(st.seg) };
    let (id, st2) = spec_alloc_id(st1);
    (span_node(id, child), st2)
}

/// One span per sentence fragment, in order.
pub open spec fn text_spans(frags: Seq<Seq<char>>, st: State) -> (Seq<NodeV>, State)
    decreases frags.len(),
{
    if frags.len() == 0 {
        (Seq::empty(), st)
    } else {
        let (pre, st1) = text_spans(frags.drop_last(), st);
        let (span, st2) = next_span(spec_text(frags.last()), st1);
        (pre.push(span), st2)
    }
}

/// What a text child becomes.
pub open spec fn spec_process_text(content: Seq<char>, parent_tag: Seq<char>, st: State) -> (
    Seq<NodeV>,
    State,
) {
    if content.len() == 0 {
        (Seq::empty(), st)
    } else if all_ws(content) {
        if parent_tag == "p"@ {
            let (span, st1) = next_span(spec_text(content), st);
            (seq![span], st1)
        } else {
            (seq![spec_text(content)], st)
        }
    } else {
        text_spans(sentence_fragments(content), st)
    }
}

/// What one child becomes, and the counters after it.
pub open spec fn walk_step(child: NodeV, parent_tag: Seq<char>, st: State) -> (Seq<NodeV>, State)
    decreases child, 2int,
{
    match child.data {
        DataV::Text { contents } => spec_process_text(contents, parent_tag, st),
        DataV::Element { name, .. } => {
            if is_skip(name) {
                (seq![child], st)
            } else if name == "img"@ {
                let st1 = State { para: inc(st.para), seg: st.seg };
                let (span, st2) = next_span(child, st1);
                (seq![span], st2)
            } else {
                let st1 = if is_block(name) {
                    State { para: inc(st.para), seg: 0 }
                } else {
                    st
                };
                let (c, st2) = walk_node(child, name, st1);
                (seq![c], st2)
            }
        },
        _ => (seq![child], st),
    }
}

/// A node with its children walked.
pub open spec fn walk_node(n: NodeV, tag: Seq<char>, st: State) -> (NodeV, State)
    decreases n, 1int,
{
    let (cs, st1) = walk_children(n.children, tag, st);
    (NodeV { data: n.data, children: cs }, st1)
}

/// A sequence of siblings walked in order, threading the counters.
pub open spec fn walk_children(cs: Seq<NodeV>, parent_tag: Seq<char>, st: State) -> (
    Seq<NodeV>,
    State,
)
    decreases cs, 0int,
{
    if cs.len() == 0 {
        (Seq::empty(), st)
    } else {
        let (pre, st1) = walk_children(cs.drop_last(), parent_tag, st);
        let (out, st2) = walk_step(cs.last(), parent_tag, st1);
        (pre + out, st2)
    }
}

/// The node's own `class` attribute lists the `koboSpan` token.
pub open spec fn is_kobo_marked(n: NodeV) -> bool {
    match spec_get_attr(n, "class"@) {
        Some(c) => ws_tokens(c).contains("koboSpan"@),
        None => false,
    }
}

/// The node or one of its descendants is a koboSpan.
pub open spec fn spec_has_kobospan(n: NodeV) -> bool
    decreases n, 1int,
{
    is_kobo_marked(n) || any_has_kobospan(n.children)
}

/// One of the nodes, or one of their descendants, is a koboSpan.
pub open spec fn any_has_kobospan(cs: Seq<NodeV>) -> bool
    decreases cs, 0int,
{
    cs.len() > 0 && (any_has_kobospan(cs.drop_last()) || spec_has_kobospan(cs.last()))
}

/// The initial counters.
pub open spec fn start_state() -> State {
    State { para: 0, seg: 0 }
}

/// `d` with the child at `i` replaced by `c`.
pub open spec fn with_child(d: NodeV, i: int, c: NodeV) -> NodeV {
    NodeV { data: d.data, children: d.children.update(i, c) }
}

/// The koboSpan transformation of a whole document tree: the body inside
/// the `html` element is walked, unless the document already holds a
/// koboSpan anywhere.
pub open spec fn kobo_doc(d: NodeV) -> NodeV {
    if spec_has_kobospan(d) {
        d
    } else {
        match spec_find_child(d, "html"@) {
            None => d,
            Some(hi) => {
                let html = d.children[hi];
                match spec_find_child(html, "body"@) {
                    None => d,
                    Some(bi) => {
                        let (body2, _) = walk_node(html.children[bi], "body"@, start_state());
                        with_child(d, hi, with_child(html, bi, body2))
                    },
                }
            },
        }
    }
}

fn inc_counter(x: u32) -> (r: u32)
    ensures
        r == inc(x),
{
    if x == u32::MAX {
        0
    } else {
        x + 1
    }
}

impl State {
    /// The id for the next span, as `kobo.<para>.<seg>`.
    pub fn alloc_id(&mut self) -> (id: String)
        ensures
            (id@, *final(self)) == spec_alloc_id(*old(self)),
    {
        if self.para == 0 {
            self.para = 1;
        }
        let mut id = String::new();
        id.push_str("kobo.");
        push_decimal(&mut id, self.para);
        id.push_str(".");
        push_decimal(&mut id, self.seg);
        assert(id@ =~= spec_alloc_id(*old(self)).0);
        id
    }
}

fn new_span(state: &mut State, child: HtmlNode) -> (span: HtmlNode)
    ensures
        (span@, *final(state)) == ({
            let (id, st) = spec_alloc_id(*old(state));
            (span_node(id, child@), st)
        }),
{
    let id = state.alloc_id();
    let mut attrs = Vec::new();
    attrs.push(crate::dom::Attribute { prefix: None, local: "class".to_owned(), value: "koboSpan".to_owned() });
    attrs.push(crate::dom::Attribute { prefix: None, local: "id".to_owned(), value: id });
    let mut children = Vec::new();
    children.push(child);
    let span = HtmlNode { data: NodeData::Element { name: "span".to_owned(), attrs }, children };
    proof {
        lemma_nodes_view(span.children@);
        assert(nodes_view(span.children@) =~= seq![child@]);
        assert(crate::dom::attrs_view(attrs@) =~= seq![plain_attr("class"@, "koboSpan"@), plain_attr("id"@, id@)]);
    }
    span
}

fn span_with_text(content: &str, state: &mut State) -> (span: HtmlNode)
    ensures
        (span@, *final(state)) == ({
            let (id, st) = spec_alloc_id(*old(state));
            (span_node(id, spec_text(content@)), st)
        }),
{
    new_span(state, text(content))
}

fn span_around(child: HtmlNode, state: &mut State) -> (span: HtmlNode)
    ensures
        (span@, *final(state)) == ({
            let (id, st) = spec_alloc_id(*old(state));
            (span_node(id, child@), st)
        }),
{
    new_span(state, child)
}

fn all_whitespace(s: &str) -> (b: bool)
    ensures
        b == all_ws(s@),
{
    let cs = chars_of(s);
    let mut i: usize = 0;
    while i < cs.len()
        invariant
            cs@ == s@,
            i <= cs.len(),
            forall|k: int| 0 <= k < i ==> crate::text::is_unicode_ws(#[trigger] cs@[k]),
        decreases cs.len() - i,
    {
        if !is_whitespace(cs[i]) {
            return false;
        }
        i += 1;
    }
    true
}

fn process_text(content: &str, parent_tag: &str, state: &mut State, out: &mut Vec<HtmlNode>)
    ensures
        nodes_view(final(out)@) == nodes_view(old(out)@) + spec_process_text(
            content@,
            parent_tag@,
            *old(state),
        ).0,
        *final(state) == spec_process_text(content@, parent_tag@, *old(state)).1,
{
    let ghost out0 = nodes_view(out@);
    let ghost st0 = *state;
    if content.is_empty() {
        assert(nodes_view(out@) =~= out0 + Seq::<NodeV>::empty());
        return;
    }
    if all_whitespace(content) {
        if str_eq(parent_tag, "p") {
            state.seg = inc_counter(state.seg);
            let span = span_with_text(content, state);
            let ghost o = out@;
            out.push(span);
            proof {
                lemma_nodes_view_push(o, span);
                assert(nodes_view(out@) =~= out0 + seq![span@]);
            }
        } else {
            let t = text(content);
            let ghost o = out@;
            out.push(t);
            proof {
                lemma_nodes_view_push(o, t);
                assert(nodes_view(out@) =~= out0 + seq![t@]);
            }
        }
        return;
    }
    let frags = split_sentences(content);
    let ghost fs = sentence_fragments(content@);
    let mut k: usize = 0;
    while k < frags.len()
        invariant
            frags@.len() == fs.len(),
            forall|m: int| 0 <= m < fs.len() ==> #[trigger] frags@[m]@ == fs[m],
            k <= fs.len(),
            nodes_view(out@) == out0 + text_spans(fs.take(k as int), st0).0,
            *state == text_spans(fs.take(k as int), st0).1,
        decreases fs.len() - k,
    {
        state.seg = inc_counter(state.seg);
        let span = span_with_text(frags[k].as_str(), state);
        let ghost o = out@;
        out.push(span);
        proof {
            lemma_nodes_view_push(o, span);
            assert(fs.take(k + 1).drop_last() =~= fs.take(k as int));
            assert(fs.take(k + 1).last() == frags@[k as int]@);
            assert(nodes_view(out@) =~= out0 + text_spans(fs.take(k + 1), st0).0);
        }
        k += 1;
    }
    assert(fs.take(fs.len() as int) =~= fs);
}

fn has_token(s: &str, token: &str) -> (b: bool)
    ensures
        b == ws_tokens(s@).contains(token@),
{
    let tokens = split_whitespace(s);
    let ghost tv = tokens@.map_values(|t: String| t@);
    let mut i: usize = 0;
    while i < tokens.len()
        invariant
            tv == tokens@.map_values(|t: String| t@),
            tv == ws_tokens(s@),
            i <= tokens@.len(),
            forall|k: int| 0 <= k < i ==> tv[k] != token@,
        decreases tokens@.len() - i,
    {
        assert(tv[i as int] == tokens@[i as int]@);
        if str_eq(tokens[i].as_str(), token) {
            return true;
        }
        i += 1;
    }
    false
}

fn is_marked(node: &HtmlNode) -> (b: bool)
    ensures
        b == is_kobo_marked(node@),
{
    match get_attr(node, "class") {
        Some(c) => has_token(c.as_str(), "koboSpan"),
        None => false,
    }
}

fn has_kobospan(node: &HtmlNode) -> (b: bool)
    ensures
        b == spec_has_kobospan(node@),
    decreases node,
{
    if is_marked(node) {
        return true;
    }
    let ghost cv = node@.children;
    proof {
        lemma_nodes_view(node.children@);
    }
    let mut i: usize = 0;
    while i < node.children.len()
        invariant
            cv == node@.children,
            cv == nodes_view(node.children@),
            cv.len() == node.children@.len(),
            forall|j: int| 0 <= j < cv.len() ==> #[trigger] cv[j] == node.children@[j]@,
            i <= cv.len(),
            !any_has_kobospan(cv.take(i as int)),
        decreases cv.len() - i,
    {
        assert(cv.take(i + 1).drop_last() =~= cv.take(i as int));
        if has_kobospan(&node.children[i]) {
            assert(any_has_kobospan(cv.take(i + 1)));
            assert(cv =~= cv.take(i + 1) + cv.skip(i + 1));
            proof {
                lemma_any_has_prefix(cv, i + 1);
            }
            return true;
        }
        i += 1;
    }
    assert(cv.take(cv.len() as int) =~= cv);
    false
}

proof fn lemma_any_has_prefix(cs: Seq<NodeV>, k: int)
    requires
        0 <= k <= cs.len(),
        any_has_kobospan(cs.take(k)),
    ensures
        any_has_kobospan(cs),
    decreases cs.len(),
{
    if k < cs.len() {
        assert(cs.drop_last().take(k) =~= cs.take(k));
        lemma_any_has_prefix(cs.drop_last(), k);
    } else {
        assert(cs.take(k) =~= cs);
    }
}

fn is_skip_tag(tag: &str) -> (b: bool)
    ensures
        b == is_skip(tag@),
{
    str_eq(tag, "script") || str_eq(tag, "style") || str_eq(tag, "pre") || str_eq(tag, "audio")
        || str_eq(tag, "video") || str_eq(tag, "svg") || str_eq(tag, "math")
}

fn is_block_tag(tag: &str) -> (b: bool)
    ensures
        b == is_block(tag@),
{
    str_eq(tag, "p") || str_eq(tag, "ol") || str_eq(tag, "ul") || str_eq(tag, "table") || str_eq(
        tag,
        "h1",
    ) || str_eq(tag, "h2") || str_eq(tag, "h3") || str_eq(tag, "h4") || str_eq(tag, "h5")
        || str_eq(tag, "h6")
}

/// Walk one child, appending what it becomes to `out`.
fn walk_child(child: HtmlNode, parent_tag: &str, state: &mut State, out: &mut Vec<HtmlNode>)
    ensures
        nodes_view(final(out)@) == nodes_view(old(out)@) + walk_step(
            child@,
            parent_tag@,
            *old(state),
        ).0,
        *final(state) == walk_step(child@, parent_tag@, *old(state)).1,
    decreases child, 2int,
{
    let ghost out0 = out@;
    let ghost cv = child@;
    let text_contents: Option<String> = match &child.data {
        NodeData::Text { contents } => Some(contents.clone()),
        _ => None,
    };
    let tag_name: Option<String> = match &child.data {
        NodeData::Element { name, .. } => Some(name.clone()),
        _ => None,
    };
    match text_contents {
        Some(c) => {
            process_text(c.as_str(), parent_tag, state, out);
            return ;
        },
        None => {},
    }
    match tag_name {
        Some(tag) => {
            if is_skip_tag(tag.as_str()) {
                out.push(child);
                proof {
                    lemma_nodes_view_push(out0, child);
                    assert(nodes_view(out@) =~= nodes_view(out0) + seq![cv]);
                }
            } else if str_eq(tag.as_str(), "img") {
                state.para = inc_counter(state.para);
                state.seg = inc_counter(state.seg);
                let span = span_around(child, state);
                out.push(span);
                proof {
                    lemma_nodes_view_push(out0, span);
                    assert(nodes_view(out@) =~= nodes_view(out0) + seq![span@]);
                }
            } else {
                if is_block_tag(tag.as_str()) {
                    state.para = inc_counter(state.para);
                    state.seg = 0;
                }
                let mut c = child;
                walk(&mut c, tag.as_str(), state);
                out.push(c);
                proof {
                    lemma_nodes_view_push(out0, c);
                    assert(nodes_view(out@) =~= nodes_view(out0) + seq![c@]);
                }
            }
        },
        None => {
            out.push(child);
            proof {
                lemma_nodes_view_push(out0, child);
                assert(nodes_view(out@) =~= nodes_view(out0) + seq![cv]);
            }
        },
    }
}

/// Walk the children of `node` in order, rewriting text and images.
fn walk(node: &mut HtmlNode, parent_tag: &str, state: &mut State)
    ensures
        final(node)@ == walk_node(old(node)@, parent_tag@, *old(state)).0,
        *final(state) == walk_node(old(node)@, parent_tag@, *old(state)).1,
    decreases *old(node), 1int,
{
    let ghost st0 = *state;
    let ghost n0 = *node;
    assert(n0 == *old(node));
    let mut kids: Vec<HtmlNode> = Vec::new();
    std::mem::swap(&mut kids, &mut node.children);
    let ghost kseq = kids@;
    let ghost kv = nodes_view(kseq);
    proof {
        lemma_nodes_view(kseq);
    }
    let mut out: Vec<HtmlNode> = Vec::new();
    for child in it: kids
        invariant
            it.seq() == kseq,
            n0 == *old(node),
            kseq == n0.children@,
            kv == nodes_view(kseq),
            kv.len() == kseq.len(),
            forall|j: int| 0 <= j < kv.len() ==> #[trigger] kv[j] == kseq[j]@,
            walk_children(kv.take(it.index()), parent_tag@, st0) == (nodes_view(out@), *state),
    {
        let ghost idx = it.index();
        assert(child == kseq[idx]);
        assert(decreases_to!(*old(node) => child)) by {
            assert(decreases_to!(n0 => n0.children));
            assert(decreases_to!(n0.children => n0.children@));
            assert(decreases_to!(n0.children@ => n0.children@[idx]));
        }
        let ghost pre_out = nodes_view(out@);
        let ghost pre_state = *state;
        walk_child(child, parent_tag, state, &mut out);
        assert(kv.take(idx + 1).drop_last() =~= kv.take(idx));
        assert(kv.take(idx + 1).last() == child@);
    }
    assert(kv.take(kv.len() as int) =~= kv);
    node.children = out;
}

/// Inject `koboSpan` tags around every text fragment and image. Idempotent:
/// a document that already contains koboSpans is left unchanged.
pub fn transform(doc: &mut Document)
    ensures
        final(doc).dom@ == kobo_doc(old(doc).dom@),
        final(doc).xml_declaration == old(doc).xml_declaration,
{
    if has_kobospan(&doc.dom) {
        return ;
    }
    let hi = match find_child(&doc.dom, "html") {
        Some(i) => i,
        None => return ,
    };
    proof {
        crate::dom::lemma_find_from(doc.dom@.children, "html"@, 0);
        lemma_nodes_view(doc.dom.children@);
    }
    let bi = match find_child(&doc.dom.children[hi], "body") {
        Some(i) => i,
        None => return ,
    };
    proof {
        crate::dom::lemma_find_from(doc.dom.children@[hi as int]@.children, "body"@, 0);
        lemma_nodes_view(doc.dom.children@[hi as int].children@);
    }
    let ghost d0 = doc.dom;
    let ghost h0 = doc.dom.children@[hi as int];
    let ghost b0 = h0.children@[bi as int];
    let mut state = State { para: 0, seg: 0 };
    walk(&mut doc.dom.children[hi].children[bi], "body", &mut state);
    proof {
        let h1 = doc.dom.children@[hi as int];
        assert(h1.children@ == h0.children@.update(bi as int, h1.children@[bi as int]));
        lemma_nodes_view_update(h0.children@, bi as int, h1.children@[bi as int]);
        lemma_nodes_view_update(d0.children@, hi as int, h1);
        assert(doc.dom.children@ == d0.children@.update(hi as int, h1));
        assert(h1@ == with_child(h0@, bi as int, h1.children@[bi as int]@));
        assert(doc.dom@ == with_child(d0@, hi as int, h1@));
    }
}

proof fn lemma_any_concat(a: Seq<NodeV>, b: Seq<NodeV>)
    ensures
        any_has_kobospan(a + b) == (any_has_kobospan(a) || any_has_kobospan(b)),
    decreases b.len(),
{
    if b.len() == 0 {
        assert(a + b =~= a);
    } else {
        assert((a + b).drop_last() =~= a + b.drop_last());
        assert((a + b).last() == b.last());
        lemma_any_concat(a, b.drop_last());
    }
}

proof fn lemma_any_single(x: NodeV)
    ensures
        any_has_kobospan(seq![x]) == spec_has_kobospan(x),
{
    assert(seq![x].drop_last() =~= Seq::<NodeV>::empty());
    assert(!any_has_kobospan(Seq::<NodeV>::empty()));
    assert(seq![x].last() == x);
}

/// Walking a single child is walking that child.
pub proof fn lemma_walk_children_single(x: NodeV, tag: Seq<char>, st: State)
    ensures
        walk_children(seq![x], tag, st) == walk_step(x, tag, st),
{
    assert(seq![x].drop_last() =~= Seq::<NodeV>::empty());
    assert(seq![x].last() == x);
    assert(walk_children(Seq::<NodeV>::empty(), tag, st) == (Seq::<NodeV>::empty(), st));
    let (out, st2) = walk_step(x, tag, st);
    assert(Seq::<NodeV>::empty() + out =~= out);
}

/// Siblings are walked in order: walking `a` then `b` gives what `a` gives
/// followed by what `b` gives from the counters that `a` left.
pub proof fn lemma_walk_children_concat(a: Seq<NodeV>, b: Seq<NodeV>, tag: Seq<char>, st: State)
    ensures
        walk_children(a + b, tag, st) == ({
            let (a2, s1) = walk_children(a, tag, st);
            let (b2, s2) = walk_children(b, tag, s1);
            (a2 + b2, s2)
        }),
    decreases b.len(),
{
    if b.len() == 0 {
        assert(a + b =~= a);
        let (a2, s1) = walk_children(a, tag, st);
        assert(a2 + Seq::<NodeV>::empty() =~= a2);
    } else {
        assert((a + b).drop_last() =~= a + b.drop_last());
        assert((a + b).last() == b.last());
        lemma_walk_children_concat(a, b.drop_last(), tag, st);
        let (a2, s1) = walk_children(a, tag, st);
        let (p2, s2) = walk_children(b.drop_last(), tag, s1);
        let (o, s3) = walk_step(b.last(), tag, s2);
        assert(a2 + p2 + o =~= a2 + (p2 + o));
    }
}

/// The token list of a word without whitespace is the word itself.
proof fn lemma_ws_tokens_word(w: Seq<char>)
    requires
        w.len() > 0,
        forall|i: int| 0 <= i < w.len() ==> !crate::text::is_unicode_ws(#[trigger] w[i]),
    ensures
        ws_tokens(w) == seq![w],
    decreases w.len(),
{
    assert(!crate::text::is_unicode_ws(w[w.len() - 1]));
    assert(w.last() == w[w.len() - 1]);
    if w.len() == 1 {
        assert(w.drop_last() =~= Seq::<char>::empty());
        assert(ws_tokens(Seq::<char>::empty()) == Seq::<Seq<char>>::empty());
        assert(seq![w.last()] =~= w);
        assert(Seq::<Seq<char>>::empty().push(seq![w.last()]) =~= seq![w]);
    } else {
        assert(!crate::text::is_unicode_ws(w[w.len() - 2]));
        assert forall|i: int| 0 <= i < w.drop_last().len() implies !crate::text::is_unicode_ws(
            #[trigger] w.drop_last()[i],
        ) by {
            assert(w.drop_last()[i] == w[i]);
        }
        lemma_ws_tokens_word(w.drop_last());
        assert(seq![w.drop_last()].drop_last() =~= Seq::<Seq<char>>::empty());
        assert(w.drop_last().push(w.last()) =~= w);
        assert(Seq::<Seq<char>>::empty().push(w) =~= seq![w]);
    }
}

proof fn lemma_span_is_marked(id: Seq<char>, child: NodeV)
    ensures
        spec_has_kobospan(span_node(id, child)),
{
    reveal_strlit("koboSpan");
    reveal_strlit("class");
    let w = "koboSpan"@;
    lemma_ws_tokens_word(w);
    assert(seq![w][0] == w);
    let n = span_node(id, child);
    assert(spec_get_attr(n, "class"@) == Some(w));
}

proof fn lemma_text_spans_marked(fs: Seq<Seq<char>>, st: State)
    requires
        fs.len() > 0,
    ensures
        any_has_kobospan(text_spans(fs, st).0),
{
    let (pre, st1) = text_spans(fs.drop_last(), st);
    let (id, st2) = spec_alloc_id(State { para: st1.para, seg: inc(st1.seg) });
    lemma_span_is_marked(id, spec_text(fs.last()));
    let out = text_spans(fs, st).0;
    assert(out.last() == span_node(id, spec_text(fs.last())));
    assert(out.drop_last() =~= pre);
}

/// What walking a single child produces: when it holds no koboSpan, walking
/// it again gives it back unchanged, whatever the counters.
proof fn lemma_step_fixpoint(c: NodeV, tag: Seq<char>, st: State, st2: State)
    requires
        !any_has_kobospan(walk_step(c, tag, st).0),
    ensures
        walk_children(walk_step(c, tag, st).0, tag, st2).0 == walk_step(c, tag, st).0,
    decreases c, 2int,
{
    let out = walk_step(c, tag, st).0;
    match c.data {
        DataV::Text { contents } => {
            assert(walk_step(c, tag, st) == spec_process_text(contents, tag, st));
            if contents.len() == 0 {
                assert(out == Seq::<NodeV>::empty());
                assert(walk_children(Seq::<NodeV>::empty(), tag, st2).0 == Seq::<NodeV>::empty());
            } else if all_ws(contents) {
                if tag == "p"@ {
                    let (span, st1) = next_span(spec_text(contents), st);
                    let (id, st3) = spec_alloc_id(State { para: st.para, seg: inc(st.seg) });
                    lemma_span_is_marked(id, spec_text(contents));
                    lemma_any_single(span);
                    assert(span == span_node(id, spec_text(contents)));
                    assert(out == seq![span]);
                    assert(any_has_kobospan(out));
                } else {
                    lemma_walk_children_single(spec_text(contents), tag, st2);
                    assert(out == seq![spec_text(contents)]);
                    assert(walk_step(spec_text(contents), tag, st2) == spec_process_text(contents, tag, st2));
                    assert(spec_process_text(contents, tag, st2).0 == out);
                    assert(walk_children(out, tag, st2).0 == out);
                }
            } else {
                crate::sentences::lemma_fragments_rejoin(contents);
                let fs = sentence_fragments(contents);
                if fs.len() == 0 {
                    assert(crate::text::concat(fs) == Seq::<char>::empty());
                }
                lemma_text_spans_marked(fs, st);
                assert(out == text_spans(fs, st).0);
                assert(any_has_kobospan(out));
            }
        },
        DataV::Element { name, .. } => {
            if is_skip(name) {
                lemma_walk_children_single(c, tag, st2);
            } else if name == "img"@ {
                let st1 = State { para: inc(st.para), seg: st.seg };
                let (id, st3) = spec_alloc_id(State { para: st1.para, seg: inc(st1.seg) });
                lemma_span_is_marked(id, c);
                lemma_any_single(span_node(id, c));
            } else {
                let st1 = if is_block(name) {
                    State { para: inc(st.para), seg: 0 }
                } else {
                    st
                };
                let (c2, _) = walk_node(c, name, st1);
                lemma_any_single(c2);
                lemma_walk_node_fixpoint(c, name, st1);
                lemma_walk_children_single(c2, tag, st2);
                assert(c2.data == c.data);
                let st1b = if is_block(name) {
                    State { para: inc(st2.para), seg: 0 }
                } else {
                    st2
                };
                assert(walk_node(c2, name, st1b).0 == c2);
                assert(walk_step(c2, tag, st2).0 == seq![walk_node(c2, name, st1b).0]);
                assert(walk_step(c, tag, st).0 == seq![c2]);
            }
        },
        _ => {
            lemma_walk_children_single(c, tag, st2);
        },
    }
}

proof fn lemma_children_fixpoint(cs: Seq<NodeV>, tag: Seq<char>, st: State, st2: State)
    requires
        !any_has_kobospan(walk_children(cs, tag, st).0),
    ensures
        walk_children(walk_children(cs, tag, st).0, tag, st2).0 == walk_children(cs, tag, st).0,
    decreases cs, 0int,
{
    if cs.len() > 0 {
        let (pre, st1) = walk_children(cs.drop_last(), tag, st);
        let (out, s2) = walk_step(cs.last(), tag, st1);
        lemma_any_concat(pre, out);
        lemma_children_fixpoint(cs.drop_last(), tag, st, st2);
        lemma_walk_children_concat(pre, out, tag, st2);
        let s1 = walk_children(pre, tag, st2).1;
        lemma_step_fixpoint(cs.last(), tag, st1, s1);
    }
}

proof fn lemma_walk_node_fixpoint(n: NodeV, tag: Seq<char>, st: State)
    requires
        !spec_has_kobospan(walk_node(n, tag, st).0),
    ensures
        forall|st2: State| #[trigger] walk_node(walk_node(n, tag, st).0, tag, st2).0 == walk_node(
            n,
            tag,
            st,
        ).0,
    decreases n, 1int,
{
    assert forall|st2: State| #[trigger] walk_node(walk_node(n, tag, st).0, tag, st2).0
        == walk_node(n, tag, st).0 by {
        lemma_children_fixpoint(n.children, tag, st, st2);
    }
}

/// The elements whose contents the transformation leaves as they are:
/// `script`, `style`, `pre`, `audio`, `video`, `svg` and `math`.
pub open spec fn keeps_contents(name: Seq<char>) -> bool {
    ||| name == "script"@
    ||| name == "style"@
    ||| name == "pre"@
    ||| name == "audio"@
    ||| name == "video"@
    ||| name == "svg"@
    ||| name == "math"@
}

/// What walking one child gives stands, in order, in what walking all the
/// children gives.
proof fn lemma_walk_children_part(cs: Seq<NodeV>, tag: Seq<char>, st: State, k: int)
    requires
        0 <= k < cs.len(),
        any_has_kobospan(walk_step(cs[k], tag, walk_children(cs.take(k), tag, st).1).0),
    ensures
        any_has_kobospan(walk_children(cs, tag, st).0),
{
    let head = cs.take(k + 1);
    let tail = cs.skip(k + 1);
    assert(cs =~= head + tail);
    assert(head.drop_last() =~= cs.take(k));
    assert(head.last() == cs[k]);
    lemma_walk_children_concat(head, tail, tag, st);
    let (pre, s1) = walk_children(cs.take(k), tag, st);
    let (step, s2) = walk_step(cs[k], tag, s1);
    assert(walk_children(head, tag, st).0 == pre + step);
    lemma_any_concat(pre, step);
    let (b2, s3) = walk_children(tail, tag, walk_children(head, tag, st).1);
    lemma_any_concat(pre + step, b2);
}

/// A text with more than whitespace in it, walked anywhere, becomes
/// koboSpans.
proof fn lemma_text_becomes_spans(contents: Seq<char>, tag: Seq<char>, st: State)
    requires
        contents.len() > 0,
        !all_ws(contents),
    ensures
        any_has_kobospan(spec_process_text(contents, tag, st).0),
{
    crate::sentences::lemma_fragments_rejoin(contents);
    let fs = sentence_fragments(contents);
    if fs.len() == 0 {
        assert(crate::text::concat(fs) == Seq::<char>::empty());
    }
    lemma_text_spans_marked(fs, st);
}

/// The texts that a sequence of one-text-child nodes wrap, in order.
pub open spec fn wrapped_texts(ns: Seq<NodeV>) -> Seq<Seq<char>>
    decreases ns.len(),
{
    if ns.len() == 0 {
        Seq::empty()
    } else {
        wrapped_texts(ns.drop_last()).push(ns.last().children[0].data->Text_contents)
    }
}

proof fn lemma_text_spans_shape(fs: Seq<Seq<char>>, st: State)
    ensures
        text_spans(fs, st).0.len() == fs.len(),
        forall|i: int|
            0 <= i < fs.len() ==> {
                let n = #[trigger] text_spans(fs, st).0[i];
                &&& spec_has_kobospan(n)
                &&& n.children == seq![spec_text(fs[i])]
            },
        wrapped_texts(text_spans(fs, st).0) == fs,
    decreases fs.len(),
{
    if fs.len() > 0 {
        lemma_text_spans_shape(fs.drop_last(), st);
        let (pre, st1) = text_spans(fs.drop_last(), st);
        let (id, st2) = spec_alloc_id(State { para: st1.para, seg: inc(st1.seg) });
        let span = span_node(id, spec_text(fs.last()));
        lemma_span_is_marked(id, spec_text(fs.last()));
        let out = text_spans(fs, st).0;
        assert(out == pre.push(span));
        assert forall|i: int| 0 <= i < fs.len() implies {
            let n = #[trigger] out[i];
            &&& spec_has_kobospan(n)
            &&& n.children == seq![spec_text(fs[i])]
        } by {
            if i < fs.len() - 1 {
                assert(out[i] == pre[i]);
                assert(fs.drop_last()[i] == fs[i]);
            }
        }
        assert(out.drop_last() =~= pre);
        assert(fs.drop_last().push(fs.last()) =~= fs);
    }
}

/// A text with more than whitespace in it becomes koboSpans, each wrapping
/// one piece of the text, and the pieces joined give the text back.
pub proof fn lemma_text_spans_cover_text(contents: Seq<char>, tag: Seq<char>, st: State)
    requires
        contents.len() > 0,
        !all_ws(contents),
    ensures
        ({
            let out = spec_process_text(contents, tag, st).0;
            &&& forall|i: int|
                0 <= i < out.len() ==> spec_has_kobospan(#[trigger] out[i]) && out[i].children.len()
                    == 1 && out[i].children[0].data is Text
            &&& crate::text::concat(wrapped_texts(out)) == contents
        }),
{
    crate::sentences::lemma_fragments_rejoin(contents);
    let fs = sentence_fragments(contents);
    lemma_text_spans_shape(fs, st);
}

/// Text inside any element but those whose contents are kept (and `img`,
/// which is wrapped whole) is put into koboSpans: walking an element that has
/// a text child with more than whitespace in it gives a node holding
/// koboSpans.
pub proof fn lemma_text_in_elements_gets_spans(child: NodeV, tag: Seq<char>, st: State, k: int)
    requires
        child.data is Element,
        !keeps_contents(child.data->Element_name),
        child.data->Element_name != "img"@,
        0 <= k < child.children.len(),
        child.children[k].data is Text,
        child.children[k].data->Text_contents.len() > 0,
        !all_ws(child.children[k].data->Text_contents),
    ensures
        any_has_kobospan(walk_step(child, tag, st).0),
{
    let name = child.data->Element_name;
    let st1 = if is_block(name) {
        State { para: inc(st.para), seg: 0 }
    } else {
        st
    };
    let cs = child.children;
    let s1 = walk_children(cs.take(k), name, st1).1;
    lemma_text_becomes_spans(cs[k].data->Text_contents, name, s1);
    assert(walk_step(cs[k], name, s1) == spec_process_text(cs[k].data->Text_contents, name, s1));
    lemma_walk_children_part(cs, name, st1, k);
    let node = walk_node(child, name, st1).0;
    assert(node.children == walk_children(cs, name, st1).0);
    assert(spec_has_kobospan(node));
    assert(walk_step(child, tag, st).0 == seq![node]);
    lemma_any_single(node);
}

proof fn lemma_with_child_names(d: NodeV, i: int, c: NodeV, tag: Seq<char>)
    requires
        0 <= i < d.children.len(),
        c.data == d.children[i].data,
    ensures
        spec_find_child(with_child(d, i, c), tag) == spec_find_child(d, tag),
{
    crate::dom::lemma_find_from_same_names(with_child(d, i, c).children, d.children, tag, 0);
}

/// A koboSpan in one of the nodes is a koboSpan among them.
proof fn lemma_any_has_member(cs: Seq<NodeV>, i: int)
    requires
        0 <= i < cs.len(),
        spec_has_kobospan(cs[i]),
    ensures
        any_has_kobospan(cs),
    decreases cs.len(),
{
    if i < cs.len() - 1 {
        assert(cs.drop_last()[i] == cs[i]);
        lemma_any_has_member(cs.drop_last(), i);
    }
}

/// `<span class="koboSpan" id="kobo.<para>.<seg>">child</span>`, written out.
pub open spec fn numbered_span(para: nat, seg: nat, child: NodeV) -> NodeV {
    NodeV {
        data: DataV::Element {
            name: "span"@,
            attrs: seq![
                plain_attr("class"@, "koboSpan"@),
                plain_attr("id"@, "kobo."@ + decimal(para) + "."@ + decimal(seg)),
            ],
        },
        children: seq![child],
    }
}

/// The paragraph number that the current counters stand for: 1 before the
/// first paragraph.
pub open spec fn current_para(st: State) -> nat {
    if st.para == 0 {
        1
    } else {
        st.para as nat
    }
}

/// The elements that open a new paragraph: `p`, `ol`, `ul`, `table` and
/// the headings `h1` to `h6`.
pub open spec fn opens_paragraph(name: Seq<char>) -> bool {
    ||| name == "p"@ || name == "ol"@ || name == "ul"@ || name == "table"@
    ||| name == "h1"@ || name == "h2"@ || name == "h3"@
    ||| name == "h4"@ || name == "h5"@ || name == "h6"@
}

proof fn lemma_text_spans_numbered(fs: Seq<Seq<char>>, st: State)
    requires
        st.seg + fs.len() <= u32::MAX,
    ensures
        ({
            let (out, st2) = text_spans(fs, st);
            &&& out.len() == fs.len()
            &&& forall|i: int|
                0 <= i < fs.len() ==> #[trigger] out[i] == numbered_span(
                    current_para(st),
                    (st.seg + i + 1) as nat,
                    spec_text(fs[i]),
                )
            &&& fs.len() == 0 ==> st2 == st
            &&& fs.len() > 0 ==> st2 == State {
                para: current_para(st) as u32,
                seg: (st.seg + fs.len()) as u32,
            }
        }),
    decreases fs.len(),
{
    if fs.len() > 0 {
        lemma_text_spans_numbered(fs.drop_last(), st);
        let (pre, st1) = text_spans(fs.drop_last(), st);
        let out = text_spans(fs, st).0;
        assert(out == pre.push(next_span(spec_text(fs.last()), st1).0));
        assert forall|i: int| 0 <= i < fs.len() implies #[trigger] out[i] == numbered_span(
            current_para(st),
            (st.seg + i + 1) as nat,
            spec_text(fs[i]),
        ) by {
            if i < fs.len() - 1 {
                assert(out[i] == pre[i]);
                assert(fs.drop_last()[i] == fs[i]);
            }
        }
    }
}

/// Sentence spans are numbered `kobo.<paragraph>.<segment>`. An element
/// that opens a paragraph (`p`, `ol`, `ul`, `table`, `h1` to `h6`) takes the
/// next paragraph number and numbers its sentences from 1; any other element
/// whose contents are not kept goes on with the current paragraph (1 before
/// the first) and with the segment after the last one.
pub proof fn lemma_sentence_spans_numbered(child: NodeV, tag: Seq<char>, st: State, t: Seq<char>)
    requires
        child.data is Element,
        !keeps_contents(child.data->Element_name),
        child.data->Element_name != "img"@,
        child.children == seq![spec_text(t)],
        t.len() > 0,
        !all_ws(t),
        st.para < u32::MAX,
        st.seg + sentence_fragments(t).len() <= u32::MAX,
    ensures
        ({
            let out = walk_step(child, tag, st).0;
            let fs = sentence_fragments(t);
            let opens = opens_paragraph(child.data->Element_name);
            let para: nat = if opens {
                (st.para + 1) as nat
            } else {
                current_para(st)
            };
            let seg0: int = if opens {
                0
            } else {
                st.seg as int
            };
            &&& out.len() == 1
            &&& out[0].data == child.data
            &&& out[0].children.len() == fs.len()
            &&& forall|i: int|
                0 <= i < fs.len() ==> #[trigger] out[0].children[i] == numbered_span(
                    para,
                    (seg0 + i + 1) as nat,
                    spec_text(fs[i]),
                )
        }),
{
    let name = child.data->Element_name;
    let st1 = if is_block(name) {
        State { para: inc(st.para), seg: 0 }
    } else {
        st
    };
    lemma_walk_children_single(spec_text(t), name, st1);
    lemma_text_spans_numbered(sentence_fragments(t), st1);
}

/// An image is wrapped whole in a span of its own paragraph:
/// `kobo.<next paragraph>.<next segment>`.
pub proof fn lemma_image_span(child: NodeV, tag: Seq<char>, st: State)
    requires
        child.data is Element,
        child.data->Element_name == "img"@,
        st.para < u32::MAX,
        st.seg < u32::MAX,
    ensures
        walk_step(child, tag, st) == (
            seq![numbered_span((st.para + 1) as nat, (st.seg + 1) as nat, child)],
            State { para: (st.para + 1) as u32, seg: (st.seg + 1) as u32 },
        ),
{
    reveal_strlit("img");
    reveal_strlit("script");
    reveal_strlit("style");
    reveal_strlit("pre");
    reveal_strlit("audio");
    reveal_strlit("video");
    reveal_strlit("svg");
    reveal_strlit("math");
    assert(!is_skip("img"@)) by {
        assert("img"@[0] != "script"@[0]);
        assert("img"@[0] != "style"@[0]);
        assert("img"@[0] != "pre"@[0]);
        assert("img"@[0] != "audio"@[0]);
        assert("img"@[0] != "video"@[0]);
        assert("img"@[0] != "svg"@[0]);
        assert("img"@[0] != "math"@[0]);
    }
}

/// Whitespace-only text is wrapped in a span only directly inside a `p`,
/// where it takes the next segment; elsewhere it passes through as it is.
pub proof fn lemma_whitespace_text(t: Seq<char>, tag: Seq<char>, st: State)
    requires
        t.len() > 0,
        all_ws(t),
        st.seg < u32::MAX,
    ensures
        tag == "p"@ ==> spec_process_text(t, tag, st) == (
            seq![numbered_span(current_para(st), (st.seg + 1) as nat, spec_text(t))],
            State { para: current_para(st) as u32, seg: (st.seg + 1) as u32 },
        ),
        tag != "p"@ ==> spec_process_text(t, tag, st) == (seq![spec_text(t)], st),
{
}

/// The transformation walks the `body` of the `html` element alone, with
/// both counters starting at zero, so the first span is `kobo.1.1`; every
/// other node stays where and as it was. A document that already holds a
/// koboSpan anywhere is left as it is.
pub proof fn lemma_kobo_doc_parts(d: NodeV, hi: int, bi: int)
    requires
        spec_find_child(d, "html"@) == Some(hi),
        spec_find_child(d.children[hi], "body"@) == Some(bi),
    ensures
        spec_has_kobospan(d) ==> kobo_doc(d) == d,
        !spec_has_kobospan(d) ==> ({
            let k = kobo_doc(d);
            let html = d.children[hi];
            &&& k.data == d.data
            &&& k.children.len() == d.children.len()
            &&& forall|i: int| 0 <= i < d.children.len() && i != hi ==> #[trigger] k.children[i] == d.children[i]
            &&& k.children[hi].data == html.data
            &&& k.children[hi].children.len() == html.children.len()
            &&& forall|i: int|
                0 <= i < html.children.len() ==> #[trigger] k.children[hi].children[i] == if i == bi {
                    walk_node(html.children[bi], "body"@, State { para: 0, seg: 0 }).0
                } else {
                    html.children[i]
                }
        }),
{
    crate::dom::lemma_find_from(d.children, "html"@, 0);
    crate::dom::lemma_find_from(d.children[hi].children, "body"@, 0);
}

/// The contents of `script`, `style`, `pre`, `audio`, `video`, `svg` and
/// `math` elements are left as they are, and so are comments, doctypes and
/// processing instructions; the counters do not move.
pub proof fn lemma_kept_contents_untouched(child: NodeV, tag: Seq<char>, st: State)
    requires
        (child.data is Element && keeps_contents(child.data->Element_name)) || child.data is Comment
            || child.data is Doctype || child.data is ProcessingInstruction,
    ensures
        walk_step(child, tag, st) == (seq![child], st),
{
}

/// Applying the koboSpan transformation twice gives the same tree as
/// applying it once.
pub proof fn lemma_kobo_idempotent(d: NodeV)
    ensures
        kobo_doc(kobo_doc(d)) == kobo_doc(d),
{
    if !spec_has_kobospan(d) {
        match spec_find_child(d, "html"@) {
            None => {},
            Some(hi) => {
                crate::dom::lemma_find_from(d.children, "html"@, 0);
                let html = d.children[hi];
                match spec_find_child(html, "body"@) {
                    None => {},
                    Some(bi) => {
                        crate::dom::lemma_find_from(html.children, "body"@, 0);
                        let body = html.children[bi];
                        let (body2, _) = walk_node(body, "body"@, start_state());
                        let html2 = with_child(html, bi, body2);
                        let d2 = with_child(d, hi, html2);
                        lemma_with_child_names(d, hi, html2, "html"@);
                        lemma_with_child_names(html, bi, body2, "body"@);
                        assert(d2.children[hi] == html2);
                        assert(html2.children[bi] == body2);
                        if !spec_has_kobospan(d2) {
                            if spec_has_kobospan(html2) {
                                lemma_any_has_member(d2.children, hi);
                            }
                            if spec_has_kobospan(body2) {
                                lemma_any_has_member(html2.children, bi);
                            }
                            lemma_walk_node_fixpoint(body, "body"@, start_state());
                            assert(walk_node(body2, "body"@, start_state()).0 == body2);
                            assert(with_child(html2, bi, body2).children =~= html2.children);
                            assert(with_child(d2, hi, html2).children =~= d2.children);
                        }
                    },
                }
            },
        }
    }
}

} // verus!
