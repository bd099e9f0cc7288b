//! Finding the OPF package document of an EPUB from `META-INF/container.xml`.
use vstd::prelude::*;

use crate::text::str_eq;
use crate::xml::{
    attrs_view, is_final_event, is_terminated, next_event, opt_string_view, pending_events,
    tag_attributes, tag_local_name, xml_attributes, xml_events, xml_local_name, xml_reader,
    XmlAttr, XmlAttrV, XmlEvent, XmlEventV,
};

verus! {

/// Conventional OPF locations to try when `container.xml` is missing.
pub const FALLBACK_OPF_PATHS: [&'static str; 2] = ["content.opf", "OEBPS/content.opf"];

/// Position of the first attribute whose local name is `name`, from `i` on.
pub open spec fn first_attr_named(attrs: Seq<XmlAttrV>, name: Seq<char>, i: int) -> Option<int>
    decreases attrs.len() - i,
{
    if i < 0 || i >= attrs.len() {
        None
    } else if attrs[i].local == name {
        Some(i)
    } else {
        first_attr_named(attrs, name, i + 1)
    }
}

/// For a tag named `local` with these attributes: when it is a `rootfile`
/// with a `full-path` attribute, the unescaped value of the first such
/// attribute (`None` inside when it does not unescape).
pub open spec fn spec_rootfile_path(local: Seq<char>, attrs: Seq<XmlAttrV>) -> Option<
    Option<Seq<char>>,
> {
    if local != "rootfile"@ {
        None
    } else {
        match first_attr_named(attrs, "full-path"@, 0) {
            Some(k) => Some(attrs[k].value),
            None => None,
        }
    }
}

/// The OPF path named by the events from position `i` on: the answer of the
/// first tag that is a `rootfile` with a `full-path`, or `None` when the
/// document ends or fails first.
pub open spec fn rootfile_from(events: Seq<XmlEventV>, i: int) -> Option<Seq<char>>
    decreases events.len() - i,
{
    if i < 0 || i >= events.len() {
        None
    } else {
        match events[i] {
            XmlEventV::Start(c) => match spec_rootfile_path(xml_local_name(c), xml_attributes(c)) {
                Some(found) => found,
                None => rootfile_from(events, i + 1),
            },
            XmlEventV::Empty(c) => match spec_rootfile_path(xml_local_name(c), xml_attributes(c)) {
                Some(found) => found,
                None => rootfile_from(events, i + 1),
            },
            XmlEventV::Other(_) => rootfile_from(events, i + 1),
            _ => None,
        }
    }
}

/// The OPF path that `container.xml` names in its first `<rootfile full-path="...">`.
pub open spec fn spec_find_opf_path(container_xml: Seq<u8>) -> Option<Seq<char>> {
    rootfile_from(xml_events(container_xml), 0)
}

/// The content of a start or empty tag, or `None` for any other event.
pub open spec fn tag_of(e: XmlEventV) -> Option<Seq<u8>> {
    match e {
        XmlEventV::Start(c) => Some(c),
        XmlEventV::Empty(c) => Some(c),
        _ => None,
    }
}

/// A tag that names the OPF: a `rootfile` with a `full-path` attribute.
pub open spec fn names_package(c: Seq<u8>) -> bool {
    xml_local_name(c) == "rootfile"@ && exists|j: int|
        0 <= j < xml_attributes(c).len() && #[trigger] xml_attributes(c)[j].local == "full-path"@
}

proof fn lemma_first_attr_named(attrs: Seq<XmlAttrV>, name: Seq<char>, i: int, j: int)
    requires
        0 <= i <= j < attrs.len(),
        attrs[j].local == name,
        forall|m: int| i <= m < j ==> #[trigger] attrs[m].local != name,
    ensures
        first_attr_named(attrs, name, i) == Some(j),
    decreases j - i,
{
    if i < j {
        lemma_first_attr_named(attrs, name, i + 1, j);
    }
}

proof fn lemma_no_attr_named(attrs: Seq<XmlAttrV>, name: Seq<char>, i: int)
    requires
        0 <= i,
        forall|m: int| i <= m < attrs.len() ==> #[trigger] attrs[m].local != name,
    ensures
        first_attr_named(attrs, name, i) is None,
    decreases attrs.len() - i,
{
    if i < attrs.len() {
        lemma_no_attr_named(attrs, name, i + 1);
    }
}

proof fn lemma_rootfile_scan(events: Seq<XmlEventV>, i: int, k: int, j: int)
    requires
        0 <= i <= k < events.len(),
        tag_of(events[k]) matches Some(c) && xml_local_name(c) == "rootfile"@ && 0 <= j
            < xml_attributes(c).len() && xml_attributes(c)[j].local == "full-path"@ && forall|m: int|
            0 <= m < j ==> #[trigger] xml_attributes(c)[m].local != "full-path"@,
        forall|m: int|
            i <= m < k ==> (#[trigger] events[m] is Other || (tag_of(events[m]) matches Some(c)
                && !names_package(c))),
    ensures
        rootfile_from(events, i) == xml_attributes(tag_of(events[k])->Some_0)[j].value,
    decreases k - i,
{
    if i < k {
        let e = events[i];
        if let Some(c) = tag_of(e) {
            assert(!names_package(c));
            if xml_local_name(c) == "rootfile"@ {
                lemma_no_attr_named(xml_attributes(c), "full-path"@, 0);
            }
        }
        lemma_rootfile_scan(events, i + 1, k, j);
    } else {
        let c = tag_of(events[k])->Some_0;
        lemma_first_attr_named(xml_attributes(c), "full-path"@, 0, j);
    }
}

/// The OPF is the one that the first `rootfile` tag with a `full-path`
/// attribute names, by that tag's first `full-path` attribute; events before
/// it that are neither such a tag nor the end or a failure are passed over.
pub proof fn lemma_first_rootfile_wins(container_xml: Seq<u8>, k: int, j: int)
    requires
        0 <= k < xml_events(container_xml).len(),
        tag_of(xml_events(container_xml)[k]) matches Some(c) && xml_local_name(c) == "rootfile"@ && 0
            <= j < xml_attributes(c).len() && xml_attributes(c)[j].local == "full-path"@ && forall|
            m: int,
        | 0 <= m < j ==> #[trigger] xml_attributes(c)[m].local != "full-path"@,
        forall|m: int|
            0 <= m < k ==> (#[trigger] xml_events(container_xml)[m] is Other || (tag_of(
                xml_events(container_xml)[m],
            ) matches Some(c) && !names_package(c))),
    ensures
        spec_find_opf_path(container_xml) == xml_attributes(
            tag_of(xml_events(container_xml)[k])->Some_0,
        )[j].value,
{
    lemma_rootfile_scan(xml_events(container_xml), 0, k, j);
}

/// For one tag: `Some` when it is a `rootfile` with a `full-path` attribute,
/// holding that attribute's unescaped value (or `None` when it does not
/// unescape); `None` for any other tag.
pub fn rootfile_path(local: &str, attrs: &Vec<XmlAttr>) -> (r: Option<Option<String>>)
    ensures
        match r {
            Some(v) => spec_rootfile_path(local@, attrs_view(attrs@)) == Some(opt_string_view(v)),
            None => spec_rootfile_path(local@, attrs_view(attrs@)) is None,
        },
{
    if !str_eq(local, "rootfile") {
        return None;
    }
    let ghost av = attrs_view(attrs@);
    let mut i: usize = 0;
    while i < attrs.len()
        invariant
            i <= attrs@.len(),
            av == attrs_view(attrs@),
            local@ == "rootfile"@,
            first_attr_named(av, "full-path"@, 0) == first_attr_named(av, "full-path"@, i as int),
        decreases attrs@.len() - i,
    {
        assert(av[i as int] == crate::xml::attr_view(attrs@[i as int]));
        if str_eq(attrs[i].local.as_str(), "full-path") {
            let v = match &attrs[i].value {
                Some(s) => Some(s.clone()),
                None => None,
            };
            return Some(v);
        }
        i += 1;
    }
    None
}

/// Locate the OPF package document from `META-INF/container.xml` by reading
/// the first `<rootfile full-path="...">`.
pub fn find_opf_path(container_xml: &[u8]) -> (r: Option<String>)
    ensures
        opt_string_view(r) == spec_find_opf_path(container_xml@),
{
    let mut reader = xml_reader(container_xml);
    let ghost events = xml_events(container_xml@);
    let ghost mut k: int = 0;
    loop
        invariant
            events == xml_events(container_xml@),
            is_terminated(events),
            0 <= k < events.len(),
            pending_events(reader) == events.subrange(k, events.len() as int),
            rootfile_from(events, 0) == rootfile_from(events, k),
        decreases events.len() - k,
    {
        let ev = next_event(&mut reader);
        let ghost seen = events[k];
        assert(crate::xml::event_view(ev) == seen);
        assert(pending_events(reader) =~= events.subrange(k + 1, events.len() as int));
        let tag = match ev {
            XmlEvent::Start(t) => t,
            XmlEvent::Empty(t) => t,
            XmlEvent::Other(_) => {
                assert(!is_final_event(events[k]));
                proof {
                    k = k + 1;
                }
                continue;
            },
            _ => {
                assert(seen is Eof || seen is Failed);
                assert(rootfile_from(events, k) is None);
                return None;
            },
        };
        let local = tag_local_name(&tag);
        let attrs = tag_attributes(&tag);
        assert(seen == XmlEventV::Start(crate::xml::tag_content(tag)) || seen == XmlEventV::Empty(
            crate::xml::tag_content(tag),
        ));
        match rootfile_path(local.as_str(), &attrs) {
            Some(found) => {
                assert(rootfile_from(events, k) == opt_string_view(found));
                return found;
            },
            None => {},
        }
        assert(!is_final_event(events[k]));
        proof {
            k = k + 1;
        }
    }
}

} // verus!
