//! Converting an EPUB into a Kobo kepub.
use vstd::prelude::*;

use vstd::string::StrSliceExecFns;

use crate::container::{find_opf_path, spec_find_opf_path, FALLBACK_OPF_PATHS};
use crate::jobs::{ends_with, ends_with_exec, lowercase, unicode_lowercase};
use crate::opf::{content_docs, has_prefix, normalize_cover, spec_content_docs, spec_normalize_cover, starts_with};
use crate::kobospan::kobo_doc;
use crate::parse::{parse, spec_parse};
use crate::serialize::{serialize, spec_serialize};
use crate::text::{owned, str_eq};
use crate::wrap::wrap_doc;
use vstd::utf8::encode_utf8;
use crate::xml::opt_string_view;
use crate::zip_io::{
    container_files, find_entry, holds_container, keep_where, lemma_find_entry,
    lemma_get_after_set, lemma_get_other_after_set, lemma_keep_where_prefix, names_distinct, read_epub, spec_get, spec_read_epub, spec_set,
    within_zip_limits, write_epub, zip_entry_stored, ContainerError, Epub,
};

verus! {

/// Non-content files that are dropped from the output container.
pub const JUNK: [&'static str; 5] = [
    "calibre_bookmarks.txt",
    "iTunesMetadata.plist",
    "iTunesArtwork",
    ".DS_Store",
    "Thumbs.db",
];

/// The entry is the junk file `j`, at the top or in any directory.
pub open spec fn names_junk(name: Seq<char>, j: Seq<char>) -> bool {
    name == j || ends_with(name, seq!['/'] + j)
}

/// An entry that is dropped: anything under `__MACOSX/` or `$RECYCLE.BIN/`,
/// and the files of `JUNK` wherever they are.
pub open spec fn spec_is_junk(name: Seq<char>) -> bool {
    ||| has_prefix(name, "__MACOSX/"@)
    ||| has_prefix(name, "$RECYCLE.BIN/"@)
    ||| names_junk(name, JUNK[0]@)
    ||| names_junk(name, JUNK[1]@)
    ||| names_junk(name, JUNK[2]@)
    ||| names_junk(name, JUNK[3]@)
    ||| names_junk(name, JUNK[4]@)
}

fn is_junk_file(name: &str, j: &str) -> (r: bool)
    ensures
        r == names_junk(name@, j@),
{
    if str_eq(name, j) {
        return true;
    }
    let mut suffix = owned("/");
    suffix.push_str(j);
    assert(suffix@ =~= seq!['/'] + j@) by {
        reveal_strlit("/");
    }
    ends_with_exec(name, suffix.as_str())
}

/// Whether an entry is dropped from the output container.
pub fn is_junk(name: &str) -> (r: bool)
    ensures
        r == spec_is_junk(name@),
{
    starts_with(name, "__MACOSX/") || starts_with(name, "$RECYCLE.BIN/") || is_junk_file(
        name,
        JUNK[0],
    ) || is_junk_file(name, JUNK[1]) || is_junk_file(name, JUNK[2]) || is_junk_file(
        name,
        JUNK[3],
    ) || is_junk_file(name, JUNK[4])
}

/// The name ends in `.xhtml`, `.html` or `.htm`, in any case.
pub open spec fn spec_is_content_ext(name: Seq<char>) -> bool {
    let lower = unicode_lowercase(name);
    ends_with(lower, ".xhtml"@) || ends_with(lower, ".html"@) || ends_with(lower, ".htm"@)
}

/// Whether an entry name looks like an XHTML content document.
pub fn is_content_ext(name: &str) -> (r: bool)
    ensures
        r == spec_is_content_ext(name@),
{
    let lower = lowercase(name);
    ends_with_exec(lower.as_str(), ".xhtml") || ends_with_exec(lower.as_str(), ".html")
        || ends_with_exec(lower.as_str(), ".htm")
}

/// The names of the entries that look like content documents, in order.
pub open spec fn spec_fallback_docs(es: Seq<(Seq<char>, Seq<u8>)>) -> Seq<Seq<char>>
    decreases es.len(),
{
    if es.len() == 0 {
        Seq::empty()
    } else {
        let rest = spec_fallback_docs(es.drop_last());
        if spec_is_content_ext(es.last().0) {
            rest.push(es.last().0)
        } else {
            rest
        }
    }
}

/// Every XHTML-looking entry in the container, used when the OPF manifest is
/// missing or unusable.
pub fn fallback_docs(epub: &Epub) -> (docs: Vec<String>)
    ensures
        docs@.map_values(|d: String| d@) == spec_fallback_docs(epub@),
{
    let ghost es = epub@;
    let mut docs: Vec<String> = Vec::new();
    let mut i: usize = 0;
    while i < epub.entries.len()
        invariant
            es == epub@,
            i <= epub.entries@.len(),
            docs@.map_values(|d: String| d@) == spec_fallback_docs(es.take(i as int)),
        decreases epub.entries@.len() - i,
    {
        let name = &epub.entries[i].name;
        assert(es.take(i + 1).drop_last() =~= es.take(i as int));
        assert(es[i as int].0 == name@);
        if is_content_ext(name.as_str()) {
            let ghost before = docs@.map_values(|d: String| d@);
            docs.push(name.clone());
            assert(docs@.map_values(|d: String| d@) =~= before.push(name@));
        }
        i += 1;
    }
    assert(es.take(es.len() as int) =~= es);
    docs
}

/// Whether each entry is kept: every one that is not junk.
pub open spec fn junk_flags(es: Seq<(Seq<char>, Seq<u8>)>) -> Seq<bool> {
    Seq::new(es.len(), |i: int| !spec_is_junk(es[i].0))
}

/// The entries that are not junk, in order.
pub open spec fn without_junk(es: Seq<(Seq<char>, Seq<u8>)>) -> Seq<(Seq<char>, Seq<u8>)> {
    keep_where(es, junk_flags(es))
}

/// Where the container file that names the OPF lives.
pub const CONTAINER_XML: &'static str = "META-INF/container.xml";

/// The OPF path: the one that `container.xml` names, else the first
/// conventional location that holds an entry.
pub open spec fn spec_opf_path(es: Seq<(Seq<char>, Seq<u8>)>) -> Option<Seq<char>> {
    let named = match spec_get(es, CONTAINER_XML@) {
        Some(xml) => spec_find_opf_path(xml),
        None => None,
    };
    match named {
        Some(p) => Some(p),
        None => if spec_get(es, FALLBACK_OPF_PATHS[0]@) is Some {
            Some(FALLBACK_OPF_PATHS[0]@)
        } else if spec_get(es, FALLBACK_OPF_PATHS[1]@) is Some {
            Some(FALLBACK_OPF_PATHS[1]@)
        } else {
            None
        },
    }
}

/// The documents to convert: those the OPF manifest lists, else every entry
/// that looks like a content document.
pub open spec fn spec_docs_to_convert(es: Seq<(Seq<char>, Seq<u8>)>, opf: Option<Seq<char>>) -> Seq<
    Seq<char>,
> {
    match opf {
        Some(p) => {
            let listed = match spec_get(es, p) {
                Some(xml) => spec_content_docs(xml, p),
                None => Seq::empty(),
            };
            if listed.len() == 0 {
                spec_fallback_docs(es)
            } else {
                listed
            }
        },
        None => spec_fallback_docs(es),
    }
}

/// A content document once converted: parsed, wrapped, given koboSpans and
/// serialized back to UTF-8.
pub open spec fn spec_kepub_document(raw: Seq<u8>) -> Seq<u8> {
    let (decl, dom) = spec_parse(raw);
    encode_utf8(spec_serialize(decl, kobo_doc(wrap_doc(dom))))
}

/// The (path, converted contents) of each listed document that is present,
/// in the order listed.
pub open spec fn doc_updates(es: Seq<(Seq<char>, Seq<u8>)>, docs: Seq<Seq<char>>) -> Seq<
    (Seq<char>, Seq<u8>),
>
    decreases docs.len(),
{
    if docs.len() == 0 {
        Seq::empty()
    } else {
        let rest = doc_updates(es, docs.drop_last());
        match spec_get(es, docs.last()) {
            Some(raw) => rest.push((docs.last(), spec_kepub_document(raw))),
            None => rest,
        }
    }
}

/// The entries after setting each update in turn.
pub open spec fn set_all(es: Seq<(Seq<char>, Seq<u8>)>, updates: Seq<(Seq<char>, Seq<u8>)>) -> Seq<
    (Seq<char>, Seq<u8>),
>
    decreases updates.len(),
{
    if updates.len() == 0 {
        es
    } else {
        let u = updates.last();
        spec_set(set_all(es, updates.drop_last()), u.0, u.1)
    }
}

/// The entries with the OPF's cover item marked, when that changes it.
pub open spec fn with_cover(es: Seq<(Seq<char>, Seq<u8>)>, opf: Option<Seq<char>>) -> Seq<
    (Seq<char>, Seq<u8>),
> {
    match opf {
        Some(p) => match spec_get(es, p) {
            Some(xml) => match spec_normalize_cover(xml) {
                Some(updated) => spec_set(es, p, updated),
                None => es,
            },
            None => es,
        },
        None => es,
    }
}

/// The entries of the kepub made from the entries of an EPUB.
pub open spec fn spec_convert_entries(es: Seq<(Seq<char>, Seq<u8>)>) -> Seq<(Seq<char>, Seq<u8>)> {
    let kept = without_junk(es);
    let opf = spec_opf_path(kept);
    let docs = spec_docs_to_convert(kept, opf);
    with_cover(set_all(kept, doc_updates(kept, docs)), opf)
}

/// Convert one content document: inject wrapper divs and koboSpans, and
/// serialize it back.
pub fn kepub_document(raw: &[u8]) -> (out: Vec<u8>)
    ensures
        out@ == spec_kepub_document(raw@),
{
    let mut doc = parse(raw);
    crate::wrap::transform(&mut doc);
    crate::kobospan::transform(&mut doc);
    let text = serialize(&doc);
    text.as_str().as_bytes_vec()
}

/// The OPF path of an EPUB whose junk is gone.
fn locate_opf(epub: &Epub) -> (r: Option<String>)
    ensures
        opt_string_view(r) == spec_opf_path(epub@),
{
    let named = match epub.get(CONTAINER_XML) {
        Some(xml) => find_opf_path(xml),
        None => None,
    };
    match named {
        Some(p) => Some(p),
        None => if epub.get(FALLBACK_OPF_PATHS[0]).is_some() {
            Some(owned(FALLBACK_OPF_PATHS[0]))
        } else if epub.get(FALLBACK_OPF_PATHS[1]).is_some() {
            Some(owned(FALLBACK_OPF_PATHS[1]))
        } else {
            None
        },
    }
}

/// The documents to convert, given the OPF path.
fn docs_to_convert(epub: &Epub, opf: &Option<String>) -> (docs: Vec<String>)
    ensures
        docs@.map_values(|d: String| d@) == spec_docs_to_convert(epub@, opt_string_view(*opf)),
{
    match opf {
        Some(path) => {
            let listed = match epub.get(path.as_str()) {
                Some(xml) => content_docs(xml, path.as_str()),
                None => Vec::new(),
            };
            if listed.len() == 0 {
                assert(listed@.map_values(|d: String| d@).len() == 0);
                fallback_docs(epub)
            } else {
                listed
            }
        },
        None => fallback_docs(epub),
    }
}

/// Convert the entries of an EPUB in memory: drop junk, convert every content
/// document, and mark the cover image in the OPF.
pub fn convert_entries(epub: &mut Epub)
    ensures
        final(epub)@ == spec_convert_entries(old(epub)@),
{
    let ghost es0 = epub@;
    let ghost entries0 = epub.entries@;
    let keep = |name: &String| -> (keep: bool)
        ensures
            keep == !spec_is_junk(name@),
        { !is_junk(name.as_str()) };
    let ghost keep_spec = keep;
    epub.retain(keep);
    proof {
        let kept = choose|kept: Seq<bool>|
            #![trigger keep_where(es0, kept)]
            kept.len() == es0.len() && (forall|i: int|
                0 <= i < kept.len() ==> keep_spec.ensures((&entries0[i].name,), #[trigger] kept[i]))
                && epub@ == keep_where(es0, kept);
        assert forall|i: int| 0 <= i < es0.len() implies kept[i] == junk_flags(es0)[i] by {
            assert(keep_spec.ensures((&entries0[i].name,), kept[i]));
            assert(es0[i].0 == entries0[i].name@);
        }
        lemma_keep_where_prefix(es0, kept, junk_flags(es0));
    }
    let kept_entries: Ghost<Seq<(Seq<char>, Seq<u8>)>> = Ghost(epub@);
    let opf = locate_opf(epub);
    let docs = docs_to_convert(epub, &opf);
    let mut updates: Vec<(String, Vec<u8>)> = Vec::new();
    let mut i: usize = 0;
    while i < docs.len()
        invariant
            i <= docs@.len(),
            epub@ == kept_entries@,
            updates@.map_values(|u: (String, Vec<u8>)| (u.0@, u.1@)) == doc_updates(
                kept_entries@,
                docs@.map_values(|d: String| d@).take(i as int),
            ),
        decreases docs@.len() - i,
    {
        let ghost dv = docs@.map_values(|d: String| d@);
        assert(dv.take(i + 1).drop_last() =~= dv.take(i as int));
        assert(dv.take(i + 1).last() == docs@[i as int]@);
        let ghost before = updates@.map_values(|u: (String, Vec<u8>)| (u.0@, u.1@));
        match epub.get(docs[i].as_str()) {
            Some(raw) => {
                let converted = kepub_document(raw);
                updates.push((docs[i].clone(), converted));
                assert(updates@.map_values(|u: (String, Vec<u8>)| (u.0@, u.1@)) =~= before.push(
                    (docs@[i as int]@, spec_kepub_document(raw@)),
                ));
            },
            None => {},
        }
        i += 1;
    }
    assert(docs@.map_values(|d: String| d@).take(docs@.len() as int) =~= docs@.map_values(
        |d: String| d@,
    ));
    let ghost uv = updates@.map_values(|u: (String, Vec<u8>)| (u.0@, u.1@));
    let mut j: usize = 0;
    while j < updates.len()
        invariant
            j <= updates@.len(),
            uv == updates@.map_values(|u: (String, Vec<u8>)| (u.0@, u.1@)),
            epub@ == set_all(kept_entries@, uv.take(j as int)),
        decreases updates@.len() - j,
    {
        assert(uv.take(j + 1).drop_last() =~= uv.take(j as int));
        let data = updates[j].1.clone();
        epub.set(updates[j].0.as_str(), data);
        j += 1;
    }
    assert(uv.take(uv.len() as int) =~= uv);
    match &opf {
        Some(path) => {
            let updated = match epub.get(path.as_str()) {
                Some(xml) => normalize_cover(xml),
                None => None,
            };
            match updated {
                Some(u) => epub.set(path.as_str(), u),
                None => {},
            }
        },
        None => {},
    }
}

/// Why an EPUB could not be converted.
#[derive(Debug)]
pub enum ConvertError {
    /// The EPUB container could not be read.
    Read(ContainerError),
    /// The kepub container could not be written.
    Write(ContainerError),
}

impl ConvertError {
    /// What was being done when the conversion failed.
    pub fn context(&self) -> (r: &'static str)
        ensures
            r@ == match self {
                ConvertError::Read(_) => "reading EPUB container"@,
                ConvertError::Write(_) => "writing kepub container"@,
            },
    {
        match self {
            ConvertError::Read(_) => "reading EPUB container",
            ConvertError::Write(_) => "writing kepub container",
        }
    }
}

/// Convert raw EPUB bytes into a Kobo kepub: inject koboSpans and wrapper divs
/// into every content document, normalize the cover, and re-pack the zip.
pub fn convert_epub(bytes: &[u8]) -> (r: Result<Vec<u8>, ConvertError>)
    ensures
        match r {
            Ok(out) => match spec_read_epub(bytes@) {
                Some(es) => holds_container(out@, spec_convert_entries(es)) && zip_entry_stored(
                    out@,
                    0,
                ),
                None => false,
            },
            Err(ConvertError::Read(_)) => spec_read_epub(bytes@) is None,
            Err(ConvertError::Write(_)) => spec_read_epub(bytes@) is Some,
        },
        match spec_read_epub(bytes@) {
            Some(es) => within_zip_limits(container_files(spec_convert_entries(es)))
                && names_distinct(container_files(spec_convert_entries(es))) ==> r is Ok,
            None => true,
        },
{
    let mut epub = match read_epub(bytes) {
        Ok(e) => e,
        Err(err) => {
            return Err(ConvertError::Read(err));
        },
    };
    convert_entries(&mut epub);
    match write_epub(&epub) {
        Ok(out) => Ok(out),
        Err(err) => Err(ConvertError::Write(err)),
    }
}

/// The names of entries, in order.
pub open spec fn names_of(es: Seq<(Seq<char>, Seq<u8>)>) -> Seq<Seq<char>> {
    es.map_values(|e: (Seq<char>, Seq<u8>)| e.0)
}

proof fn lemma_find_entry_by_names(
    a: Seq<(Seq<char>, Seq<u8>)>,
    b: Seq<(Seq<char>, Seq<u8>)>,
    name: Seq<char>,
    i: int,
)
    requires
        names_of(a) == names_of(b),
    ensures
        find_entry(a, name, i) == find_entry(b, name, i),
    decreases a.len() - i,
{
    assert(a.len() == names_of(a).len());
    assert(b.len() == names_of(b).len());
    if 0 <= i < a.len() {
        assert(names_of(a)[i] == a[i].0);
        assert(names_of(b)[i] == b[i].0);
        lemma_find_entry_by_names(a, b, name, i + 1);
    }
}

proof fn lemma_set_present_keeps_names(es: Seq<(Seq<char>, Seq<u8>)>, name: Seq<char>, data: Seq<u8>)
    requires
        spec_get(es, name) is Some,
    ensures
        names_of(spec_set(es, name, data)) == names_of(es),
{
    lemma_find_entry(es, name, 0);
    let k = find_entry(es, name, 0)->Some_0;
    assert(names_of(spec_set(es, name, data)) =~= names_of(es));
}

proof fn lemma_set_all_keeps_names(es: Seq<(Seq<char>, Seq<u8>)>, updates: Seq<(Seq<char>, Seq<u8>)>)
    requires
        forall|k: int| 0 <= k < updates.len() ==> spec_get(es, #[trigger] updates[k].0) is Some,
    ensures
        names_of(set_all(es, updates)) == names_of(es),
    decreases updates.len(),
{
    if updates.len() > 0 {
        let rest = updates.drop_last();
        assert forall|k: int| 0 <= k < rest.len() implies spec_get(es, #[trigger] rest[k].0) is Some by {
            assert(rest[k] == updates[k]);
        }
        lemma_set_all_keeps_names(es, rest);
        let mid = set_all(es, rest);
        let u = updates.last();
        assert(spec_get(es, updates[updates.len() - 1].0) is Some);
        lemma_find_entry_by_names(mid, es, u.0, 0);
        lemma_set_present_keeps_names(mid, u.0, u.1);
    }
}

proof fn lemma_doc_updates_present(es: Seq<(Seq<char>, Seq<u8>)>, docs: Seq<Seq<char>>)
    ensures
        forall|k: int|
            0 <= k < doc_updates(es, docs).len() ==> spec_get(es, #[trigger] doc_updates(es, docs)[k].0) is Some,
    decreases docs.len(),
{
    if docs.len() > 0 {
        lemma_doc_updates_present(es, docs.drop_last());
    }
}

proof fn lemma_keep_where_not_junk(es: Seq<(Seq<char>, Seq<u8>)>, flags: Seq<bool>)
    requires
        flags.len() >= es.len(),
        forall|j: int| 0 <= j < es.len() && #[trigger] flags[j] ==> !spec_is_junk(es[j].0),
    ensures
        forall|i: int|
            0 <= i < keep_where(es, flags).len() ==> !spec_is_junk(#[trigger] keep_where(es, flags)[i].0),
    decreases es.len(),
{
    if es.len() > 0 {
        let rest = es.drop_last();
        assert forall|j: int| 0 <= j < rest.len() && #[trigger] flags[j] implies !spec_is_junk(rest[j].0) by {
            assert(rest[j] == es[j]);
        }
        lemma_keep_where_not_junk(rest, flags);
        let r = keep_where(rest, flags);
        let all = keep_where(es, flags);
        if flags[es.len() - 1] {
            assert(!spec_is_junk(es[es.len() - 1].0));
            assert(all == r.push(es.last()));
            assert forall|i: int| 0 <= i < all.len() implies !spec_is_junk(#[trigger] all[i].0) by {
                if i < r.len() {
                    assert(all[i] == r[i]);
                }
            }
        } else {
            assert(all == r);
        }
    }
}

/// Converting keeps the names of the entries that are not junk, in their
/// order: junk is dropped, documents and the OPF are rewritten in place, and
/// nothing is added. So the kepub holds no junk.
pub proof fn lemma_convert_keeps_names(es: Seq<(Seq<char>, Seq<u8>)>)
    ensures
        names_of(spec_convert_entries(es)) == names_of(without_junk(es)),
        forall|i: int|
            0 <= i < spec_convert_entries(es).len() ==> !spec_is_junk(
                #[trigger] spec_convert_entries(es)[i].0,
            ),
{
    let kept = without_junk(es);
    let opf = spec_opf_path(kept);
    let docs = spec_docs_to_convert(kept, opf);
    let updates = doc_updates(kept, docs);
    lemma_doc_updates_present(kept, docs);
    lemma_set_all_keeps_names(kept, updates);
    let es2 = set_all(kept, updates);
    match opf {
        Some(p) => {
            if spec_get(es2, p) is Some && spec_normalize_cover(spec_get(es2, p)->Some_0) is Some {
                lemma_set_present_keeps_names(es2, p, spec_normalize_cover(spec_get(es2, p)->Some_0)->Some_0);
            }
        },
        None => {},
    }
    let result = spec_convert_entries(es);
    assert(names_of(result) == names_of(kept));
    assert forall|j: int| 0 <= j < es.len() && #[trigger] junk_flags(es)[j] implies !spec_is_junk(es[j].0) by {}
    lemma_keep_where_not_junk(es, junk_flags(es));
    assert forall|i: int| 0 <= i < result.len() implies !spec_is_junk(#[trigger] result[i].0) by {
        assert(result.len() == names_of(result).len());
        assert(kept.len() == names_of(kept).len());
        assert(names_of(result)[i] == result[i].0);
        assert(names_of(kept)[i] == kept[i].0);
    }
}

/// Whether converting the entries `kept` must convert the document named
/// `d`: the OPF manifest lists it, or, when the manifest lists no content
/// document, its name ends like a content document's.
pub open spec fn must_convert(kept: Seq<(Seq<char>, Seq<u8>)>, d: Seq<char>) -> bool {
    let listed = match spec_opf_path(kept) {
        Some(p) => match spec_get(kept, p) {
            Some(xml) => spec_content_docs(xml, p),
            None => Seq::empty(),
        },
        None => Seq::empty(),
    };
    if listed.len() > 0 {
        listed.contains(d)
    } else {
        named_like_document(d)
    }
}

/// The name, lower-cased, ends in `.xhtml`, `.html` or `.htm`.
pub open spec fn named_like_document(d: Seq<char>) -> bool {
    let lower = unicode_lowercase(d);
    ||| ends_with(lower, ".xhtml"@)
    ||| ends_with(lower, ".html"@)
    ||| ends_with(lower, ".htm"@)
}

proof fn lemma_set_all_get(
    es: Seq<(Seq<char>, Seq<u8>)>,
    updates: Seq<(Seq<char>, Seq<u8>)>,
    d: Seq<char>,
    v: Seq<u8>,
)
    requires
        forall|k: int| 0 <= k < updates.len() && #[trigger] updates[k].0 == d ==> updates[k].1 == v,
        exists|k: int| 0 <= k < updates.len() && #[trigger] updates[k].0 == d,
    ensures
        spec_get(set_all(es, updates), d) == Some(v),
    decreases updates.len(),
{
    let u = updates.last();
    let rest = updates.drop_last();
    if u.0 == d {
        lemma_get_after_set(set_all(es, rest), u.0, u.1);
    } else {
        let k = choose|k: int| 0 <= k < updates.len() && #[trigger] updates[k].0 == d;
        assert(k < rest.len() && rest[k] == updates[k]);
        assert forall|m: int| 0 <= m < rest.len() && #[trigger] rest[m].0 == d implies rest[m].1 == v by {
            assert(rest[m] == updates[m]);
        }
        lemma_set_all_get(es, rest, d, v);
        lemma_get_other_after_set(set_all(es, rest), u.0, u.1, d);
    }
}

proof fn lemma_doc_updates_values(es: Seq<(Seq<char>, Seq<u8>)>, docs: Seq<Seq<char>>, d: Seq<char>)
    requires
        spec_get(es, d) is Some,
    ensures
        forall|k: int|
            0 <= k < doc_updates(es, docs).len() && #[trigger] doc_updates(es, docs)[k].0 == d
                ==> doc_updates(es, docs)[k].1 == spec_kepub_document(spec_get(es, d)->Some_0),
        docs.contains(d) ==> exists|k: int|
            0 <= k < doc_updates(es, docs).len() && #[trigger] doc_updates(es, docs)[k].0 == d,
    decreases docs.len(),
{
    if docs.len() > 0 {
        let rest = docs.drop_last();
        lemma_doc_updates_values(es, rest, d);
        let ups = doc_updates(es, docs);
        let pre = doc_updates(es, rest);
        assert forall|k: int| 0 <= k < ups.len() && #[trigger] ups[k].0 == d implies ups[k].1
            == spec_kepub_document(spec_get(es, d)->Some_0) by {
            if k < pre.len() {
                assert(ups[k] == pre[k]);
            }
        }
        if docs.contains(d) {
            if docs.last() == d {
                assert(ups[ups.len() - 1].0 == d);
            } else {
                let i = choose|i: int| 0 <= i < docs.len() && docs[i] == d;
                assert(rest[i] == d);
                assert(rest.contains(d));
                let k = choose|k: int| 0 <= k < pre.len() && #[trigger] pre[k].0 == d;
                assert(ups[k] == pre[k]);
            }
        }
    }
}

proof fn lemma_fallback_lists(es: Seq<(Seq<char>, Seq<u8>)>, i: int)
    requires
        0 <= i < es.len(),
        spec_is_content_ext(es[i].0),
    ensures
        spec_fallback_docs(es).contains(es[i].0),
    decreases es.len(),
{
    let rest = spec_fallback_docs(es.drop_last());
    if i == es.len() - 1 {
        assert(spec_fallback_docs(es) == rest.push(es.last().0));
        assert(spec_fallback_docs(es)[rest.len() as int] == es[i].0);
    } else {
        assert(es.drop_last()[i] == es[i]);
        lemma_fallback_lists(es.drop_last(), i);
        let k = choose|k: int| 0 <= k < rest.len() && rest[k] == es[i].0;
        if spec_is_content_ext(es.last().0) {
            assert(spec_fallback_docs(es)[k] == rest[k]);
        }
    }
}

/// Every document that the conversion must convert and that the container
/// holds comes out converted: the kepub's entry of that name holds the
/// converted document made from the original one. (The OPF itself, when it
/// is listed, gets the cover mark instead.)
pub proof fn lemma_listed_documents_converted(es: Seq<(Seq<char>, Seq<u8>)>, d: Seq<char>)
    requires
        must_convert(without_junk(es), d),
        spec_get(without_junk(es), d) is Some,
        spec_opf_path(without_junk(es)) != Some(d),
    ensures
        spec_get(spec_convert_entries(es), d) == Some(
            spec_kepub_document(spec_get(without_junk(es), d)->Some_0),
        ),
{
    let kept = without_junk(es);
    let opf = spec_opf_path(kept);
    let docs = spec_docs_to_convert(kept, opf);
    assert(forall|n: Seq<char>| #[trigger] named_like_document(n) == spec_is_content_ext(n));
    lemma_find_entry(kept, d, 0);
    let i = find_entry(kept, d, 0)->Some_0;
    assert(kept[i].0 == d);
    if !docs.contains(d) {
        lemma_fallback_lists(kept, i);
    }
    assert(docs.contains(d));
    let ups = doc_updates(kept, docs);
    lemma_doc_updates_values(kept, docs, d);
    let v = spec_kepub_document(spec_get(kept, d)->Some_0);
    lemma_set_all_get(kept, ups, d, v);
    let es2 = set_all(kept, ups);
    match opf {
        Some(p) => {
            if spec_get(es2, p) is Some && spec_normalize_cover(spec_get(es2, p)->Some_0) is Some {
                lemma_get_other_after_set(es2, p, spec_normalize_cover(spec_get(es2, p)->Some_0)->Some_0, d);
            }
        },
        None => {},
    }
}

/// The files that never belong in a kepub: anything under `__MACOSX/` or
/// `$RECYCLE.BIN/`, and `calibre_bookmarks.txt`, `iTunesMetadata.plist`,
/// `iTunesArtwork`, `.DS_Store` and `Thumbs.db` at the top or in any
/// directory.
pub open spec fn clutter(name: Seq<char>) -> bool {
    ||| has_prefix(name, "__MACOSX/"@)
    ||| has_prefix(name, "$RECYCLE.BIN/"@)
    ||| name == "calibre_bookmarks.txt"@ || ends_with(name, seq!['/'] + "calibre_bookmarks.txt"@)
    ||| name == "iTunesMetadata.plist"@ || ends_with(name, seq!['/'] + "iTunesMetadata.plist"@)
    ||| name == "iTunesArtwork"@ || ends_with(name, seq!['/'] + "iTunesArtwork"@)
    ||| name == ".DS_Store"@ || ends_with(name, seq!['/'] + ".DS_Store"@)
    ||| name == "Thumbs.db"@ || ends_with(name, seq!['/'] + "Thumbs.db"@)
}

proof fn lemma_get_some(es: Seq<(Seq<char>, Seq<u8>)>, name: Seq<char>, k: int)
    requires
        0 <= k < es.len(),
        es[k].0 == name,
    ensures
        spec_get(es, name) is Some,
{
    lemma_find_entry(es, name, 0);
}

proof fn lemma_keep_where_member(es: Seq<(Seq<char>, Seq<u8>)>, flags: Seq<bool>, j: int)
    requires
        0 <= j < es.len(),
        flags.len() >= es.len(),
        flags[j],
    ensures
        exists|k: int| 0 <= k < keep_where(es, flags).len() && #[trigger] keep_where(es, flags)[k] == es[j],
    decreases es.len(),
{
    let rest = keep_where(es.drop_last(), flags);
    if j == es.len() - 1 {
        assert(keep_where(es, flags) == rest.push(es.last()));
        assert(keep_where(es, flags)[rest.len() as int] == es[j]);
    } else {
        assert(es.drop_last()[j] == es[j]);
        lemma_keep_where_member(es.drop_last(), flags, j);
        let k = choose|k: int| 0 <= k < rest.len() && #[trigger] rest[k] == es[j];
        assert(keep_where(es, flags)[k] == rest[k]);
    }
}

/// The kepub holds no clutter, and every entry of the EPUB that is not
/// clutter is still there under its name.
pub proof fn lemma_clutter_dropped(es: Seq<(Seq<char>, Seq<u8>)>)
    ensures
        forall|i: int|
            0 <= i < spec_convert_entries(es).len() ==> !clutter(
                #[trigger] spec_convert_entries(es)[i].0,
            ),
        forall|j: int|
            0 <= j < es.len() && !clutter(#[trigger] es[j].0) ==> spec_get(
                spec_convert_entries(es),
                es[j].0,
            ) is Some,
{
    reveal_strlit("calibre_bookmarks.txt");
    reveal_strlit("iTunesMetadata.plist");
    reveal_strlit("iTunesArtwork");
    reveal_strlit(".DS_Store");
    reveal_strlit("Thumbs.db");
    assert(JUNK[0]@ == "calibre_bookmarks.txt"@);
    assert(JUNK[1]@ == "iTunesMetadata.plist"@);
    assert(JUNK[2]@ == "iTunesArtwork"@);
    assert(JUNK[3]@ == ".DS_Store"@);
    assert(JUNK[4]@ == "Thumbs.db"@);
    assert(forall|n: Seq<char>| #[trigger] clutter(n) == spec_is_junk(n));
    lemma_convert_keeps_names(es);
    let result = spec_convert_entries(es);
    let kept = without_junk(es);
    assert forall|j: int| 0 <= j < es.len() && !clutter(#[trigger] es[j].0) implies spec_get(
        result,
        es[j].0,
    ) is Some by {
        assert(junk_flags(es)[j]);
        lemma_keep_where_member(es, junk_flags(es), j);
        let k = choose|k: int| 0 <= k < kept.len() && #[trigger] kept[k] == es[j];
        assert(kept.len() == names_of(kept).len());
        assert(result.len() == names_of(result).len());
        assert(names_of(kept)[k] == kept[k].0);
        assert(names_of(result)[k] == result[k].0);
        lemma_get_some(result, es[j].0, k);
    }
}

proof fn lemma_fallback_named(es: Seq<(Seq<char>, Seq<u8>)>)
    ensures
        forall|k: int|
            0 <= k < spec_fallback_docs(es).len() ==> spec_is_content_ext(
                #[trigger] spec_fallback_docs(es)[k],
            ),
    decreases es.len(),
{
    if es.len() > 0 {
        lemma_fallback_named(es.drop_last());
        let rest = spec_fallback_docs(es.drop_last());
        let all = spec_fallback_docs(es);
        assert forall|k: int| 0 <= k < all.len() implies spec_is_content_ext(#[trigger] all[k]) by {
            if k < rest.len() {
                assert(all[k] == rest[k]);
            }
        }
    }
}

proof fn lemma_doc_updates_named(es: Seq<(Seq<char>, Seq<u8>)>, docs: Seq<Seq<char>>, d: Seq<char>)
    requires
        !docs.contains(d),
    ensures
        forall|k: int|
            0 <= k < doc_updates(es, docs).len() ==> #[trigger] doc_updates(es, docs)[k].0 != d,
    decreases docs.len(),
{
    if docs.len() > 0 {
        let rest = docs.drop_last();
        assert(!rest.contains(d)) by {
            if rest.contains(d) {
                let i = choose|i: int| 0 <= i < rest.len() && rest[i] == d;
                assert(docs[i] == d);
            }
        }
        assert(docs[docs.len() - 1] != d);
        lemma_doc_updates_named(es, rest, d);
        let pre = doc_updates(es, rest);
        let ups = doc_updates(es, docs);
        assert forall|k: int| 0 <= k < ups.len() implies #[trigger] ups[k].0 != d by {
            if k < pre.len() {
                assert(ups[k] == pre[k]);
            }
        }
    }
}

proof fn lemma_set_all_other(es: Seq<(Seq<char>, Seq<u8>)>, updates: Seq<(Seq<char>, Seq<u8>)>, d: Seq<char>)
    requires
        forall|k: int| 0 <= k < updates.len() ==> #[trigger] updates[k].0 != d,
    ensures
        spec_get(set_all(es, updates), d) == spec_get(es, d),
    decreases updates.len(),
{
    if updates.len() > 0 {
        let rest = updates.drop_last();
        assert forall|k: int| 0 <= k < rest.len() implies #[trigger] rest[k].0 != d by {
            assert(rest[k] == updates[k]);
        }
        lemma_set_all_other(es, rest, d);
        assert(updates[updates.len() - 1].0 != d);
        lemma_get_other_after_set(set_all(es, rest), updates.last().0, updates.last().1, d);
    }
}

/// The conversion touches no other entry: one that it need not convert,
/// other than the OPF, comes out as it went in.
pub proof fn lemma_other_entries_unchanged(es: Seq<(Seq<char>, Seq<u8>)>, d: Seq<char>)
    requires
        !must_convert(without_junk(es), d),
        spec_opf_path(without_junk(es)) != Some(d),
    ensures
        spec_get(spec_convert_entries(es), d) == spec_get(without_junk(es), d),
{
    let kept = without_junk(es);
    let opf = spec_opf_path(kept);
    let docs = spec_docs_to_convert(kept, opf);
    assert(forall|n: Seq<char>| #[trigger] named_like_document(n) == spec_is_content_ext(n));
    lemma_fallback_named(kept);
    assert(!docs.contains(d)) by {
        if docs.contains(d) {
            let i = choose|i: int| 0 <= i < docs.len() && docs[i] == d;
            if docs == spec_fallback_docs(kept) {
                assert(spec_is_content_ext(docs[i]));
            }
        }
    }
    let ups = doc_updates(kept, docs);
    lemma_doc_updates_named(kept, docs, d);
    lemma_set_all_other(kept, ups, d);
    let es2 = set_all(kept, ups);
    match opf {
        Some(p) => {
            if spec_get(es2, p) is Some && spec_normalize_cover(spec_get(es2, p)->Some_0) is Some {
                lemma_get_other_after_set(es2, p, spec_normalize_cover(spec_get(es2, p)->Some_0)->Some_0, d);
            }
        },
        None => {},
    }
}

/// Without `META-INF/container.xml`, the OPF is `content.opf` when the
/// container holds it, else `OEBPS/content.opf` when it holds that, else
/// there is none.
pub proof fn lemma_opf_fallback(es: Seq<(Seq<char>, Seq<u8>)>)
    requires
        spec_get(es, "META-INF/container.xml"@) is None,
    ensures
        spec_opf_path(es) == if spec_get(es, "content.opf"@) is Some {
            Some("content.opf"@)
        } else if spec_get(es, "OEBPS/content.opf"@) is Some {
            Some("OEBPS/content.opf"@)
        } else {
            None
        },
{
    reveal_strlit("META-INF/container.xml");
    reveal_strlit("content.opf");
    reveal_strlit("OEBPS/content.opf");
    assert(CONTAINER_XML@ == "META-INF/container.xml"@);
    assert(FALLBACK_OPF_PATHS[0]@ == "content.opf"@);
    assert(FALLBACK_OPF_PATHS[1]@ == "OEBPS/content.opf"@);
}

} // verus!
