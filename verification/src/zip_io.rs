//! EPUB containers: the entries in memory, and reading and writing them as zip.
use vstd::prelude::*;

use std::io::{Cursor, Read, Seek, Write};

use zip::result::ZipError;
use zip::write::SimpleFileOptions;
use zip::{CompressionMethod, ZipArchive, ZipWriter};

use crate::text::str_eq;
use vstd::utf8::encode_utf8;
use vstd::string::StringSliceAdditionalSpecFns;

verus! {

/// One stored file inside an EPUB container (directories are not retained).
pub struct Entry {
    pub name: String,
    pub data: Vec<u8>,
}

/// An EPUB's contents in memory. The `mimetype` entry is handled implicitly:
/// it is dropped on read and regenerated correctly on write.
pub struct Epub {
    pub entries: Vec<Entry>,
}

/// The (name, data) of each entry.
pub open spec fn entries_view(entries: Seq<Entry>) -> Seq<(Seq<char>, Seq<u8>)> {
    entries.map_values(|e: Entry| (e.name@, e.data@))
}

impl View for Epub {
    type V = Seq<(Seq<char>, Seq<u8>)>;

    open spec fn view(&self) -> Seq<(Seq<char>, Seq<u8>)> {
        entries_view(self.entries@)
    }
}

/// Index of the first entry named `name`.
pub open spec fn find_entry(es: Seq<(Seq<char>, Seq<u8>)>, name: Seq<char>, i: int) -> Option<int>
    decreases es.len() - i,
{
    if i < 0 || i >= es.len() {
        None
    } else if es[i].0 == name {
        Some(i)
    } else {
        find_entry(es, name, i + 1)
    }
}

/// Data of the first entry named `name`.
pub open spec fn spec_get(es: Seq<(Seq<char>, Seq<u8>)>, name: Seq<char>) -> Option<Seq<u8>> {
    match find_entry(es, name, 0) {
        Some(i) => Some(es[i].1),
        None => None,
    }
}

/// The entries with the first one named `name` given `data`, or with a new
/// entry appended when there is none.
pub open spec fn spec_set(es: Seq<(Seq<char>, Seq<u8>)>, name: Seq<char>, data: Seq<u8>) -> Seq<
    (Seq<char>, Seq<u8>),
> {
    match find_entry(es, name, 0) {
        Some(i) => es.update(i, (name, data)),
        None => es.push((name, data)),
    }
}

/// The entries for which `kept` holds, in order.
pub open spec fn keep_where(es: Seq<(Seq<char>, Seq<u8>)>, kept: Seq<bool>) -> Seq<
    (Seq<char>, Seq<u8>),
>
    decreases es.len(),
{
    if es.len() == 0 {
        Seq::empty()
    } else {
        let rest = keep_where(es.drop_last(), kept);
        if kept[es.len() - 1] {
            rest.push(es.last())
        } else {
            rest
        }
    }
}

pub proof fn lemma_find_entry(es: Seq<(Seq<char>, Seq<u8>)>, name: Seq<char>, i: int)
    requires
        0 <= i,
    ensures
        find_entry(es, name, i) matches Some(k) ==> i <= k < es.len() && es[k].0 == name && forall|
            m: int,
        | i <= m < k ==> es[m].0 != name,
        find_entry(es, name, i) is None ==> forall|m: int| i <= m < es.len() ==> es[m].0 != name,
    decreases es.len() - i,
{
    if 0 <= i < es.len() && es[i].0 != name {
        lemma_find_entry(es, name, i + 1);
    }
}

impl Default for Epub {
    /// An empty container.
    fn default() -> (e: Epub)
        ensures
            e@ == Seq::<(Seq<char>, Seq<u8>)>::empty(),
    {
        let e = Epub { entries: Vec::new() };
        assert(e@ =~= Seq::<(Seq<char>, Seq<u8>)>::empty());
        e
    }
}

impl Epub {
    fn find(&self, name: &str) -> (r: Option<usize>)
        ensures
            match r {
                Some(i) => find_entry(self@, name@, 0) == Some(i as int) && i < self.entries@.len()
                    && self.entries@[i as int].name@ == name@,
                None => find_entry(self@, name@, 0) is None,
            },
    {
        proof {
            lemma_find_entry(self@, name@, 0);
        }
        let mut i: usize = 0;
        while i < self.entries.len()
            invariant
                i <= self.entries@.len(),
                find_entry(self@, name@, 0) == find_entry(self@, name@, i as int),
            decreases self.entries@.len() - i,
        {
            assert(self@[i as int].0 == self.entries@[i as int].name@);
            if str_eq(self.entries[i].name.as_str(), name) {
                return Some(i);
            }
            i += 1;
        }
        None
    }

    /// Bytes of the entry with the given path, if present.
    pub fn get(&self, name: &str) -> (r: Option<&[u8]>)
        ensures
            match r {
                Some(d) => spec_get(self@, name@) == Some(d@),
                None => spec_get(self@, name@) is None,
            },
    {
        match self.find(name) {
            Some(i) => Some(self.entries[i].data.as_slice()),
            None => None,
        }
    }

    /// Replace (or insert) the entry at `name`.
    pub fn set(&mut self, name: &str, data: Vec<u8>)
        ensures
            final(self)@ == spec_set(old(self)@, name@, data@),
    {
        match self.find(name) {
            Some(i) => {
                let ghost old_entries = self.entries@;
                let e = Entry { name: name.to_owned(), data };
                self.entries.set(i, e);
                assert(entries_view(self.entries@) =~= entries_view(old_entries).update(
                    i as int,
                    (name@, data@),
                ));
            },
            None => {
                let ghost old_entries = self.entries@;
                let e = Entry { name: name.to_owned(), data };
                self.entries.push(e);
                assert(entries_view(self.entries@) =~= entries_view(old_entries).push(
                    (name@, data@),
                ));
            },
        }
    }

    /// Drop entries for which `keep` returns false.
    pub fn retain<F: Fn(&String) -> bool>(&mut self, keep: F)
        requires
            forall|s: &String| #[trigger] keep.requires((s,)),
        ensures
            exists|kept: Seq<bool>|
                #![trigger keep_where(old(self)@, kept)]
                kept.len() == old(self)@.len() && (forall|i: int|
                    0 <= i < kept.len() ==> keep.ensures(
                        (&old(self).entries@[i].name,),
                        #[trigger] kept[i],
                    )) && final(self)@ == keep_where(old(self)@, kept),
    {
        let ghost es = self@;
        let ghost old_entries = self.entries@;
        let mut original: Vec<Entry> = Vec::new();
        std::mem::swap(&mut original, &mut self.entries);
        let mut out: Vec<Entry> = Vec::new();
        let ghost mut kept: Seq<bool> = Seq::empty();
        for e in it: original
            invariant
                it.seq() == old_entries,
                es == entries_view(old_entries),
                forall|s: &String| #[trigger] keep.requires((s,)),
                kept.len() == it.index(),
                forall|i: int|
                    0 <= i < kept.len() ==> keep.ensures((&old_entries[i].name,), #[trigger] kept[i]),
                entries_view(out@) == keep_where(es.take(it.index()), kept),
        {
            let ghost idx = it.index();
            let b = keep(&e.name);
            let ghost old_kept = kept;
            let ghost o = out@;
            proof {
                kept = kept.push(b);
                assert(es.take(idx + 1).drop_last() =~= es.take(idx));
                assert(es.take(idx + 1).last() == (e.name@, e.data@));
                lemma_keep_where_prefix(es.take(idx), old_kept, kept);
                assert(e == old_entries[idx]);
                assert forall|i: int| 0 <= i < kept.len() implies keep.ensures(
                    (&old_entries[i].name,),
                    #[trigger] kept[i],
                ) by {
                    if i < idx {
                        assert(kept[i] == old_kept[i]);
                    }
                }
            }
            if b {
                out.push(e);
                assert(entries_view(out@) =~= entries_view(o).push((e.name@, e.data@)));
            }
            assert(keep_where(es.take(idx + 1), kept) == entries_view(out@));
        }
        assert(es.take(es.len() as int) =~= es);
        assert(keep_where(es, kept) == entries_view(out@));
        self.entries = out;
    }
}

pub proof fn lemma_keep_where_prefix(es: Seq<(Seq<char>, Seq<u8>)>, a: Seq<bool>, b: Seq<bool>)
    requires
        a.len() >= es.len(),
        b.len() >= es.len(),
        forall|i: int| 0 <= i < es.len() ==> a[i] == b[i],
    ensures
        keep_where(es, a) == keep_where(es, b),
    decreases es.len(),
{
    if es.len() > 0 {
        lemma_keep_where_prefix(es.drop_last(), a, b);
    }
}

/// Reading back an entry just set gives its new data.
pub proof fn lemma_get_after_set(es: Seq<(Seq<char>, Seq<u8>)>, name: Seq<char>, data: Seq<u8>)
    ensures
        spec_get(spec_set(es, name, data), name) == Some(data),
{
    lemma_find_entry(es, name, 0);
    let es2 = spec_set(es, name, data);
    lemma_find_entry(es2, name, 0);
    match find_entry(es, name, 0) {
        Some(i) => {
            assert(es2[i].0 == name);
        },
        None => {
            assert(es2[es.len() as int].0 == name);
        },
    }
}

/// Setting an entry leaves what every other name reads unchanged.
pub proof fn lemma_get_other_after_set(
    es: Seq<(Seq<char>, Seq<u8>)>,
    name: Seq<char>,
    data: Seq<u8>,
    other: Seq<char>,
)
    requires
        other != name,
    ensures
        spec_get(spec_set(es, name, data), other) == spec_get(es, other),
{
    lemma_find_entry(es, name, 0);
    lemma_find_entry(es, other, 0);
    let es2 = spec_set(es, name, data);
    lemma_find_entry(es2, other, 0);
    match find_entry(es, other, 0) {
        Some(k) => {
            assert(es2[k] == es[k]);
        },
        None => {},
    }
    match find_entry(es2, other, 0) {
        Some(k) => {
            assert(k < es.len());
            assert(es2[k] == es[k]);
        },
        None => {},
    }
}

/// Setting an entry that exists keeps the number of entries; setting a new
/// one adds exactly one.
pub proof fn lemma_set_len(es: Seq<(Seq<char>, Seq<u8>)>, name: Seq<char>, data: Seq<u8>)
    ensures
        spec_set(es, name, data).len() == es.len() + if spec_get(es, name) is Some {
            0int
        } else {
            1int
        },
{
    lemma_find_entry(es, name, 0);
}

/// The required `mimetype` entry contents for an EPUB/kepub container.
pub const MIMETYPE: &'static str = "application/epub+zip";

/// Name of the entry that an EPUB container starts with.
pub const MIMETYPE_NAME: &'static str = "mimetype";

#[verifier::external_type_specification]
#[verifier::external_body]
pub struct ExZipError(ZipError);

#[verifier::external_type_specification]
#[verifier::external_body]
#[verifier::reject_recursive_types(T)]
pub struct ExCursor<T>(Cursor<T>);

#[verifier::external_type_specification]
#[verifier::external_body]
#[verifier::reject_recursive_types(R)]
pub struct ExZipArchive<R>(ZipArchive<R>);

/// A zip container being written in memory. Verus does not take the zip
/// writer's type, whose parameter is bound by `Write` and `Seek`, so it is
/// held here out of Verus's sight.
#[verifier::external_body]
pub struct ContainerWriter {
    zip: ZipWriter<Cursor<Vec<u8>>>,
}

/// Why an EPUB container could not be read or written.
#[derive(Debug)]
pub enum ContainerError {
    /// The zip layer refused the bytes or the entries.
    Zip(ZipError),
}

/// Number of entries in the central directory of the zip archive `bytes`;
/// `None` when the zip crate cannot open it.
pub uninterp spec fn zip_entry_count(bytes: Seq<u8>) -> Option<nat>;

/// Name of entry `index` of the zip archive `bytes`; `None` when it cannot be had.
pub uninterp spec fn zip_entry_name(bytes: Seq<u8>, index: nat) -> Option<Seq<char>>;

/// Decompressed contents of entry `index` of the zip archive `bytes`; `None`
/// when they cannot be had.
pub uninterp spec fn zip_entry_data(bytes: Seq<u8>, index: nat) -> Option<Seq<u8>>;

/// The (name, contents) of the files that a single-file archive built in memory holds.
pub uninterp spec fn part_entries(part: ZipArchive<Cursor<Vec<u8>>>) -> Seq<(Seq<char>, Seq<u8>)>;

/// The (name, contents) of the files written so far into a container being built.
pub uninterp spec fn written_entries(w: ContainerWriter) -> Seq<(Seq<char>, Seq<u8>)>;

/// Whether the zip crate takes an entry with this name for a directory: its
/// last character is a slash or a backslash.
pub open spec fn is_dir_name(name: Seq<char>) -> bool {
    name.len() > 0 && (name.last() == '/' || name.last() == '\\')
}

/// Whether an entry found in an archive is kept in memory: directories and
/// the `mimetype` entry are not.
pub open spec fn is_kept_entry(name: Seq<char>) -> bool {
    !is_dir_name(name) && name != MIMETYPE_NAME@
}

/// The headers of the first `n` entries of the archive `bytes`, with the
/// contents of those that are kept; `None` when one cannot be had.
pub open spec fn archive_listing(bytes: Seq<u8>, n: nat) -> Option<Seq<(Seq<char>, Seq<u8>)>>
    decreases n,
{
    if n == 0 {
        Some(Seq::empty())
    } else {
        match archive_listing(bytes, (n - 1) as nat) {
            None => None,
            Some(prefix) => match zip_entry_name(bytes, (n - 1) as nat) {
                None => None,
                Some(name) => if !is_kept_entry(name) {
                    Some(prefix)
                } else {
                    match zip_entry_data(bytes, (n - 1) as nat) {
                        None => None,
                        Some(data) => Some(prefix.push((name, data))),
                    }
                },
            },
        }
    }
}

/// What reading the archive `bytes` gives: its kept entries in archive order,
/// or `None` when the archive or one of the entries read cannot be had.
pub open spec fn spec_read_epub(bytes: Seq<u8>) -> Option<Seq<(Seq<char>, Seq<u8>)>> {
    match zip_entry_count(bytes) {
        None => None,
        Some(n) => archive_listing(bytes, n),
    }
}

/// `ZipArchive::new` over the bytes, then `len`. Claimed: it fails exactly
/// when `zip_entry_count` is `None`, and otherwise returns that count.
#[verifier::external_body]
fn archive_len(bytes: &[u8]) -> (r: Result<usize, ZipError>)
    ensures
        match r {
            Ok(n) => zip_entry_count(bytes@) == Some(n as nat),
            Err(_) => zip_entry_count(bytes@) is None,
        },
{
    Ok(ZipArchive::new(Cursor::new(bytes))?.len())
}

/// `ZipArchive::new`, `by_index` and `ZipFile::name`. Claimed: the name of
/// entry `index` is `zip_entry_name` of the bytes and index, and the call
/// fails exactly when that is `None`.
#[verifier::external_body]
fn archive_entry_name(bytes: &[u8], index: usize) -> (r: Result<String, ZipError>)
    ensures
        match r {
            Ok(name) => zip_entry_name(bytes@, index as nat) == Some(name@),
            Err(_) => zip_entry_name(bytes@, index as nat) is None,
        },
{
    let mut zip = ZipArchive::new(Cursor::new(bytes))?;
    let file = zip.by_index(index)?;
    let name = file.name()?.into_owned();
    Ok(name)
}

/// `ZipArchive::new`, `by_index` and `read_to_end`. Claimed: the decompressed
/// contents of entry `index` are `zip_entry_data` of the bytes and index, and
/// the call fails exactly when that is `None`.
#[verifier::external_body]
fn archive_entry_data(bytes: &[u8], index: usize) -> (r: Result<Vec<u8>, ZipError>)
    ensures
        match r {
            Ok(data) => zip_entry_data(bytes@, index as nat) == Some(data@),
            Err(_) => zip_entry_data(bytes@, index as nat) is None,
        },
{
    let mut zip = ZipArchive::new(Cursor::new(bytes))?;
    let mut file = zip.by_index(index)?;
    let mut data = Vec::new();
    file.read_to_end(&mut data)?;
    Ok(data)
}

/// Whether the zip crate takes an entry with this name for a directory.
fn is_dir_entry_name(name: &str) -> (r: bool)
    ensures
        r == is_dir_name(name@),
{
    let chars = crate::text::chars_of(name);
    let n = chars.len();
    n > 0 && (chars[n - 1] == '/' || chars[n - 1] == '\\')
}

/// Parse an EPUB from raw zip bytes, keeping every entry but directories and
/// `mimetype`, in archive order.
pub fn read_epub(bytes: &[u8]) -> (r: Result<Epub, ContainerError>)
    ensures
        match r {
            Ok(e) => spec_read_epub(bytes@) == Some(e@),
            Err(_) => spec_read_epub(bytes@) is None,
        },
{
    let count = match archive_len(bytes) {
        Ok(n) => n,
        Err(err) => return Err(ContainerError::Zip(err)),
    };
    let mut epub = Epub { entries: Vec::new() };
    let mut i: usize = 0;
    while i < count
        invariant
            i <= count,
            zip_entry_count(bytes@) == Some(count as nat),
            archive_listing(bytes@, i as nat) == Some(epub@),
        decreases count - i,
    {
        let name = match archive_entry_name(bytes, i) {
            Ok(name) => name,
            Err(err) => {
                proof {
                    lemma_listing_fails_after(bytes@, (i + 1) as nat, count as nat);
                }
                return Err(ContainerError::Zip(err));
            },
        };
        let keep = !is_dir_entry_name(name.as_str()) && !str_eq(name.as_str(), MIMETYPE_NAME);
        if keep {
            let data = match archive_entry_data(bytes, i) {
                Ok(data) => data,
                Err(err) => {
                    proof {
                        lemma_listing_fails_after(bytes@, (i + 1) as nat, count as nat);
                    }
                    return Err(ContainerError::Zip(err));
                },
            };
            let ghost before = epub@;
            epub.entries.push(Entry { name, data });
            assert(epub@ =~= before.push((epub.entries@.last().name@, epub.entries@.last().data@)));
        }
        i += 1;
    }
    Ok(epub)
}

/// A listing that fails for a prefix fails for every longer prefix.
proof fn lemma_listing_fails_after(bytes: Seq<u8>, k: nat, n: nat)
    requires
        k <= n,
        archive_listing(bytes, k) is None,
    ensures
        archive_listing(bytes, n) is None,
    decreases n - k,
{
    if k < n {
        lemma_listing_fails_after(bytes, k + 1, n);
    }
}

/// The number of bytes a name takes in an archive: its UTF-8 encoding.
pub open spec fn name_bytes(name: Seq<char>) -> nat {
    encode_utf8(name).len()
}

/// The bytes of the names and contents of the files, all together.
pub open spec fn entries_size(es: Seq<(Seq<char>, Seq<u8>)>) -> int
    decreases es.len(),
{
    if es.len() == 0 {
        0
    } else {
        entries_size(es.drop_last()) + name_bytes(es.last().0) + es.last().1.len()
    }
}

/// Files that the zip crate writes into memory without reaching any of its
/// limits: fewer than 32767 of them, no name of 32767 bytes or more, and
/// less than 1 GiB of names and contents together. Every header offset and
/// size then fits the 32-bit fields of a zip archive.
pub open spec fn within_zip_limits(es: Seq<(Seq<char>, Seq<u8>)>) -> bool {
    &&& es.len() < 0x7fff
    &&& entries_size(es) < 0x4000_0000
    &&& forall|i: int| 0 <= i < es.len() ==> name_bytes(#[trigger] es[i].0) < 0x7fff
}

/// No two files have the same name.
pub open spec fn names_distinct(es: Seq<(Seq<char>, Seq<u8>)>) -> bool {
    forall|i: int, j: int| 0 <= i < j < es.len() ==> #[trigger] es[i].0 != #[trigger] es[j].0
}

/// Whether entry `index` of the zip archive `bytes` is stored without compression.
pub uninterp spec fn zip_entry_stored(bytes: Seq<u8>, index: nat) -> bool;

/// Whether the first file written into a container being built is stored
/// without compression.
pub uninterp spec fn first_file_stored(w: ContainerWriter) -> bool;

/// Compress a single entry into a standalone in-memory archive
/// (`ZipWriter::start_file` with deflate, `write_all`, `finish_into_readable`).
/// Claimed: when it succeeds, the archive holds exactly that one file, with
/// the entry's name and contents; and it succeeds when the file is within
/// the zip limits, since writing into memory does no I/O that can fail.
#[verifier::external_body]
fn compress_entry(entry: &Entry) -> (r: Result<ZipArchive<Cursor<Vec<u8>>>, ZipError>)
    ensures
        r matches Ok(part) ==> part_entries(part) == seq![(entry.name@, entry.data@)],
        within_zip_limits(seq![(entry.name@, entry.data@)]) ==> r is Ok,
{
    let mut zip = ZipWriter::new(Cursor::new(Vec::new()));
    let deflated = SimpleFileOptions::default().compression_method(CompressionMethod::Deflated);
    zip.start_file(entry.name.as_str(), deflated)?;
    zip.write_all(&entry.data)?;
    zip.finish_into_readable()
}

/// A new container whose first file is `mimetype`, stored uncompressed with
/// the given contents (`ZipWriter::new`, `start_file`, `write_all`). Claimed:
/// when it succeeds, that file is all it holds and it is stored without
/// compression; and it succeeds when the file is within the zip limits.
#[verifier::external_body]
fn container_with_mimetype(contents: &[u8]) -> (r: Result<ContainerWriter, ZipError>)
    ensures
        r matches Ok(w) ==> written_entries(w) == seq![(MIMETYPE_NAME@, contents@)]
            && first_file_stored(w),
        within_zip_limits(seq![(MIMETYPE_NAME@, contents@)]) ==> r is Ok,
{
    let mut zip = ZipWriter::new(Cursor::new(Vec::new()));
    let stored = SimpleFileOptions::default().compression_method(CompressionMethod::Stored);
    zip.start_file(MIMETYPE_NAME, stored)?;
    zip.write_all(contents)?;
    Ok(ContainerWriter { zip })
}

/// `ZipWriter::merge_archive`. Claimed: when it succeeds, the files of `part`
/// follow those already written, in their order, and the first file keeps
/// its compression. It refuses a name that is already there; when all names
/// differ and the files stay within the zip limits it succeeds. What the
/// container holds after a failure is not stated.
#[verifier::external_body]
fn merge_part(w: &mut ContainerWriter, part: ZipArchive<Cursor<Vec<u8>>>) -> (r: Result<(), ZipError>)
    ensures
        r is Ok ==> written_entries(*final(w)) == written_entries(*old(w)) + part_entries(part)
            && first_file_stored(*final(w)) == first_file_stored(*old(w)),
        within_zip_limits(written_entries(*old(w)) + part_entries(part)) && names_distinct(
            written_entries(*old(w)) + part_entries(part),
        ) ==> r is Ok,
{
    w.zip.merge_archive(part)
}

/// `ZipWriter::finish`, then the bytes of the finished archive. Claimed: when
/// it succeeds, reading the bytes back with the zip crate gives the files
/// written, in the order written, each with its name and contents, and the
/// first file's compression is kept; it succeeds when the files are within
/// the zip limits.
#[verifier::external_body]
fn finish_container(w: ContainerWriter) -> (r: Result<Vec<u8>, ZipError>)
    ensures
        r matches Ok(bytes) ==> {
            &&& zip_entry_count(bytes@) == Some(written_entries(w).len())
            &&& forall|i: int|
                0 <= i < written_entries(w).len() ==> {
                    &&& #[trigger] zip_entry_name(bytes@, i as nat) == Some(written_entries(w)[i].0)
                    &&& zip_entry_data(bytes@, i as nat) == Some(written_entries(w)[i].1)
                }
            &&& first_file_stored(w) && written_entries(w).len() > 0 ==> zip_entry_stored(bytes@, 0)
        },
        within_zip_limits(written_entries(w)) ==> r is Ok,
{
    Ok(w.zip.finish()?.into_inner())
}

/// The sizes of a prefix add up to no more than the sizes of the whole.
proof fn lemma_entries_size_prefix(es: Seq<(Seq<char>, Seq<u8>)>, k: int)
    requires
        0 <= k <= es.len(),
    ensures
        0 <= entries_size(es.take(k)) <= entries_size(es),
    decreases es.len(),
{
    if k < es.len() {
        assert(es.drop_last().take(k) =~= es.take(k));
        lemma_entries_size_prefix(es.drop_last(), k);
    } else {
        assert(es.take(k) =~= es);
        lemma_entries_size_nonneg(es);
    }
}

proof fn lemma_entries_size_nonneg(es: Seq<(Seq<char>, Seq<u8>)>)
    ensures
        entries_size(es) >= 0,
    decreases es.len(),
{
    if es.len() > 0 {
        lemma_entries_size_nonneg(es.drop_last());
    }
}

/// A prefix of files within the limits and with distinct names is so too.
proof fn lemma_prefix_fits(es: Seq<(Seq<char>, Seq<u8>)>, k: int)
    requires
        0 <= k <= es.len(),
        within_zip_limits(es),
        names_distinct(es),
    ensures
        within_zip_limits(es.take(k)),
        names_distinct(es.take(k)),
{
    lemma_entries_size_prefix(es, k);
    let p = es.take(k);
    assert forall|i: int| 0 <= i < p.len() implies name_bytes(#[trigger] p[i].0) < 0x7fff by {
        assert(p[i] == es[i]);
    }
    assert forall|i: int, j: int| 0 <= i < j < p.len() implies #[trigger] p[i].0 != #[trigger] p[j].0 by {
        assert(p[i] == es[i] && p[j] == es[j]);
    }
}

/// One file of files within the limits is within them on its own.
proof fn lemma_single_fits(es: Seq<(Seq<char>, Seq<u8>)>, i: int)
    requires
        0 <= i < es.len(),
        within_zip_limits(es),
    ensures
        within_zip_limits(seq![es[i]]),
{
    let one = seq![es[i]];
    assert(one.drop_last() =~= Seq::<(Seq<char>, Seq<u8>)>::empty());
    assert(entries_size(Seq::<(Seq<char>, Seq<u8>)>::empty()) == 0);
    assert(entries_size(one) == name_bytes(es[i].0) + es[i].1.len());
    lemma_entries_size_prefix(es, i + 1);
    let p = es.take(i + 1);
    assert(p.drop_last() =~= es.take(i));
    assert(p.last() == es[i]);
    lemma_entries_size_nonneg(es.take(i));
    assert(name_bytes(es[i].0) < 0x7fff);
}

/// The (name, contents) of the files of the archive that `write_epub` makes of
/// the entries `es`: `mimetype` first, then the entries in order.
pub open spec fn container_files(es: Seq<(Seq<char>, Seq<u8>)>) -> Seq<(Seq<char>, Seq<u8>)> {
    seq![(MIMETYPE_NAME@, MIMETYPE.spec_bytes())] + es
}

/// Whether reading the archive `bytes` gives back exactly the files of
/// `container_files(es)`, in order.
pub open spec fn holds_container(bytes: Seq<u8>, es: Seq<(Seq<char>, Seq<u8>)>) -> bool {
    let files = container_files(es);
    &&& zip_entry_count(bytes) == Some(files.len())
    &&& forall|i: int|
        0 <= i < files.len() ==> {
            &&& #[trigger] zip_entry_name(bytes, i as nat) == Some(files[i].0)
            &&& zip_entry_data(bytes, i as nat) == Some(files[i].1)
        }
}

/// Serialize an EPUB to zip bytes, writing `mimetype` first and uncompressed
/// as the EPUB specification requires. Every entry is compressed into an
/// archive of its own, which is then copied without recompression into the
/// container.
pub fn write_epub(epub: &Epub) -> (r: Result<Vec<u8>, ContainerError>)
    ensures
        r matches Ok(bytes) ==> holds_container(bytes@, epub@) && zip_entry_stored(bytes@, 0),
        within_zip_limits(container_files(epub@)) && names_distinct(container_files(epub@))
            ==> r is Ok,
{
    let ghost files = container_files(epub@);
    let ghost fits = within_zip_limits(files) && names_distinct(files);
    let mut parts: Vec<ZipArchive<Cursor<Vec<u8>>>> = Vec::new();
    let mut i: usize = 0;
    while i < epub.entries.len()
        invariant
            i <= epub.entries@.len(),
            parts@.len() == i,
            forall|j: int| 0 <= j < i ==> part_entries(#[trigger] parts@[j]) == seq![epub@[j]],
            files == container_files(epub@),
            fits == (within_zip_limits(files) && names_distinct(files)),
        decreases epub.entries@.len() - i,
    {
        let entry = &epub.entries[i];
        match compress_entry(entry) {
            Ok(part) => parts.push(part),
            Err(err) => {
                proof {
                    if fits {
                        assert(files[i + 1] == (entry.name@, entry.data@));
                        lemma_single_fits(files, i + 1);
                    }
                }
                return Err(ContainerError::Zip(err));
            },
        }
        i += 1;
    }
    let mimetype = MIMETYPE.as_bytes();
    let mut zip = match container_with_mimetype(mimetype) {
        Ok(w) => w,
        Err(err) => {
            proof {
                if fits {
                    lemma_single_fits(files, 0);
                }
            }
            return Err(ContainerError::Zip(err));
        },
    };
    let ghost all_parts = parts@;
    for part in it: parts
        invariant
            it.seq() == all_parts,
            all_parts.len() == epub@.len(),
            forall|j: int| 0 <= j < all_parts.len() ==> part_entries(#[trigger] all_parts[j]) == seq![epub@[j]],
            files == container_files(epub@),
            fits == (within_zip_limits(files) && names_distinct(files)),
            written_entries(zip) == files.take(it.index() + 1),
            first_file_stored(zip),
    {
        let ghost k = it.index();
        let ghost before = written_entries(zip);
        assert(before + part_entries(part) =~= files.take(k + 2));
        match merge_part(&mut zip, part) {
            Ok(()) => {},
            Err(err) => {
                proof {
                    if fits {
                        lemma_prefix_fits(files, k + 2);
                    }
                }
                return Err(ContainerError::Zip(err));
            },
        }
        assert(written_entries(zip) =~= files.take(k + 2));
    }
    assert(written_entries(zip) =~= files);
    match finish_container(zip) {
        Ok(bytes) => Ok(bytes),
        Err(err) => Err(ContainerError::Zip(err)),
    }
}

/// Reading back a container that `write_epub` made gives the entries it was
/// made from, provided none of them is a directory or named `mimetype` (those
/// are never read).
pub proof fn lemma_read_after_write(bytes: Seq<u8>, es: Seq<(Seq<char>, Seq<u8>)>)
    requires
        holds_container(bytes, es),
        forall|k: int| 0 <= k < es.len() ==> is_kept_entry(#[trigger] es[k].0),
    ensures
        spec_read_epub(bytes) == Some(es),
{
    lemma_listing_prefix(bytes, es, es.len());
    assert(es.take(es.len() as int) =~= es);
}

/// The first `k + 1` files of a container written from `es` list as the
/// first `k` entries of `es`.
proof fn lemma_listing_prefix(bytes: Seq<u8>, es: Seq<(Seq<char>, Seq<u8>)>, k: nat)
    requires
        holds_container(bytes, es),
        forall|m: int| 0 <= m < es.len() ==> is_kept_entry(#[trigger] es[m].0),
        k <= es.len(),
    ensures
        archive_listing(bytes, k + 1) == Some(es.take(k as int)),
    decreases k,
{
    let files = container_files(es);
    if k == 0 {
        assert(zip_entry_name(bytes, 0) == Some(files[0].0));
        assert(!is_kept_entry(files[0].0));
        assert(archive_listing(bytes, 0) == Some(Seq::<(Seq<char>, Seq<u8>)>::empty()));
        assert(es.take(0) =~= Seq::<(Seq<char>, Seq<u8>)>::empty());
    } else {
        lemma_listing_prefix(bytes, es, (k - 1) as nat);
        let j: int = k as int;
        assert(files[j] == es[j - 1]);
        assert(zip_entry_name(bytes, k) == Some(files[j].0));
        assert(zip_entry_data(bytes, k) == Some(files[j].1));
        assert(is_kept_entry(es[j - 1].0));
        assert(archive_listing(bytes, k) == Some(es.take(j - 1)));
        assert(es.take(j) =~= es.take(j - 1).push(es[j - 1]));
    }
}

/// A container written from `es` starts with a file named `mimetype` that
/// holds `application/epub+zip`, followed by the entries in their order.
pub proof fn lemma_container_starts_with_mimetype(bytes: Seq<u8>, es: Seq<(Seq<char>, Seq<u8>)>)
    requires
        holds_container(bytes, es),
    ensures
        zip_entry_count(bytes) == Some(es.len() + 1),
        zip_entry_name(bytes, 0) == Some("mimetype"@),
        zip_entry_data(bytes, 0) == Some(encode_utf8("application/epub+zip"@)),
        forall|k: int|
            0 <= k < es.len() ==> #[trigger] zip_entry_name(bytes, (k + 1) as nat) == Some(es[k].0)
                && zip_entry_data(bytes, (k + 1) as nat) == Some(es[k].1),
{
    reveal_strlit("mimetype");
    reveal_strlit("application/epub+zip");
    assert(MIMETYPE_NAME@ == "mimetype"@);
    assert(MIMETYPE@ == "application/epub+zip"@);
    let files = container_files(es);
    let z: int = 0;
    assert(zip_entry_name(bytes, z as nat) == Some(files[z].0));
    assert(zip_entry_data(bytes, z as nat) == Some(files[z].1));
    assert forall|k: int| 0 <= k < es.len() implies #[trigger] zip_entry_name(bytes, (k + 1) as nat)
        == Some(es[k].0) && zip_entry_data(bytes, (k + 1) as nat) == Some(es[k].1) by {
        assert(files[k + 1] == es[k]);
        assert(zip_entry_name(bytes, (k + 1) as nat) == Some(files[k + 1].0));
    }
}

proof fn lemma_listing_kept(bytes: Seq<u8>, n: nat)
    ensures
        archive_listing(bytes, n) matches Some(es) ==> forall|k: int|
            0 <= k < es.len() ==> is_kept_entry(#[trigger] es[k].0),
    decreases n,
{
    if n > 0 {
        lemma_listing_kept(bytes, (n - 1) as nat);
        match archive_listing(bytes, (n - 1) as nat) {
            Some(prefix) => {
                if let Some(es) = archive_listing(bytes, n) {
                    assert forall|k: int| 0 <= k < es.len() implies is_kept_entry(#[trigger] es[k].0) by {
                        if k < prefix.len() {
                            assert(es[k] == prefix[k]);
                        }
                    }
                }
            },
            None => {},
        }
    }
}

/// Reading an EPUB keeps no directory (a name ending in `/` or `\`) and no
/// `mimetype` entry.
pub proof fn lemma_read_skips_directories_and_mimetype(bytes: Seq<u8>)
    ensures
        spec_read_epub(bytes) matches Some(es) ==> forall|k: int|
            0 <= k < es.len() ==> (#[trigger] es[k].0) != "mimetype"@ && !(es[k].0.len() > 0 && (
            es[k].0.last() == '/' || es[k].0.last() == '\\')),
{
    reveal_strlit("mimetype");
    assert(MIMETYPE_NAME@ == "mimetype"@);
    if let Some(n) = zip_entry_count(bytes) {
        lemma_listing_kept(bytes, n);
    }
}

} // verus!
