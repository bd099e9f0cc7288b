//! The OPF package document: manifest paths and the cover image.
use vstd::prelude::*;

use quick_xml::events::BytesStart;

use crate::parse::{lossy_utf8_from, utf8_lossy};
use crate::paths::{eq_ascii_ci, eq_ignore_ascii_case};
use crate::text::{chars_of, split_whitespace, str_eq, string_of, ws_tokens};
use crate::xml::{
    attr_value, attrs_view, is_final_event, is_terminated, new_tag, next_event, opt_string_view,
    pending_events, push_raw_attribute, push_text_attribute, raw_attr_bytes, spec_attr_value,
    tag_attributes, tag_bytes, tag_content, tag_local_name, tag_name, text_attr_bytes, write_tag,
    xml_attributes, xml_events, xml_local_name, xml_reader, xml_tag_name, XmlAttr, XmlAttrV,
    XmlEvent, XmlEventV,
};
use vstd::utf8::encode_utf8;

verus! {

/// The value of an ASCII hexadecimal digit.
pub open spec fn hex_value(b: u8) -> Option<u8> {
    if 48 <= b <= 57 {
        Some((b - 48) as u8)
    } else if 97 <= b <= 102 {
        Some((b - 87) as u8)
    } else if 65 <= b <= 70 {
        Some((b - 55) as u8)
    } else {
        None
    }
}

/// `bytes[i..]` with each `%XX` escape replaced by the byte it encodes.
pub open spec fn percent_decoded_from(bytes: Seq<u8>, i: int) -> Seq<u8>
    decreases bytes.len() - i,
{
    if i < 0 || i >= bytes.len() {
        Seq::empty()
    } else if bytes[i] == 37 && i + 2 < bytes.len() && hex_value(bytes[i + 1]) is Some && hex_value(
        bytes[i + 2],
    ) is Some {
        seq![(hex_value(bytes[i + 1])->0 * 16 + hex_value(bytes[i + 2])->0) as u8]
            + percent_decoded_from(bytes, i + 3)
    } else {
        seq![bytes[i]] + percent_decoded_from(bytes, i + 1)
    }
}

/// The text of a manifest href with its `%XX` escapes decoded.
pub open spec fn spec_percent_decode(s: Seq<char>) -> Seq<char> {
    utf8_lossy(percent_decoded_from(vstd::utf8::encode_utf8(s), 0))
}

fn hex_digit(b: u8) -> (r: Option<u8>)
    ensures
        r == hex_value(b),
{
    if 48 <= b && b <= 57 {
        Some(b - 48)
    } else if 97 <= b && b <= 102 {
        Some(b - 87)
    } else if 65 <= b && b <= 70 {
        Some(b - 55)
    } else {
        None
    }
}

/// Decode `%XX` escapes in a manifest href.
pub fn percent_decode(s: &str) -> (r: String)
    ensures
        r@ == spec_percent_decode(s@),
        vstd::utf8::valid_utf8(percent_decoded_from(vstd::utf8::encode_utf8(s@), 0)) ==> r@
            == vstd::utf8::decode_utf8(percent_decoded_from(vstd::utf8::encode_utf8(s@), 0)),
{
    let bytes = s.as_bytes();
    let ghost b = bytes@;
    let mut out: Vec<u8> = Vec::new();
    let mut i: usize = 0;
    while i < bytes.len()
        invariant
            b == bytes@,
            i <= b.len(),
            out@ + percent_decoded_from(b, i as int) == percent_decoded_from(b, 0),
        decreases b.len() - i,
    {
        if bytes[i] == 37 && bytes.len() - i > 2 {
            let hi = hex_digit(bytes[i + 1]);
            let lo = hex_digit(bytes[i + 2]);
            match (hi, lo) {
                (Some(h), Some(l)) => {
                    let v: u8 = h * 16 + l;
                    let ghost o = out@;
                    out.push(v);
                    assert(o + percent_decoded_from(b, i as int) =~= out@ + percent_decoded_from(
                        b,
                        i + 3,
                    ));
                    i += 3;
                    continue;
                },
                _ => {},
            }
        }
        let ghost o = out@;
        out.push(bytes[i]);
        assert(o + percent_decoded_from(b, i as int) =~= out@ + percent_decoded_from(b, i + 1));
        i += 1;
    }
    assert(out@ =~= out@ + percent_decoded_from(b, i as int));
    assert(out@.skip(0) =~= out@);
    lossy_utf8_from(out.as_slice(), 0)
}

/// The ASCII hexadecimal digit for `d < 16`: `0`-`9`, then `A`-`F` when
/// `upper`, else `a`-`f`.
pub open spec fn hex_digit_byte(d: int, upper: bool) -> u8 {
    if d < 10 {
        (48 + d) as u8
    } else if upper {
        (55 + d) as u8
    } else {
        (87 + d) as u8
    }
}

/// Every byte written as `%` and its two hexadecimal digits.
pub open spec fn percent_encoded(b: Seq<u8>, upper: bool) -> Seq<u8> {
    Seq::new(
        3 * b.len(),
        |k: int|
            if k % 3 == 0 {
                37u8
            } else if k % 3 == 1 {
                hex_digit_byte(b[k / 3] as int / 16, upper)
            } else {
                hex_digit_byte(b[k / 3] as int % 16, upper)
            },
    )
}

proof fn lemma_decode_encoded_from(b: Seq<u8>, upper: bool, i: int)
    requires
        0 <= i <= b.len(),
    ensures
        percent_decoded_from(percent_encoded(b, upper), 3 * i) == b.skip(i),
    decreases b.len() - i,
{
    let e = percent_encoded(b, upper);
    if i < b.len() {
        lemma_decode_encoded_from(b, upper, i + 1);
        assert((3 * i) % 3 == 0 && (3 * i) / 3 == i);
        assert((3 * i + 1) % 3 == 1 && (3 * i + 1) / 3 == i);
        assert((3 * i + 2) % 3 == 2 && (3 * i + 2) / 3 == i);
        assert(e[3 * i] == 37);
        let hi = b[i] / 16;
        let lo = b[i] % 16;
        assert(e[3 * i + 1] == hex_digit_byte(hi as int, upper));
        assert(e[3 * i + 2] == hex_digit_byte(lo as int, upper));
        assert(hex_value(hex_digit_byte(hi as int, upper)) == Some(hi as u8));
        assert(hex_value(hex_digit_byte(lo as int, upper)) == Some(lo as u8));
        assert(3 * i + 3 == 3 * (i + 1));
        assert(b.skip(i) =~= seq![b[i]] + b.skip(i + 1));
    } else {
        assert(b.skip(i) =~= Seq::<u8>::empty());
    }
}

proof fn lemma_decode_plain_from(b: Seq<u8>, i: int)
    requires
        0 <= i <= b.len(),
        forall|k: int| 0 <= k < b.len() ==> b[k] != 37,
    ensures
        percent_decoded_from(b, i) == b.skip(i),
    decreases b.len() - i,
{
    if i < b.len() {
        lemma_decode_plain_from(b, i + 1);
        assert(b.skip(i) =~= seq![b[i]] + b.skip(i + 1));
    } else {
        assert(b.skip(i) =~= Seq::<u8>::empty());
    }
}

/// Decoding undoes `%XX` escaping, with upper- or lower-case digits, and
/// leaves bytes without any `%` as they are.
pub proof fn lemma_percent_decoding(b: Seq<u8>, upper: bool)
    ensures
        percent_decoded_from(percent_encoded(b, upper), 0) == b,
        (forall|k: int| 0 <= k < b.len() ==> b[k] != 37) ==> percent_decoded_from(b, 0) == b,
{
    lemma_decode_encoded_from(b, upper, 0);
    assert(b.skip(0) =~= b);
    if forall|k: int| 0 <= k < b.len() ==> b[k] != 37 {
        lemma_decode_plain_from(b, 0);
    }
}

/// Index of the first `#` or `?` in `s`, or its length.
pub open spec fn query_start(s: Seq<char>, i: int) -> int
    decreases s.len() - i,
{
    if i < 0 || i >= s.len() {
        s.len() as int
    } else if s[i] == '#' || s[i] == '?' {
        i
    } else {
        query_start(s, i + 1)
    }
}

/// The pieces of `s` between `sep` characters (`k` separators give `k + 1`
/// pieces), as `str::split` yields them.
pub open spec fn split_on(s: Seq<char>, sep: char) -> Seq<Seq<char>>
    decreases s.len(),
{
    if s.len() == 0 {
        seq![Seq::empty()]
    } else {
        let r = split_on(s.drop_last(), sep);
        if s.last() == sep {
            r.push(Seq::empty())
        } else {
            r.drop_last().push(r.last().push(s.last()))
        }
    }
}

/// Index of the last `/` in `s`, if any.
pub open spec fn last_slash(s: Seq<char>) -> Option<int>
    decreases s.len(),
{
    if s.len() == 0 {
        None
    } else if s.last() == '/' {
        Some(s.len() - 1)
    } else {
        last_slash(s.drop_last())
    }
}

/// The non-empty directory components of the OPF's directory.
pub open spec fn push_nonempty(segs: Seq<Seq<char>>, parts: Seq<Seq<char>>) -> Seq<Seq<char>>
    decreases parts.len(),
{
    if parts.len() == 0 {
        segs
    } else {
        let r = push_nonempty(segs, parts.drop_last());
        if parts.last().len() > 0 {
            r.push(parts.last())
        } else {
            r
        }
    }
}

/// Path components after following the parts of a relative href: empty and
/// `.` parts stay, `..` drops the last component (if any), others are appended.
pub open spec fn follow_parts(segs: Seq<Seq<char>>, parts: Seq<Seq<char>>) -> Seq<Seq<char>>
    decreases parts.len(),
{
    if parts.len() == 0 {
        segs
    } else {
        let r = follow_parts(segs, parts.drop_last());
        let p = parts.last();
        if p.len() == 0 || p == seq!['.'] {
            r
        } else if p == seq!['.', '.'] {
            if r.len() > 0 {
                r.drop_last()
            } else {
                r
            }
        } else {
            r.push(p)
        }
    }
}

/// The components joined with `/`.
pub open spec fn join_slash(segs: Seq<Seq<char>>) -> Seq<char>
    decreases segs.len(),
{
    if segs.len() == 0 {
        Seq::empty()
    } else if segs.len() == 1 {
        segs[0]
    } else {
        join_slash(segs.drop_last()) + seq!['/'] + segs.last()
    }
}

/// The zip path that a manifest href names, relative to the OPF's directory.
pub open spec fn spec_resolve_href(opf_path: Seq<char>, href: Seq<char>) -> Seq<char> {
    resolve_decoded(opf_path, spec_percent_decode(href_path(href)))
}

/// The href up to its fragment or query.
pub open spec fn href_path(href: Seq<char>) -> Seq<char> {
    href.take(query_start(href, 0))
}

/// The zip path that an already decoded relative path names, relative to the
/// OPF's directory.
pub open spec fn resolve_decoded(opf_path: Seq<char>, decoded: Seq<char>) -> Seq<char> {
    let dir_segs = match last_slash(opf_path) {
        Some(k) => push_nonempty(Seq::empty(), split_on(opf_path.take(k), '/')),
        None => Seq::empty(),
    };
    join_slash(follow_parts(dir_segs, split_on(decoded, '/')))
}

proof fn lemma_split_on_nonempty(s: Seq<char>, sep: char)
    ensures
        split_on(s, sep).len() > 0,
    decreases s.len(),
{
    if s.len() > 0 {
        lemma_split_on_nonempty(s.drop_last(), sep);
    }
}

/// The pieces of `s` between `sep` characters.
pub(crate) fn split_chars(s: &Vec<char>, sep: char) -> (parts: Vec<Vec<char>>)
    ensures
        parts@.map_values(|p: Vec<char>| p@) == split_on(s@, sep),
{
    let mut done: Vec<Vec<char>> = Vec::new();
    let mut cur: Vec<char> = Vec::new();
    let mut i: usize = 0;
    while i < s.len()
        invariant
            i <= s@.len(),
            split_on(s@.take(i as int), sep) == done@.map_values(|p: Vec<char>| p@).push(cur@),
        decreases s@.len() - i,
    {
        let c = s[i];
        proof {
            assert(s@.take(i + 1).drop_last() =~= s@.take(i as int));
            assert(s@.take(i + 1).last() == c);
            lemma_split_on_nonempty(s@.take(i as int), sep);
        }
        if c == sep {
            let finished = cur;
            let ghost d = done@;
            done.push(finished);
            cur = Vec::new();
            assert(done@.map_values(|p: Vec<char>| p@) =~= d.map_values(|p: Vec<char>| p@).push(
                finished@,
            ));
            assert(split_on(s@.take(i + 1), sep) =~= done@.map_values(|p: Vec<char>| p@).push(
                cur@,
            ));
        } else {
            let ghost old_cur = cur@;
            cur.push(c);
            assert(split_on(s@.take(i as int), sep).drop_last() =~= done@.map_values(
                |p: Vec<char>| p@,
            ));
            assert(split_on(s@.take(i + 1), sep) =~= done@.map_values(|p: Vec<char>| p@).push(
                cur@,
            ));
        }
        i += 1;
    }
    assert(s@.take(s@.len() as int) =~= s@);
    let ghost d = done@;
    done.push(cur);
    assert(done@.map_values(|p: Vec<char>| p@) =~= d.map_values(|p: Vec<char>| p@).push(cur@));
    done
}

/// A path component: not empty, without `/`, and neither `.` nor `..`.
pub open spec fn is_name(x: Seq<char>) -> bool {
    &&& x.len() > 0
    &&& forall|i: int| 0 <= i < x.len() ==> x[i] != '/'
    &&& x != seq!['.']
    &&& x != seq!['.', '.']
}

/// The characters of `a`, a slash, and the characters of `b`.
pub open spec fn slash(a: Seq<char>, b: Seq<char>) -> Seq<char> {
    a + seq!['/'] + b
}

/// A text without `/` splits into itself alone.
pub proof fn lemma_split_plain(x: Seq<char>)
    requires
        forall|i: int| 0 <= i < x.len() ==> x[i] != '/',
    ensures
        split_on(x, '/') == seq![x],
    decreases x.len(),
{
    if x.len() > 0 {
        lemma_split_plain(x.drop_last());
        assert(x.drop_last().push(x.last()) =~= x);
        assert(seq![x.drop_last()].drop_last().push(x.drop_last().push(x.last())) =~= seq![x]);
    } else {
        assert(x =~= Seq::<char>::empty());
    }
}

/// Splitting at a `/` splits the two sides on their own.
pub proof fn lemma_split_slash(a: Seq<char>, t: Seq<char>)
    ensures
        split_on(slash(a, t), '/') == split_on(a, '/') + split_on(t, '/'),
    decreases t.len(),
{
    lemma_split_on_nonempty(a, '/');
    if t.len() == 0 {
        assert(slash(a, t).drop_last() =~= a);
        assert(split_on(a, '/').push(Seq::empty()) =~= split_on(a, '/') + seq![Seq::<char>::empty()]);
    } else {
        lemma_split_slash(a, t.drop_last());
        lemma_split_on_nonempty(t.drop_last(), '/');
        assert(slash(a, t).drop_last() =~= slash(a, t.drop_last()));
        assert(slash(a, t).last() == t.last());
        let l = split_on(a, '/');
        let r = split_on(t.drop_last(), '/');
        if t.last() == '/' {
            assert((l + r).push(Seq::empty()) =~= l + r.push(Seq::empty()));
        } else {
            assert((l + r).drop_last() =~= l + r.drop_last());
            assert((l + r).last() == r.last());
            assert((l + r).drop_last().push((l + r).last().push(t.last())) =~= l + r.drop_last().push(
                r.last().push(t.last()),
            ));
        }
    }
}

proof fn lemma_last_slash_at(a: Seq<char>, f: Seq<char>)
    requires
        forall|i: int| 0 <= i < f.len() ==> f[i] != '/',
    ensures
        last_slash(slash(a, f)) == Some(a.len() as int),
        slash(a, f).take(a.len() as int) == a,
    decreases f.len(),
{
    assert(slash(a, f).take(a.len() as int) =~= a);
    if f.len() > 0 {
        lemma_last_slash_at(a, f.drop_last());
        assert(slash(a, f).drop_last() =~= slash(a, f.drop_last()));
        assert(slash(a, f).last() == f.last());
    } else {
        assert(slash(a, f).last() == '/');
    }
}

proof fn lemma_last_slash_none(f: Seq<char>)
    requires
        forall|i: int| 0 <= i < f.len() ==> f[i] != '/',
    ensures
        last_slash(f) is None,
    decreases f.len(),
{
    if f.len() > 0 {
        lemma_last_slash_none(f.drop_last());
    }
}

/// Paths in the manifest are resolved against the OPF's directory: a name
/// lands beside the OPF, a path with a directory below it, `./` names the
/// OPF's own directory, and `../` its parent (at the top there is none, and
/// it is dropped). Empty components of the OPF's directory are skipped.
pub proof fn lemma_resolve_relative(a: Seq<char>, b: Seq<char>, f: Seq<char>, x: Seq<char>, y: Seq<char>)
    requires
        is_name(a),
        is_name(b),
        is_name(f),
        is_name(x),
        is_name(y),
    ensures
        resolve_decoded(f, x) == x,
        resolve_decoded(slash(a, f), x) == slash(a, x),
        resolve_decoded(slash(a, f), slash(x, y)) == slash(a, slash(x, y)),
        resolve_decoded(slash(a, f), slash(seq!['.'], x)) == slash(a, x),
        resolve_decoded(slash(slash(a, b), f), slash(seq!['.', '.'], x)) == slash(a, x),
        resolve_decoded(f, slash(seq!['.', '.'], x)) == x,
        resolve_decoded(slash(Seq::empty(), slash(a, f)), x) == slash(a, x),
{
    let e: Seq<char> = Seq::empty();
    let dot = seq!['.'];
    let dots = seq!['.', '.'];
    assert forall|i: int| 0 <= i < dot.len() implies dot[i] != '/' by {}
    assert forall|i: int| 0 <= i < dots.len() implies dots[i] != '/' by {}
    lemma_split_plain(a);
    lemma_split_plain(b);
    lemma_split_plain(x);
    lemma_split_plain(y);
    lemma_split_plain(dot);
    lemma_split_plain(dots);
    lemma_split_plain(e);
    lemma_last_slash_none(f);
    lemma_last_slash_at(a, f);
    lemma_split_slash(x, y);
    lemma_split_slash(dot, x);
    lemma_split_slash(dots, x);
    lemma_split_slash(a, b);
    lemma_split_slash(e, a);
    lemma_last_slash_at(slash(a, b), f);
    lemma_last_slash_at(slash(e, a), f);
    assert(slash(e, slash(a, f)) =~= slash(slash(e, a), f));
    let none: Seq<Seq<char>> = Seq::empty();
    assert(push_nonempty(none, none) == none);
    assert(follow_parts(none, none) == none);
    assert(follow_parts(seq![a], none) == seq![a]);
    assert(follow_parts(seq![a, b], none) == seq![a, b]);
    assert(seq![a].last() == a && seq![x].last() == x && seq![e].last() == e && seq![dot].last() == dot);
    assert(seq![dots].last() == dots && seq![a, b].last() == b && seq![e, a].last() == a);
    assert(seq![x, y].last() == y && seq![dot, x].last() == x && seq![dots, x].last() == x);
    // the OPF's directory
    let pa = push_nonempty(Seq::empty(), seq![a]);
    assert(seq![a].drop_last() =~= Seq::<Seq<char>>::empty());
    assert(pa =~= seq![a]);
    assert(seq![a] + seq![b] =~= seq![a, b]);
    assert(seq![a, b].drop_last() =~= seq![a]);
    assert(push_nonempty(Seq::empty(), seq![a, b]) =~= seq![a, b]);
    assert(seq![e] + seq![a] =~= seq![e, a]);
    assert(seq![e, a].drop_last() =~= seq![e]);
    assert(seq![e].drop_last() =~= Seq::<Seq<char>>::empty());
    assert(push_nonempty(Seq::empty(), seq![e]) =~= Seq::<Seq<char>>::empty());
    assert(push_nonempty(Seq::empty(), seq![e, a]) =~= seq![a]);
    // following the href's parts
    assert(seq![x].drop_last() =~= none);
    assert(follow_parts(none, seq![x]) =~= seq![x]);
    assert(follow_parts(seq![a], seq![x]) =~= seq![a, x]);
    assert(seq![x] + seq![y] =~= seq![x, y]);
    assert(seq![x, y].drop_last() =~= seq![x]);
    assert(follow_parts(seq![a], seq![x, y]) =~= seq![a, x, y]);
    assert(seq![dot] + seq![x] =~= seq![dot, x]);
    assert(seq![dot, x].drop_last() =~= seq![dot]);
    assert(seq![dot].drop_last() =~= none);
    assert(follow_parts(seq![a], seq![dot]) == seq![a]);
    assert(follow_parts(seq![a], seq![dot, x]) =~= seq![a, x]);
    assert(seq![dots] + seq![x] =~= seq![dots, x]);
    assert(seq![dots, x].drop_last() =~= seq![dots]);
    assert(seq![dots].drop_last() =~= none);
    assert(seq![a, b].drop_last() =~= seq![a]);
    assert(dots != seq!['.']) by {
        assert(dots.len() != seq!['.'].len());
    }
    assert(dots.len() > 0);
    assert(follow_parts(seq![a, b], seq![dots]) =~= seq![a]);
    assert(follow_parts(seq![a, b], seq![dots, x]) =~= seq![a, x]);
    assert(follow_parts(none, seq![dots]) =~= none);
    assert(follow_parts(none, seq![dots, x]) =~= seq![x]);
    // joining
    assert(seq![a, x].drop_last() =~= seq![a]);
    assert(join_slash(seq![a]) == a);
    assert(seq![a, x].last() == x);
    assert(join_slash(seq![a, x]) == join_slash(seq![a]) + seq!['/'] + x);
    assert(join_slash(seq![a, x]) =~= slash(a, x));
    assert(seq![a, x, y].last() == y);
    assert(seq![a, x, y].drop_last() =~= seq![a, x]);
    assert(join_slash(seq![a, x, y]) =~= slash(a, slash(x, y)));
    assert(join_slash(seq![x]) == x);
}

proof fn lemma_query_start_plain(p: Seq<char>, rest: Seq<char>, i: int)
    requires
        0 <= i <= p.len(),
        forall|k: int| 0 <= k < p.len() ==> p[k] != '#' && p[k] != '?',
        rest.len() > 0 ==> rest[0] == '#' || rest[0] == '?',
    ensures
        query_start(p + rest, i) == p.len(),
    decreases p.len() - i,
{
    if i < p.len() {
        assert((p + rest)[i] == p[i]);
        lemma_query_start_plain(p, rest, i + 1);
    } else if rest.len() > 0 {
        assert((p + rest)[i] == rest[0]);
    }
}

/// An href is taken up to its first `#` or `?`: what follows, the fragment
/// or the query, is no part of the path.
pub proof fn lemma_href_path(p: Seq<char>, c: char, rest: Seq<char>)
    requires
        forall|k: int| 0 <= k < p.len() ==> p[k] != '#' && p[k] != '?',
        c == '#' || c == '?',
    ensures
        href_path(p) == p,
        href_path(p + seq![c] + rest) == p,
{
    lemma_query_start_plain(p, Seq::empty(), 0);
    assert(p + Seq::<char>::empty() =~= p);
    assert(p + seq![c] + rest =~= p + (seq![c] + rest));
    lemma_query_start_plain(p, seq![c] + rest, 0);
    assert((p + seq![c] + rest).take(p.len() as int) =~= p);
    assert(p.take(p.len() as int) =~= p);
}

fn is_dot(p: &Vec<char>) -> (b: bool)
    ensures
        b == (p@ == seq!['.']),
{
    if p.len() == 1 && p[0] == '.' {
        assert(p@ =~= seq!['.']);
        true
    } else {
        false
    }
}

fn is_dot_dot(p: &Vec<char>) -> (b: bool)
    ensures
        b == (p@ == seq!['.', '.']),
{
    if p.len() == 2 && p[0] == '.' && p[1] == '.' {
        assert(p@ =~= seq!['.', '.']);
        true
    } else {
        false
    }
}

/// The non-empty components of the directory holding `opf_path`.
pub open spec fn spec_dir_segments(opf_path: Seq<char>) -> Seq<Seq<char>> {
    match last_slash(opf_path) {
        Some(k) => push_nonempty(Seq::empty(), split_on(opf_path.take(k), '/')),
        None => Seq::empty(),
    }
}

fn dir_segments(opf_path: &str) -> (segments: Vec<Vec<char>>)
    ensures
        segments@.map_values(|p: Vec<char>| p@) == spec_dir_segments(opf_path@),
{
    let oc = chars_of(opf_path);
    let mut k: usize = oc.len();
    assert(oc@.take(oc@.len() as int) =~= oc@);
    while k > 0 && oc[k - 1] != '/'
        invariant
            oc@ == opf_path@,
            k <= oc@.len(),
            last_slash(opf_path@) == last_slash(oc@.take(k as int)),
        decreases k,
    {
        assert(oc@.take(k as int).drop_last() =~= oc@.take(k - 1));
        k -= 1;
    }
    let mut segments: Vec<Vec<char>> = Vec::new();
    if k == 0 {
        assert(oc@.take(0) =~= Seq::<char>::empty());
        assert(segments@.map_values(|p: Vec<char>| p@) =~= Seq::<Seq<char>>::empty());
        return segments;
    }
    assert(last_slash(opf_path@) == Some(k - 1));
    let mut dir: Vec<char> = Vec::new();
    let mut m: usize = 0;
    while m < k - 1
        invariant
            oc@ == opf_path@,
            0 < k <= oc@.len(),
            m <= k - 1,
            dir@ == oc@.take(m as int),
        decreases k - 1 - m,
    {
        dir.push(oc[m]);
        assert(dir@ =~= oc@.take(m + 1));
        m += 1;
    }
    let parts = split_chars(&dir, '/');
    let ghost pv = parts@.map_values(|p: Vec<char>| p@);
    assert(segments@.map_values(|p: Vec<char>| p@) =~= Seq::<Seq<char>>::empty());
    for j in 0..parts.len()
        invariant
            pv == parts@.map_values(|p: Vec<char>| p@),
            segments@.map_values(|p: Vec<char>| p@) == push_nonempty(
                Seq::empty(),
                pv.take(j as int),
            ),
    {
        assert(pv.take(j + 1).drop_last() =~= pv.take(j as int));
        assert(pv[j as int] == parts@[j as int]@);
        if parts[j].len() > 0 {
            let ghost sv = segments@;
            let piece = parts[j].clone();
            segments.push(piece);
            assert(segments@.map_values(|p: Vec<char>| p@) =~= sv.map_values(
                |p: Vec<char>| p@,
            ).push(piece@));
        }
    }
    assert(pv.take(pv.len() as int) =~= pv);
    segments
}

fn follow(segments: &mut Vec<Vec<char>>, decoded: &str)
    ensures
        final(segments)@.map_values(|p: Vec<char>| p@) == follow_parts(
            old(segments)@.map_values(|p: Vec<char>| p@),
            split_on(decoded@, '/'),
        ),
{
    let ghost start = segments@.map_values(|p: Vec<char>| p@);
    let dc = chars_of(decoded);
    let parts = split_chars(&dc, '/');
    let ghost pv = parts@.map_values(|p: Vec<char>| p@);
    assert(pv.take(0) =~= Seq::<Seq<char>>::empty());
    for j in 0..parts.len()
        invariant
            pv == parts@.map_values(|p: Vec<char>| p@),
            segments@.map_values(|p: Vec<char>| p@) == follow_parts(start, pv.take(j as int)),
    {
        assert(pv.take(j + 1).drop_last() =~= pv.take(j as int));
        assert(pv[j as int] == parts@[j as int]@);
        let ghost sv = segments@;
        let part = &parts[j];
        if part.len() == 0 || is_dot(part) {
        } else if is_dot_dot(part) {
            if segments.len() > 0 {
                segments.pop();
                assert(segments@.map_values(|p: Vec<char>| p@) =~= sv.map_values(
                    |p: Vec<char>| p@,
                ).drop_last());
            }
        } else {
            let piece = part.clone();
            segments.push(piece);
            assert(segments@.map_values(|p: Vec<char>| p@) =~= sv.map_values(|p: Vec<char>| p@).push(
                piece@,
            ));
        }
    }
    assert(pv.take(pv.len() as int) =~= pv);
}

fn join(segments: &Vec<Vec<char>>) -> (out: String)
    ensures
        out@ == join_slash(segments@.map_values(|p: Vec<char>| p@)),
{
    let ghost sv = segments@.map_values(|p: Vec<char>| p@);
    let mut out = String::new();
    assert(sv.take(0) =~= Seq::<Seq<char>>::empty());
    for j in 0..segments.len()
        invariant
            sv == segments@.map_values(|p: Vec<char>| p@),
            out@ == join_slash(sv.take(j as int)),
    {
        if j > 0 {
            out.push('/');
        }
        let seg = &segments[j];
        let piece = string_of(seg, 0, seg.len());
        out.push_str(piece.as_str());
        assert(seg@.subrange(0, seg@.len() as int) =~= seg@);
        assert(sv.take(j + 1).drop_last() =~= sv.take(j as int));
        assert(sv[j as int] == seg@);
        assert(out@ =~= join_slash(sv.take(j + 1)));
    }
    assert(sv.take(sv.len() as int) =~= sv);
    out
}

/// Resolve a manifest `href` to a zip path, relative to the OPF's directory.
pub fn resolve_href(opf_path: &str, href: &str) -> (path: String)
    ensures
        path@ == spec_resolve_href(opf_path@, href@),
        vstd::utf8::valid_utf8(percent_decoded_from(vstd::utf8::encode_utf8(href_path(href@)), 0))
            ==> path@ == resolve_decoded(
            opf_path@,
            vstd::utf8::decode_utf8(
                percent_decoded_from(vstd::utf8::encode_utf8(href_path(href@)), 0),
            ),
        ),
{
    let hc = chars_of(href);
    let mut q: usize = 0;
    while q < hc.len() && hc[q] != '#' && hc[q] != '?'
        invariant
            hc@ == href@,
            q <= hc@.len(),
            query_start(href@, 0) == query_start(href@, q as int),
        decreases hc@.len() - q,
    {
        q += 1;
    }
    let bare = string_of(&hc, 0, q);
    assert(bare@ =~= href@.take(query_start(href@, 0)));
    let decoded = percent_decode(bare.as_str());
    let mut segments = dir_segments(opf_path);
    follow(&mut segments, decoded.as_str());
    join(&segments)
}

/// The pieces of a path between `/` characters.
pub(crate) fn split_path_chars(s: &Vec<char>) -> (parts: Vec<Vec<char>>)
    ensures
        parts@.map_values(|p: Vec<char>| p@) == split_on(s@, '/'),
{
    split_chars(s, '/')
}

/// Media types treated as transformable content documents.
pub const CONTENT_TYPES: [&'static str; 2] = ["application/xhtml+xml", "text/html"];

/// Whether a media type names a content document, ignoring ASCII case.
pub open spec fn is_content_type(media: Seq<char>) -> bool {
    eq_ignore_ascii_case(CONTENT_TYPES[0]@, media) || eq_ignore_ascii_case(CONTENT_TYPES[1]@, media)
}

/// An optional text, the empty text for `None`.
pub open spec fn or_empty(o: Option<Seq<char>>) -> Seq<char> {
    match o {
        Some(s) => s,
        None => Seq::empty(),
    }
}

/// The zip path of the content document that a tag lists: for an `item` with
/// a content media type and an `href`, that href resolved against `opf_path`.
pub open spec fn spec_content_doc(local: Seq<char>, attrs: Seq<XmlAttrV>, opf_path: Seq<char>) -> Option<
    Seq<char>,
> {
    if local == "item"@ && is_content_type(or_empty(spec_attr_value(attrs, "media-type"@))) {
        match spec_attr_value(attrs, "href"@) {
            Some(href) => Some(spec_resolve_href(opf_path, href)),
            None => None,
        }
    } else {
        None
    }
}

/// The content documents that the events from position `i` on list, up to
/// the end of the document or the first error.
pub open spec fn content_docs_from(events: Seq<XmlEventV>, i: int, opf_path: Seq<char>) -> Seq<
    Seq<char>,
>
    decreases events.len() - i,
{
    if i < 0 || i >= events.len() {
        Seq::empty()
    } else {
        match events[i] {
            XmlEventV::Start(c) => match spec_content_doc(xml_local_name(c), xml_attributes(c), opf_path) {
                Some(d) => seq![d] + content_docs_from(events, i + 1, opf_path),
                None => content_docs_from(events, i + 1, opf_path),
            },
            XmlEventV::Empty(c) => match spec_content_doc(xml_local_name(c), xml_attributes(c), opf_path) {
                Some(d) => seq![d] + content_docs_from(events, i + 1, opf_path),
                None => content_docs_from(events, i + 1, opf_path),
            },
            XmlEventV::Other(_) => content_docs_from(events, i + 1, opf_path),
            _ => Seq::empty(),
        }
    }
}

/// The event is a start or empty tag that lists the document `d`.
pub open spec fn lists_doc(e: XmlEventV, opf_path: Seq<char>, d: Seq<char>) -> bool {
    match e {
        XmlEventV::Start(c) => spec_content_doc(xml_local_name(c), xml_attributes(c), opf_path) == Some(d),
        XmlEventV::Empty(c) => spec_content_doc(xml_local_name(c), xml_attributes(c), opf_path) == Some(d),
        _ => false,
    }
}

/// The event ends the reading: the end of the document or a failure.
pub open spec fn ends_reading(e: XmlEventV) -> bool {
    e is Eof || e is Failed
}

proof fn lemma_content_docs_from_member(events: Seq<XmlEventV>, i: int, opf_path: Seq<char>, d: Seq<char>)
    requires
        0 <= i,
    ensures
        content_docs_from(events, i, opf_path).contains(d) <==> exists|k: int|
            i <= k < events.len() && #[trigger] lists_doc(events[k], opf_path, d) && forall|m: int|
                i <= m < k ==> !ends_reading(#[trigger] events[m]),
    decreases events.len() - i,
{
    if 0 <= i < events.len() {
        lemma_content_docs_from_member(events, i + 1, opf_path, d);
        let rest = content_docs_from(events, i + 1, opf_path);
        let all = content_docs_from(events, i, opf_path);
        let e = events[i];
        if all.contains(d) {
            if lists_doc(e, opf_path, d) {
                assert(forall|m: int| i <= m < i ==> !ends_reading(#[trigger] events[m]));
            } else {
                assert(!ends_reading(e));
                let j = choose|j: int| 0 <= j < all.len() && all[j] == d;
                match e {
                    XmlEventV::Start(c) => {
                        if spec_content_doc(xml_local_name(c), xml_attributes(c), opf_path) is Some {
                            assert(j > 0 && all[j] == rest[j - 1]);
                        }
                    },
                    XmlEventV::Empty(c) => {
                        if spec_content_doc(xml_local_name(c), xml_attributes(c), opf_path) is Some {
                            assert(j > 0 && all[j] == rest[j - 1]);
                        }
                    },
                    _ => {},
                }
                assert(rest.contains(d));
            }
        }
        if exists|k: int|
            i <= k < events.len() && #[trigger] lists_doc(events[k], opf_path, d) && forall|m: int|
                i <= m < k ==> !ends_reading(#[trigger] events[m]) {
            let k = choose|k: int|
                i <= k < events.len() && #[trigger] lists_doc(events[k], opf_path, d) && forall|m: int|
                    i <= m < k ==> !ends_reading(#[trigger] events[m]);
            if k == i {
                assert(all[0] == d);
            } else {
                assert(!ends_reading(events[i]));
                assert(forall|m: int| i + 1 <= m < k ==> !ends_reading(#[trigger] events[m]));
                assert(rest.contains(d));
                let j = choose|j: int| 0 <= j < rest.len() && rest[j] == d;
                match e {
                    XmlEventV::Start(c) => {
                        if spec_content_doc(xml_local_name(c), xml_attributes(c), opf_path) is Some {
                            assert(all[j + 1] == rest[j]);
                        }
                    },
                    XmlEventV::Empty(c) => {
                        if spec_content_doc(xml_local_name(c), xml_attributes(c), opf_path) is Some {
                            assert(all[j + 1] == rest[j]);
                        }
                    },
                    _ => {},
                }
            }
        }
    }
}

/// The manifest lists a document exactly when some start or empty tag read
/// before the end of the document (or a failure) lists it: an `item` with
/// a content media type whose `href` resolves to it.
pub proof fn lemma_listed_exactly(opf_xml: Seq<u8>, opf_path: Seq<char>, d: Seq<char>)
    ensures
        spec_content_docs(opf_xml, opf_path).contains(d) <==> exists|k: int|
            0 <= k < xml_events(opf_xml).len() && #[trigger] lists_doc(
                xml_events(opf_xml)[k],
                opf_path,
                d,
            ) && forall|m: int| 0 <= m < k ==> !ends_reading(#[trigger] xml_events(opf_xml)[m]),
{
    lemma_content_docs_from_member(xml_events(opf_xml), 0, opf_path, d);
}

/// The zip paths of the content documents that the OPF manifest lists, in order.
pub open spec fn spec_content_docs(opf_xml: Seq<u8>, opf_path: Seq<char>) -> Seq<Seq<char>> {
    content_docs_from(xml_events(opf_xml), 0, opf_path)
}

/// Whether `media` is one of the content media types, ignoring ASCII case.
fn is_content_media(media: &str) -> (r: bool)
    ensures
        r == is_content_type(media@),
{
    let m = chars_of(media);
    let a = chars_of(CONTENT_TYPES[0]);
    let b = chars_of(CONTENT_TYPES[1]);
    eq_ascii_ci(&a, &m) || eq_ascii_ci(&b, &m)
}

/// For one tag: the zip path of the content document it lists, when it is an
/// `item` with a content media type and an `href`.
pub fn content_doc(local: &str, attrs: &Vec<XmlAttr>, opf_path: &str) -> (r: Option<String>)
    ensures
        opt_string_view(r) == spec_content_doc(local@, attrs_view(attrs@), opf_path@),
{
    if !str_eq(local, "item") {
        return None;
    }
    let media = match attr_value(attrs, "media-type") {
        Some(m) => m,
        None => String::new(),
    };
    if !is_content_media(media.as_str()) {
        return None;
    }
    match attr_value(attrs, "href") {
        Some(href) => Some(resolve_href(opf_path, href.as_str())),
        None => None,
    }
}

/// Zip paths of every XHTML content document listed in the OPF manifest.
pub fn content_docs(opf_xml: &[u8], opf_path: &str) -> (docs: Vec<String>)
    ensures
        docs@.map_values(|d: String| d@) == spec_content_docs(opf_xml@, opf_path@),
{
    let mut reader = xml_reader(opf_xml);
    let ghost events = xml_events(opf_xml@);
    let ghost mut k: int = 0;
    let mut docs: Vec<String> = Vec::new();
    loop
        invariant
            events == xml_events(opf_xml@),
            is_terminated(events),
            0 <= k < events.len(),
            pending_events(reader) == events.subrange(k, events.len() as int),
            content_docs_from(events, 0, opf_path@) == docs@.map_values(|d: String| d@)
                + content_docs_from(events, k, opf_path@),
        decreases events.len() - k,
    {
        let ev = next_event(&mut reader);
        let ghost seen = events[k];
        assert(crate::xml::event_view(ev) == seen);
        assert(pending_events(reader) =~= events.subrange(k + 1, events.len() as int));
        let tag = match ev {
            XmlEvent::Start(t) => t,
            XmlEvent::Empty(t) => t,
            XmlEvent::Other(_) => {
                assert(!is_final_event(events[k]));
                proof {
                    k = k + 1;
                }
                continue;
            },
            _ => {
                assert(content_docs_from(events, k, opf_path@) =~= Seq::<Seq<char>>::empty());
                assert(docs@.map_values(|d: String| d@) + Seq::<Seq<char>>::empty() =~= docs@.map_values(
                    |d: String| d@,
                ));
                return docs;
            },
        };
        let local = tag_local_name(&tag);
        let attrs = tag_attributes(&tag);
        assert(seen == XmlEventV::Start(tag_content(tag)) || seen == XmlEventV::Empty(tag_content(tag)));
        let ghost before = docs@.map_values(|d: String| d@);
        match content_doc(local.as_str(), &attrs, opf_path) {
            Some(d) => {
                docs.push(d);
                assert(docs@.map_values(|d: String| d@) =~= before.push(d@));
                assert(before.push(d@) + content_docs_from(events, k + 1, opf_path@) =~= before + (
                seq![d@] + content_docs_from(events, k + 1, opf_path@)));
            },
            None => {},
        }
        assert(!is_final_event(events[k]));
        proof {
            k = k + 1;
        }
    }
}

/// For one tag: when it is `<meta name="cover" ...>`, the unescaped value of
/// its `content` attribute (`None` inside when it has none).
pub open spec fn spec_cover_meta(local: Seq<char>, attrs: Seq<XmlAttrV>) -> Option<Option<Seq<char>>> {
    if local == "meta"@ && spec_attr_value(attrs, "name"@) == Some("cover"@) {
        Some(spec_attr_value(attrs, "content"@))
    } else {
        None
    }
}

/// The cover id that the events from position `i` on name: the `content` of
/// the first `<meta name="cover">`, or `None` when the document ends or fails first.
pub open spec fn cover_id_from(events: Seq<XmlEventV>, i: int) -> Option<Seq<char>>
    decreases events.len() - i,
{
    if i < 0 || i >= events.len() {
        None
    } else {
        match events[i] {
            XmlEventV::Start(c) => match spec_cover_meta(xml_local_name(c), xml_attributes(c)) {
                Some(id) => id,
                None => cover_id_from(events, i + 1),
            },
            XmlEventV::Empty(c) => match spec_cover_meta(xml_local_name(c), xml_attributes(c)) {
                Some(id) => id,
                None => cover_id_from(events, i + 1),
            },
            XmlEventV::Other(_) => cover_id_from(events, i + 1),
            _ => None,
        }
    }
}

/// For one tag: `Some` when it is `<meta name="cover">`, holding its
/// `content` value.
pub fn cover_meta(local: &str, attrs: &Vec<XmlAttr>) -> (r: Option<Option<String>>)
    ensures
        match r {
            Some(id) => spec_cover_meta(local@, attrs_view(attrs@)) == Some(opt_string_view(id)),
            None => spec_cover_meta(local@, attrs_view(attrs@)) is None,
        },
{
    if !str_eq(local, "meta") {
        return None;
    }
    match attr_value(attrs, "name") {
        Some(n) => {
            if str_eq(n.as_str(), "cover") {
                Some(attr_value(attrs, "content"))
            } else {
                None
            }
        },
        None => None,
    }
}

/// The cover id referenced by `<meta name="cover" content="..">`.
fn find_cover_id(opf_xml: &[u8]) -> (r: Option<String>)
    ensures
        opt_string_view(r) == cover_id_from(xml_events(opf_xml@), 0),
{
    let mut reader = xml_reader(opf_xml);
    let ghost events = xml_events(opf_xml@);
    let ghost mut k: int = 0;
    loop
        invariant
            events == xml_events(opf_xml@),
            is_terminated(events),
            0 <= k < events.len(),
            pending_events(reader) == events.subrange(k, events.len() as int),
            cover_id_from(events, 0) == cover_id_from(events, k),
        decreases events.len() - k,
    {
        let ev = next_event(&mut reader);
        let ghost seen = events[k];
        assert(crate::xml::event_view(ev) == seen);
        assert(pending_events(reader) =~= events.subrange(k + 1, events.len() as int));
        let tag = match ev {
            XmlEvent::Start(t) => t,
            XmlEvent::Empty(t) => t,
            XmlEvent::Other(_) => {
                assert(!is_final_event(events[k]));
                proof {
                    k = k + 1;
                }
                continue;
            },
            _ => {
                return None;
            },
        };
        let local = tag_local_name(&tag);
        let attrs = tag_attributes(&tag);
        assert(seen == XmlEventV::Start(tag_content(tag)) || seen == XmlEventV::Empty(tag_content(tag)));
        match cover_meta(local.as_str(), &attrs) {
            Some(id) => {
                return id;
            },
            None => {},
        }
        assert(!is_final_event(events[k]));
        proof {
            k = k + 1;
        }
    }
}

/// Whether an item with this id is the cover: the one that the cover id
/// names, or, with no cover id, the one whose id is `cover`.
pub open spec fn is_cover_item(cover_id: Option<Seq<char>>, id: Option<Seq<char>>) -> bool {
    match (cover_id, id) {
        (Some(cid), Some(id)) => cid == id,
        (None, Some(id)) => id == "cover"@,
        _ => false,
    }
}

/// The `properties` value that a cover item gets: `cover-image` added to
/// what it had.
pub open spec fn merged_properties(existing: Seq<char>) -> Seq<char> {
    if existing.len() == 0 {
        "cover-image"@
    } else {
        existing + " cover-image"@
    }
}

/// For an item with these attributes: when it is the cover image and lacks
/// the `cover-image` property, the `properties` value it should carry.
pub open spec fn spec_cover_properties(attrs: Seq<XmlAttrV>, cover_id: Option<Seq<char>>) -> Option<
    Seq<char>,
> {
    let media = or_empty(spec_attr_value(attrs, "media-type"@));
    let existing = or_empty(spec_attr_value(attrs, "properties"@));
    if !is_cover_item(cover_id, spec_attr_value(attrs, "id"@)) || !has_prefix(media, "image/"@) {
        None
    } else if ws_tokens(existing).contains("cover-image"@) {
        None
    } else {
        Some(merged_properties(existing))
    }
}

/// The attributes of a rebuilt item, in their order, each `properties`
/// attribute given the value `merged`.
pub open spec fn rebuilt_attrs(attrs: Seq<XmlAttrV>, merged: Seq<char>) -> Seq<u8>
    decreases attrs.len(),
{
    if attrs.len() == 0 {
        Seq::empty()
    } else {
        let a = attrs.last();
        rebuilt_attrs(attrs.drop_last(), merged) + if a.local == "properties"@ {
            text_attr_bytes(a.key_text, merged)
        } else {
            raw_attr_bytes(a.key, a.raw)
        }
    }
}

/// Whether some attribute's local name is `properties`.
pub open spec fn has_properties_attr(attrs: Seq<XmlAttrV>) -> bool {
    exists|i: int| 0 <= i < attrs.len() && #[trigger] attrs[i].local == "properties"@
}

/// The content of the rebuilt cover item: its name, its attributes, and a
/// `properties="cover-image"` attribute when it had none.
pub open spec fn rebuilt_item(name: Seq<char>, attrs: Seq<XmlAttrV>, merged: Seq<char>) -> Seq<u8> {
    encode_utf8(name) + rebuilt_attrs(attrs, merged) + if has_properties_attr(attrs) {
        Seq::empty()
    } else {
        text_attr_bytes("properties"@, "cover-image"@)
    }
}

/// The content of the tag with content `c` once the cover property is added,
/// or `None` when it needs no change.
pub open spec fn spec_rewrite_item(c: Seq<u8>, cover_id: Option<Seq<char>>) -> Option<Seq<u8>> {
    match spec_cover_properties(xml_attributes(c), cover_id) {
        Some(merged) => Some(rebuilt_item(xml_tag_name(c), xml_attributes(c), merged)),
        None => None,
    }
}

/// A manifest tag lists a content document exactly when it is an `item`
/// whose `media-type` is `application/xhtml+xml` or `text/html` (in any
/// ASCII case) and that has an `href`; the document is that href resolved
/// against the OPF's path.
pub proof fn lemma_listed_content(local: Seq<char>, attrs: Seq<XmlAttrV>, opf_path: Seq<char>)
    ensures
        spec_content_doc(local, attrs, opf_path) == if local == "item"@ && (eq_ignore_ascii_case(
            "application/xhtml+xml"@,
            or_empty(spec_attr_value(attrs, "media-type"@)),
        ) || eq_ignore_ascii_case("text/html"@, or_empty(spec_attr_value(attrs, "media-type"@))))
            && spec_attr_value(attrs, "href"@) is Some {
            Some(spec_resolve_href(opf_path, spec_attr_value(attrs, "href"@)->Some_0))
        } else {
            None
        },
{
    reveal_strlit("application/xhtml+xml");
    reveal_strlit("text/html");
    assert(CONTENT_TYPES[0]@ == "application/xhtml+xml"@);
    assert(CONTENT_TYPES[1]@ == "text/html"@);
}

/// The cover item is marked exactly when it is the item that the cover
/// `meta` names (or, with no such `meta`, the item with id `cover`), its
/// media type starts with `image/`, and its properties do not already list
/// `cover-image`; `cover-image` is then added after what it had, or stands
/// alone.
pub proof fn lemma_cover_marking(attrs: Seq<XmlAttrV>, cover_id: Option<Seq<char>>)
    ensures
        ({
            let id = spec_attr_value(attrs, "id"@);
            let media = or_empty(spec_attr_value(attrs, "media-type"@));
            let existing = or_empty(spec_attr_value(attrs, "properties"@));
            let chosen = match cover_id {
                Some(c) => id == Some(c),
                None => id == Some("cover"@),
            };
            spec_cover_properties(attrs, cover_id) == if chosen && media.len() >= 6 && media.take(6)
                == "image/"@ && !ws_tokens(existing).contains("cover-image"@) {
                Some(
                    if existing.len() == 0 {
                        "cover-image"@
                    } else {
                        existing + " cover-image"@
                    },
                )
            } else {
                None
            }
        }),
{
    reveal_strlit("image/");
}

/// Whether `s` starts with `prefix`.
pub open spec fn has_prefix(s: Seq<char>, prefix: Seq<char>) -> bool {
    prefix.len() <= s.len() && s.take(prefix.len() as int) == prefix
}

/// Whether `s` starts with `prefix`.
pub(crate) fn starts_with(s: &str, prefix: &str) -> (r: bool)
    ensures
        r == has_prefix(s@, prefix@),
{
    let a = chars_of(s);
    let b = chars_of(prefix);
    if a.len() < b.len() {
        return false;
    }
    let mut i: usize = 0;
    while i < b.len()
        invariant
            a@ == s@,
            b@ == prefix@,
            b@.len() <= a@.len(),
            i <= b@.len(),
            forall|k: int| 0 <= k < i ==> a@[k] == b@[k],
        decreases b@.len() - i,
    {
        if a[i] != b[i] {
            return false;
        }
        i += 1;
    }
    assert(a@.take(b@.len() as int) =~= b@);
    true
}

/// For an item with these attributes: when it is the cover image and lacks
/// the `cover-image` property, the `properties` value it should carry;
/// `None` when it needs no change.
pub fn cover_properties(attrs: &Vec<XmlAttr>, cover_id: Option<&str>) -> (r: Option<String>)
    ensures
        opt_string_view(r) == spec_cover_properties(
            attrs_view(attrs@),
            match cover_id {
                Some(c) => Some(c@),
                None => None,
            },
        ),
{
    let id = attr_value(attrs, "id");
    let media = match attr_value(attrs, "media-type") {
        Some(m) => m,
        None => String::new(),
    };
    let is_cover = match (cover_id, &id) {
        (Some(cid), Some(id)) => str_eq(cid, id.as_str()),
        (None, Some(id)) => str_eq(id.as_str(), "cover"),
        _ => false,
    };
    let image = starts_with(media.as_str(), "image/");
    if !is_cover || !image {
        return None;
    }
    let existing = match attr_value(attrs, "properties") {
        Some(p) => p,
        None => String::new(),
    };
    let ghost cid = match cover_id {
        Some(c) => Some(c@),
        None => None,
    };
    let ghost av = attrs_view(attrs@);
    assert(is_cover_item(cid, spec_attr_value(av, "id"@)));
    assert(has_prefix(or_empty(spec_attr_value(av, "media-type"@)), "image/"@));
    assert(existing@ == or_empty(spec_attr_value(av, "properties"@)));
    let tokens = split_whitespace(existing.as_str());
    let ghost tv = tokens@.map_values(|t: String| t@);
    let mut i: usize = 0;
    while i < tokens.len()
        invariant
            i <= tokens@.len(),
            tv == tokens@.map_values(|t: String| t@),
            tv == ws_tokens(existing@),
            av == attrs_view(attrs@),
            cid == (match cover_id {
                Some(c) => Some(c@),
                None => None,
            }),
            is_cover_item(cid, spec_attr_value(av, "id"@)),
            has_prefix(or_empty(spec_attr_value(av, "media-type"@)), "image/"@),
            existing@ == or_empty(spec_attr_value(av, "properties"@)),
            forall|k: int| 0 <= k < i ==> tv[k] != "cover-image"@,
        decreases tokens@.len() - i,
    {
        if str_eq(tokens[i].as_str(), "cover-image") {
            assert(tv[i as int] == "cover-image"@);
            assert(tv.contains("cover-image"@));
            return None;
        }
        i += 1;
    }
    assert(!tv.contains("cover-image"@));
    if existing.as_str().is_empty() {
        Some(crate::text::owned("cover-image"))
    } else {
        let mut merged = existing;
        merged.push_str(" cover-image");
        Some(merged)
    }
}

/// If `item` is the cover image and lacks the `cover-image` property, return a
/// copy with `properties="cover-image"` added.
pub fn rewrite_item(e: &BytesStart<'static>, cover_id: Option<&str>) -> (r: Option<BytesStart<'static>>)
    ensures
        match r {
            Some(t) => spec_rewrite_item(
                tag_content(*e),
                match cover_id {
                    Some(c) => Some(c@),
                    None => None,
                },
            ) == Some(tag_content(t)),
            None => spec_rewrite_item(
                tag_content(*e),
                match cover_id {
                    Some(c) => Some(c@),
                    None => None,
                },
            ) is None,
        },
{
    let attrs = tag_attributes(e);
    let merged = match cover_properties(&attrs, cover_id) {
        Some(m) => m,
        None => {
            return None;
        },
    };
    let name = tag_name(e);
    let mut out = new_tag(name.as_str());
    let mut wrote_properties = false;
    let ghost av = attrs_view(attrs@);
    let mut i: usize = 0;
    while i < attrs.len()
        invariant
            i <= attrs@.len(),
            av == attrs_view(attrs@),
            tag_content(out) == encode_utf8(name@) + rebuilt_attrs(av.take(i as int), merged@),
            wrote_properties == exists|j: int| 0 <= j < i && #[trigger] av[j].local == "properties"@,
        decreases attrs@.len() - i,
    {
        let a = &attrs[i];
        assert(av[i as int] == crate::xml::attr_view(*a));
        assert(av.take(i + 1).drop_last() =~= av.take(i as int));
        if str_eq(a.local.as_str(), "properties") {
            push_text_attribute(&mut out, a.key_text.as_str(), merged.as_str());
            wrote_properties = true;
        } else {
            push_raw_attribute(&mut out, a.key.as_slice(), a.raw.as_slice());
        }
        assert(tag_content(out) =~= encode_utf8(name@) + rebuilt_attrs(av.take(i + 1), merged@));
        i += 1;
    }
    assert(av.take(av.len() as int) =~= av);
    if !wrote_properties {
        push_text_attribute(&mut out, "properties", "cover-image");
    }
    assert(wrote_properties == has_properties_attr(av));
    Some(out)
}

/// What writing back a tag gives when it passes through the second pass:
/// the bytes written and whether it was changed.
pub open spec fn tag_step(c: Seq<u8>, empty: bool, cover_id: Option<Seq<char>>) -> (Seq<u8>, bool) {
    if xml_local_name(c) == "item"@ {
        match spec_rewrite_item(c, cover_id) {
            Some(nc) => (tag_bytes(nc, empty), true),
            None => (tag_bytes(c, empty), false),
        }
    } else {
        (tag_bytes(c, empty), false)
    }
}

/// `written` and `changed` placed before what the rest of the document gives.
pub open spec fn after_prefix(written: Seq<u8>, changed: bool, rest: Option<(Seq<u8>, bool)>) -> Option<
    (Seq<u8>, bool),
> {
    match rest {
        Some((b, c)) => Some((written + b, changed || c)),
        None => None,
    }
}

/// What writing back the events from position `i` on gives, with the cover
/// item rewritten: the bytes and whether anything changed; `None` when the
/// document turns out malformed or an event cannot be written back.
pub open spec fn rewritten_from(events: Seq<XmlEventV>, i: int, cover_id: Option<Seq<char>>) -> Option<
    (Seq<u8>, bool),
>
    decreases events.len() - i,
{
    if i < 0 || i >= events.len() {
        Some((Seq::empty(), false))
    } else {
        match events[i] {
            XmlEventV::Eof => Some((Seq::empty(), false)),
            XmlEventV::Failed => None,
            XmlEventV::Other(w) => match w {
                Some(b) => after_prefix(b, false, rewritten_from(events, i + 1, cover_id)),
                None => None,
            },
            XmlEventV::Start(c) => {
                let (b, ch) = tag_step(c, false, cover_id);
                after_prefix(b, ch, rewritten_from(events, i + 1, cover_id))
            },
            XmlEventV::Empty(c) => {
                let (b, ch) = tag_step(c, true, cover_id);
                after_prefix(b, ch, rewritten_from(events, i + 1, cover_id))
            },
        }
    }
}

/// The event at `k` is an `item` tag that needs the cover mark.
pub open spec fn marks_cover(e: XmlEventV, cover_id: Option<Seq<char>>) -> bool {
    match e {
        XmlEventV::Start(c) => xml_local_name(c) == "item"@ && spec_cover_properties(
            xml_attributes(c),
            cover_id,
        ) is Some,
        XmlEventV::Empty(c) => xml_local_name(c) == "item"@ && spec_cover_properties(
            xml_attributes(c),
            cover_id,
        ) is Some,
        _ => false,
    }
}

proof fn lemma_rewritten_changed(events: Seq<XmlEventV>, i: int, cover_id: Option<Seq<char>>)
    requires
        0 <= i,
    ensures
        rewritten_from(events, i, cover_id) matches Some((b, ch)) ==> (ch <==> exists|k: int|
            i <= k < events.len() && #[trigger] marks_cover(events[k], cover_id) && forall|m: int|
                i <= m < k ==> !(#[trigger] events[m] is Eof)),
    decreases events.len() - i,
{
    if 0 <= i < events.len() {
        lemma_rewritten_changed(events, i + 1, cover_id);
        let e = events[i];
        if let Some((b, ch)) = rewritten_from(events, i, cover_id) {
            if ch {
                if !marks_cover(e, cover_id) {
                    let (b1, ch1) = rewritten_from(events, i + 1, cover_id)->Some_0;
                    assert(ch1);
                    let k = choose|k: int| i + 1 <= k < events.len() && #[trigger] marks_cover(
                        events[k],
                        cover_id,
                    ) && forall|m: int| i + 1 <= m < k ==> !(#[trigger] events[m] is Eof);
                    assert(!(events[i] is Eof));
                } else {
                    assert(forall|m: int| i <= m < i ==> !(#[trigger] events[m] is Eof));
                }
            } else {
                if exists|k: int|
                    i <= k < events.len() && #[trigger] marks_cover(events[k], cover_id) && forall|
                        m: int,
                    | i <= m < k ==> !(#[trigger] events[m] is Eof) {
                    let k = choose|k: int|
                        i <= k < events.len() && #[trigger] marks_cover(events[k], cover_id) && forall|
                            m: int,
                        | i <= m < k ==> !(#[trigger] events[m] is Eof);
                    if k == i {
                        assert(marks_cover(e, cover_id));
                    } else {
                        assert(!(events[i] is Eof));
                        assert(forall|m: int| i + 1 <= m < k ==> !(#[trigger] events[m] is Eof));
                    }
                }
            }
        }
    }
}

/// The OPF is rewritten exactly when, before the end of the document, some
/// `item` tag is the cover image without the `cover-image` property, and the
/// whole document can be read and written back.
pub proof fn lemma_cover_rewritten_when_needed(opf_xml: Seq<u8>)
    ensures
        ({
            let events = xml_events(opf_xml);
            let cover_id = cover_id_from(events, 0);
            spec_normalize_cover(opf_xml) is Some <==> (rewritten_from(events, 0, cover_id) is Some
                && exists|k: int|
                0 <= k < events.len() && #[trigger] marks_cover(events[k], cover_id) && forall|
                    m: int,
                | 0 <= m < k ==> !(#[trigger] events[m] is Eof))
        }),
{
    let events = xml_events(opf_xml);
    lemma_rewritten_changed(events, 0, cover_id_from(events, 0));
}

/// A `<meta name="cover">` tag.
pub open spec fn is_cover_meta_tag(e: XmlEventV) -> bool {
    match e {
        XmlEventV::Start(c) => xml_local_name(c) == "meta"@ && spec_attr_value(xml_attributes(c), "name"@)
            == Some("cover"@),
        XmlEventV::Empty(c) => xml_local_name(c) == "meta"@ && spec_attr_value(xml_attributes(c), "name"@)
            == Some("cover"@),
        _ => false,
    }
}

/// The attributes of a start or empty tag.
pub open spec fn event_attrs(e: XmlEventV) -> Seq<XmlAttrV> {
    match e {
        XmlEventV::Start(c) => xml_attributes(c),
        XmlEventV::Empty(c) => xml_attributes(c),
        _ => Seq::empty(),
    }
}

proof fn lemma_cover_scan(events: Seq<XmlEventV>, i: int, k: int)
    requires
        0 <= i <= k < events.len(),
        is_cover_meta_tag(events[k]),
        forall|m: int| i <= m < k ==> !ends_reading(#[trigger] events[m]) && !is_cover_meta_tag(events[m]),
    ensures
        cover_id_from(events, i) == spec_attr_value(event_attrs(events[k]), "content"@),
    decreases k - i,
{
    if i < k {
        assert(!ends_reading(events[i]) && !is_cover_meta_tag(events[i]));
        lemma_cover_scan(events, i + 1, k);
    }
}

/// The cover id is the `content` of the first `<meta name="cover">` tag,
/// when no end or failure comes before it.
pub proof fn lemma_cover_id_first_meta(opf_xml: Seq<u8>, k: int)
    requires
        0 <= k < xml_events(opf_xml).len(),
        is_cover_meta_tag(xml_events(opf_xml)[k]),
        forall|m: int|
            0 <= m < k ==> !ends_reading(#[trigger] xml_events(opf_xml)[m]) && !is_cover_meta_tag(
                xml_events(opf_xml)[m],
            ),
    ensures
        cover_id_from(xml_events(opf_xml), 0) == spec_attr_value(
            event_attrs(xml_events(opf_xml)[k]),
            "content"@,
        ),
{
    lemma_cover_scan(xml_events(opf_xml), 0, k);
}

/// The OPF with `properties="cover-image"` added to the cover item, when
/// that changes it; `None` when nothing needed changing, and when the markup
/// is malformed or cannot be written back, so that the OPF is left as it is.
pub open spec fn spec_normalize_cover(opf_xml: Seq<u8>) -> Option<Seq<u8>> {
    let events = xml_events(opf_xml);
    match rewritten_from(events, 0, cover_id_from(events, 0)) {
        Some((b, true)) => Some(b),
        _ => None,
    }
}

proof fn lemma_after_prefix_assoc(a: Seq<u8>, ca: bool, b: Seq<u8>, cb: bool, rest: Option<(Seq<u8>, bool)>)
    ensures
        after_prefix(a, ca, after_prefix(b, cb, rest)) == after_prefix(a + b, ca || cb, rest),
{
    match rest {
        Some((r, c)) => {
            assert(a + (b + r) =~= (a + b) + r);
        },
        None => {},
    }
}

/// Add `properties="cover-image"` to the manifest item that holds the cover
/// image, so Kobo shows the cover in its library. Returns the rewritten OPF
/// when a change was made, or `None` when nothing needed changing. Malformed
/// markup gives `None` too, leaving the OPF as it is.
pub fn normalize_cover(opf_xml: &[u8]) -> (r: Option<Vec<u8>>)
    ensures
        match r {
            Some(b) => spec_normalize_cover(opf_xml@) == Some(b@),
            None => spec_normalize_cover(opf_xml@) is None,
        },
{
    let cover_id = find_cover_id(opf_xml);
    let cid: Option<&str> = match &cover_id {
        Some(c) => Some(c.as_str()),
        None => None,
    };
    let ghost cidv = opt_string_view(cover_id);
    let mut reader = xml_reader(opf_xml);
    let ghost events = xml_events(opf_xml@);
    let ghost mut k: int = 0;
    let mut out: Vec<u8> = Vec::new();
    let mut changed = false;
    loop
        invariant
            events == xml_events(opf_xml@),
            is_terminated(events),
            cidv == cover_id_from(events, 0),
            cidv == (match cid {
                Some(c) => Some(c@),
                None => None,
            }),
            0 <= k < events.len(),
            pending_events(reader) == events.subrange(k, events.len() as int),
            rewritten_from(events, 0, cidv) == after_prefix(out@, changed, rewritten_from(events, k, cidv)),
        decreases events.len() - k,
    {
        let ev = next_event(&mut reader);
        let ghost seen = events[k];
        assert(crate::xml::event_view(ev) == seen);
        assert(pending_events(reader) =~= events.subrange(k + 1, events.len() as int));
        let ghost before = out@;
        let ghost before_changed = changed;
        let (tag, empty) = match ev {
            XmlEvent::Start(t) => (t, false),
            XmlEvent::Empty(t) => (t, true),
            XmlEvent::Other(w) => {
                match w {
                    Some(mut b) => {
                        let ghost wb = b@;
                        out.append(&mut b);
                        proof {
                            lemma_after_prefix_assoc(before, before_changed, wb, false, rewritten_from(events, k + 1, cidv));
                        }
                        assert(!is_final_event(events[k]));
                        proof {
                            k = k + 1;
                        }
                        continue;
                    },
                    None => {
                        return None;
                    },
                }
            },
            XmlEvent::Eof => {
                assert(rewritten_from(events, k, cidv) == Some((Seq::<u8>::empty(), false)));
                assert(out@ + Seq::<u8>::empty() =~= out@);
                if changed {
                    return Some(out);
                } else {
                    return None;
                }
            },
            XmlEvent::Failed => {
                return None;
            },
        };
        assert(seen == (if empty {
            XmlEventV::Empty(tag_content(tag))
        } else {
            XmlEventV::Start(tag_content(tag))
        }));
        let ghost c = tag_content(tag);
        let local = tag_local_name(&tag);
        let (mut bytes, ch) = if str_eq(local.as_str(), "item") {
            match rewrite_item(&tag, cid) {
                Some(nt) => (write_tag(nt, empty), true),
                None => (write_tag(tag, empty), false),
            }
        } else {
            (write_tag(tag, empty), false)
        };
        assert((bytes@, ch) == tag_step(c, empty, cidv));
        let ghost wb = bytes@;
        out.append(&mut bytes);
        changed = changed || ch;
        proof {
            lemma_after_prefix_assoc(before, before_changed, wb, ch, rewritten_from(events, k + 1, cidv));
        }
        assert(!is_final_event(events[k]));
        proof {
            k = k + 1;
        }
    }
}

} // verus!
