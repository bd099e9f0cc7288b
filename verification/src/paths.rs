//! `/`-separated file paths, following `std::path` on Unix.
use vstd::prelude::*;

use crate::opf::{is_name, lemma_split_plain, lemma_split_slash, slash, split_on};
use crate::text::{chars_of, string_of};

verus! {

/// A path piece that names something: not empty and not `.`.
pub open spec fn is_named_part(part: Seq<char>) -> bool {
    part.len() > 0 && part != seq!['.']
}

/// The last named piece among `parts[..n]`.
pub open spec fn last_named(parts: Seq<Seq<char>>, n: int) -> Option<Seq<char>>
    decreases n,
{
    if n <= 0 || n > parts.len() {
        None
    } else if is_named_part(parts[n - 1]) {
        Some(parts[n - 1])
    } else {
        last_named(parts, n - 1)
    }
}

/// `Path::file_name`: the final component when it is a normal one (not the
/// root, `.` or `..`).
pub open spec fn spec_file_name(p: Seq<char>) -> Option<Seq<char>> {
    let parts = split_on(p, '/');
    match last_named(parts, parts.len() as int) {
        Some(c) => if c == seq!['.', '.'] {
            None
        } else {
            Some(c)
        },
        None => None,
    }
}

/// Index of the last `.` in `s[..n]`.
pub open spec fn last_dot(s: Seq<char>, n: int) -> Option<int>
    decreases n,
{
    if n <= 0 || n > s.len() {
        None
    } else if s[n - 1] == '.' {
        Some(n - 1)
    } else {
        last_dot(s, n - 1)
    }
}

/// `Path::extension` of a file name: the part after the final `.`, unless
/// there is no `.` or the only one starts the name.
pub open spec fn spec_extension_of(name: Seq<char>) -> Option<Seq<char>> {
    if name == seq!['.', '.'] {
        None
    } else {
        match last_dot(name, name.len() as int) {
            Some(k) => if k == 0 {
                None
            } else {
                Some(name.skip(k + 1))
            },
            None => None,
        }
    }
}

proof fn lemma_last_named(parts: Seq<Seq<char>>, n: int)
    ensures
        last_named(parts, n) matches Some(c) ==> is_named_part(c),
    decreases n,
{
    if 0 < n <= parts.len() && !is_named_part(parts[n - 1]) {
        lemma_last_named(parts, n - 1);
    }
}

pub proof fn lemma_last_dot_pub(s: Seq<char>, n: int)
    ensures
        last_dot(s, n) matches Some(k) ==> 0 <= k < n && k < s.len() && s[k] == '.',
    decreases n,
{
    if 0 < n <= s.len() && s[n - 1] != '.' {
        lemma_last_dot_pub(s, n - 1);
    }
}

proof fn lemma_last_dot_none(s: Seq<char>, n: int)
    requires
        0 <= n <= s.len(),
        forall|i: int| 0 <= i < n ==> s[i] != '.',
    ensures
        last_dot(s, n) is None,
    decreases n,
{
    if n > 0 {
        lemma_last_dot_none(s, n - 1);
    }
}

/// The file name of a path is its last component, after any directory and
/// before a trailing slash; the extension of a name is what follows its last
/// `.`, unless that `.` starts the name; a path is an `.epub` by that
/// extension, in any ASCII case.
pub proof fn lemma_file_name_and_extension(a: Seq<char>, b: Seq<char>, e: Seq<char>)
    requires
        is_name(a),
        b.len() > 0,
        forall|i: int| 0 <= i < b.len() ==> b[i] != '/' && b[i] != '.',
        forall|i: int| 0 <= i < e.len() ==> e[i] != '/' && e[i] != '.',
    ensures
        spec_file_name(a) == Some(a),
        spec_file_name(slash(a, b + seq!['.'] + e)) == Some(b + seq!['.'] + e),
        spec_file_name(slash(a, b) + seq!['/']) == Some(b),
        spec_extension_of(b + seq!['.'] + e) == Some(e),
        spec_extension_of(b) is None,
        spec_extension_of(seq!['.'] + e) is None,
        spec_is_epub(slash(a, b + seq!['.', 'e', 'p', 'u', 'b'])),
        spec_is_epub(slash(a, b + seq!['.', 'E', 'P', 'U', 'B'])),
        !spec_is_epub(slash(a, b)),
{
    let f = b + seq!['.'] + e;
    let none: Seq<Seq<char>> = Seq::empty();
    assert forall|i: int| 0 <= i < f.len() implies f[i] != '/' by {
        if i < b.len() {
            assert(f[i] == b[i]);
        } else if i > b.len() {
            assert(f[i] == e[i - b.len() - 1]);
        }
    }
    lemma_split_plain(a);
    lemma_split_plain(b);
    lemma_split_plain(f);
    lemma_split_slash(a, f);
    lemma_split_slash(a, b);
    lemma_split_slash(slash(a, b), Seq::empty());
    lemma_split_plain(Seq::empty());
    assert(seq![a] + seq![f] =~= seq![a, f]);
    assert(seq![a] + seq![b] =~= seq![a, b]);
    assert(seq![a, b] + seq![Seq::<char>::empty()] =~= seq![a, b, Seq::<char>::empty()]);
    assert(f != seq!['.', '.']) by {
        assert(f[0] == b[0]);
    }
    assert(b != seq!['.', '.']) by {
        assert(b[0] != '.');
    }
    assert(b != seq!['.']) by {
        assert(b[0] != '.');
    }
    assert(f != seq!['.']) by {
        assert(f[0] == b[0]);
    }
    assert(last_named(seq![a], 1) == Some(a));
    assert(last_named(seq![a, f], 2) == Some(f));
    assert(last_named(seq![a, b, Seq::<char>::empty()], 3) == last_named(seq![a, b, Seq::<char>::empty()], 2));
    assert(last_named(seq![a, b, Seq::<char>::empty()], 2) == Some(b));
    // extensions
    assert(f[b.len() as int] == '.');
    assert(last_dot(f, f.len() as int) == Some(b.len() as int)) by {
        let n = f.len() as int;
        assert forall|k: int| b.len() < k < n implies f[k] != '.' by {
            assert(f[k] == e[k - b.len() - 1]);
        }
        lemma_last_dot_from(f, b.len() as int, n);
    }
    assert(f.skip(b.len() as int + 1) =~= e);
    lemma_last_dot_none(b, b.len() as int);
    let g = seq!['.'] + e;
    assert(g != seq!['.', '.']) by {
        if e.len() == 1 {
            assert(g[1] == e[0]);
        }
    }
    assert(last_dot(g, g.len() as int) == Some(0int)) by {
        assert forall|k: int| 0 < k < g.len() implies g[k] != '.' by {
            assert(g[k] == e[k - 1]);
        }
        lemma_last_dot_from(g, 0, g.len() as int);
    }
    // `.epub` in either case
    reveal_strlit("epub");
    let lo = seq!['e', 'p', 'u', 'b'];
    let up = seq!['E', 'P', 'U', 'B'];
    assert(lo =~= "epub"@);
    let fl = b + seq!['.'] + lo;
    let fu = b + seq!['.'] + up;
    assert(b + seq!['.', 'e', 'p', 'u', 'b'] =~= fl);
    assert(b + seq!['.', 'E', 'P', 'U', 'B'] =~= fu);
    lemma_file_name_and_extension_plain(a, b, lo);
    lemma_file_name_and_extension_plain(a, b, up);
    assert(eq_ignore_ascii_case(lo, "epub"@));
    assert(eq_ignore_ascii_case(up, "epub"@)) by {
        assert forall|i: int| 0 <= i < 4 implies ascii_lower(#[trigger] up[i]) == ascii_lower("epub"@[i]) by {
            assert(('E' as u32) + 32 == 'e' as u32);
            assert(('P' as u32) + 32 == 'p' as u32);
            assert(('U' as u32) + 32 == 'u' as u32);
            assert(('B' as u32) + 32 == 'b' as u32);
        }
    }
}

proof fn lemma_file_name_and_extension_plain(a: Seq<char>, b: Seq<char>, e: Seq<char>)
    requires
        is_name(a),
        b.len() > 0,
        forall|i: int| 0 <= i < b.len() ==> b[i] != '/' && b[i] != '.',
        forall|i: int| 0 <= i < e.len() ==> e[i] != '/' && e[i] != '.',
    ensures
        spec_file_name(slash(a, b + seq!['.'] + e)) == Some(b + seq!['.'] + e),
        spec_extension_of(b + seq!['.'] + e) == Some(e),
{
    let f = b + seq!['.'] + e;
    assert forall|i: int| 0 <= i < f.len() implies f[i] != '/' by {
        if i < b.len() {
            assert(f[i] == b[i]);
        } else if i > b.len() {
            assert(f[i] == e[i - b.len() - 1]);
        }
    }
    lemma_split_plain(a);
    lemma_split_plain(f);
    lemma_split_slash(a, f);
    assert(seq![a] + seq![f] =~= seq![a, f]);
    assert(f != seq!['.', '.'] && f != seq!['.']) by {
        assert(f[0] == b[0]);
    }
    assert(last_named(seq![a, f], 2) == Some(f));
    assert(f[b.len() as int] == '.');
    assert(last_dot(f, f.len() as int) == Some(b.len() as int)) by {
        assert forall|k: int| b.len() < k < f.len() implies f[k] != '.' by {
            assert(f[k] == e[k - b.len() - 1]);
        }
        lemma_last_dot_from(f, b.len() as int, f.len() as int);
    }
    assert(f.skip(b.len() as int + 1) =~= e);
}

proof fn lemma_last_dot_from(s: Seq<char>, k: int, n: int)
    requires
        0 <= k < n <= s.len(),
        s[k] == '.',
        forall|m: int| k < m < n ==> s[m] != '.',
    ensures
        last_dot(s, n) == Some(k),
    decreases n - k,
{
    if n - 1 > k {
        lemma_last_dot_from(s, k, n - 1);
    }
}

/// The last named piece of a path, found by scanning.
fn file_name_chars(p: &str) -> (r: Option<Vec<char>>)
    ensures
        match r {
            Some(c) => spec_file_name(p@) == Some(c@),
            None => spec_file_name(p@) is None,
        },
{
    let cs = chars_of(p);
    let parts = crate::opf::split_path_chars(&cs);
    let ghost pv = parts@.map_values(|x: Vec<char>| x@);
    let mut n: usize = parts.len();
    while n > 0
        invariant
            pv == parts@.map_values(|x: Vec<char>| x@),
            pv == split_on(p@, '/'),
            n <= parts@.len(),
            last_named(pv, pv.len() as int) == last_named(pv, n as int),
        decreases n,
    {
        let part = &parts[n - 1];
        assert(pv[n - 1] == part@);
        let dot = part.len() == 1 && part[0] == '.';
        if part.len() > 0 && !dot {
            assert(part@ != seq!['.']) by {
                if part@ == seq!['.'] {
                    assert(part@.len() == 1 && part@[0] == '.');
                }
            }
            if part.len() == 2 && part[0] == '.' && part[1] == '.' {
                assert(part@ =~= seq!['.', '.']);
                return None;
            }
            assert(part@ != seq!['.', '.']) by {
                if part@ == seq!['.', '.'] {
                    assert(part@.len() == 2 && part@[0] == '.' && part@[1] == '.');
                }
            }
            return Some(part.clone());
        }
        assert(!is_named_part(pv[n - 1])) by {
            if part.len() > 0 {
                assert(part@ =~= seq!['.']);
            }
        }
        n -= 1;
    }
    None
}

/// `Path::file_name`, as a `String`.
pub fn file_name(p: &str) -> (r: Option<String>)
    ensures
        match r {
            Some(c) => spec_file_name(p@) == Some(c@),
            None => spec_file_name(p@) is None,
        },
{
    match file_name_chars(p) {
        Some(c) => {
            let s = string_of(&c, 0, c.len());
            assert(c@.subrange(0, c@.len() as int) =~= c@);
            Some(s)
        },
        None => None,
    }
}

/// `Path::extension` of a file name.
fn extension_of(name: &Vec<char>) -> (r: Option<String>)
    ensures
        match r {
            Some(e) => spec_extension_of(name@) == Some(e@),
            None => spec_extension_of(name@) is None,
        },
{
    if name.len() == 2 && name[0] == '.' && name[1] == '.' {
        assert(name@ =~= seq!['.', '.']);
        return None;
    }
    assert(name@ != seq!['.', '.']) by {
        if name@ == seq!['.', '.'] {
            assert(name@.len() == 2 && name@[0] == '.' && name@[1] == '.');
        }
    }
    let mut n: usize = name.len();
    while n > 0 && name[n - 1] != '.'
        invariant
            n <= name@.len(),
            last_dot(name@, name@.len() as int) == last_dot(name@, n as int),
        decreases n,
    {
        n -= 1;
    }
    if n <= 1 {
        return None;
    }
    let e = string_of(name, n, name.len());
    assert(e@ =~= name@.skip(n as int));
    Some(e)
}

/// Whether `a` equals `b` ignoring ASCII case.
pub open spec fn eq_ignore_ascii_case(a: Seq<char>, b: Seq<char>) -> bool {
    a.len() == b.len() && forall|i: int| 0 <= i < a.len() ==> ascii_lower(#[trigger] a[i]) == ascii_lower(b[i])
}

/// A character with ASCII upper-case letters mapped to lower case.
pub open spec fn ascii_lower(c: char) -> char {
    if 'A' <= c <= 'Z' {
        ((c as u32) + 32) as char
    } else {
        c
    }
}

fn to_ascii_lower(c: char) -> (r: char)
    ensures
        r == ascii_lower(c),
{
    if 'A' <= c && c <= 'Z' {
        ((c as u8) + 32) as char
    } else {
        c
    }
}

pub(crate) fn eq_ascii_ci(a: &Vec<char>, b: &Vec<char>) -> (r: bool)
    ensures
        r == eq_ignore_ascii_case(a@, b@),
{
    if a.len() != b.len() {
        return false;
    }
    let mut i: usize = 0;
    while i < a.len()
        invariant
            a@.len() == b@.len(),
            i <= a@.len(),
            forall|k: int| 0 <= k < i ==> ascii_lower(#[trigger] a@[k]) == ascii_lower(b@[k]),
        decreases a@.len() - i,
    {
        if to_ascii_lower(a[i]) != to_ascii_lower(b[i]) {
            return false;
        }
        i += 1;
    }
    true
}

/// The path's extension is `epub`, ignoring ASCII case.
pub open spec fn spec_is_epub(p: Seq<char>) -> bool {
    match spec_file_name(p) {
        Some(name) => match spec_extension_of(name) {
            Some(e) => eq_ignore_ascii_case(e, "epub"@),
            None => false,
        },
        None => false,
    }
}

/// Whether the path has the `.epub` extension, in any ASCII case.
pub fn is_epub(path: &str) -> (b: bool)
    ensures
        b == spec_is_epub(path@),
{
    match file_name_chars(path) {
        Some(name) => match extension_of(&name) {
            Some(e) => {
                let ec = chars_of(e.as_str());
                let target = chars_of("epub");
                eq_ascii_ci(&ec, &target)
            },
            None => false,
        },
        None => false,
    }
}

} // verus!
