//! Splitting text into sentence fragments.
use vstd::prelude::*;

use crate::text::{chars_of, concat, lemma_concat_prepend, string_of};

verus! {

/// Sentence-ending characters.
pub open spec fn is_terminator(c: char) -> bool {
    c == '.' || c == '!' || c == '?'
}

/// Punctuation allowed between a terminator and the trailing whitespace
/// (closing quotes and the ellipsis).
pub open spec fn is_closing(c: char) -> bool {
    c == '\'' || c == '"' || c == '\u{201C}' || c == '\u{201D}' || c == '\u{2018}'
        || c == '\u{2019}' || c == '\u{2026}'
}

/// Whitespace that can end a sentence fragment.
pub open spec fn spec_is_break_ws(c: char) -> bool {
    c == ' ' || c == '\t' || c == '\n' || c == '\r' || c == '\u{000C}'
}

/// First index at or after `i` that does not hold closing punctuation.
pub open spec fn skip_closing(s: Seq<char>, i: int) -> int
    decreases s.len() - i,
{
    if 0 <= i < s.len() && is_closing(s[i]) {
        skip_closing(s, i + 1)
    } else {
        i
    }
}

/// First index at or after `i` that does not hold break whitespace.
pub open spec fn skip_break_ws(s: Seq<char>, i: int) -> int
    decreases s.len() - i,
{
    if 0 <= i < s.len() && spec_is_break_ws(s[i]) {
        skip_break_ws(s, i + 1)
    } else {
        i
    }
}

pub proof fn lemma_skip_closing_bounds(s: Seq<char>, i: int)
    ensures
        i <= skip_closing(s, i),
        i <= s.len() ==> skip_closing(s, i) <= s.len(),
    decreases s.len() - i,
{
    if 0 <= i < s.len() && is_closing(s[i]) {
        lemma_skip_closing_bounds(s, i + 1);
    }
}

pub proof fn lemma_skip_break_ws_bounds(s: Seq<char>, i: int)
    ensures
        i <= skip_break_ws(s, i),
        i <= s.len() ==> skip_break_ws(s, i) <= s.len(),
    decreases s.len() - i,
{
    if 0 <= i < s.len() && spec_is_break_ws(s[i]) {
        lemma_skip_break_ws_bounds(s, i + 1);
    }
}

/// When the character at `i` ends a sentence, the index just past the
/// fragment it closes: the terminator, then closing punctuation, then a
/// non-empty run of whitespace.
pub open spec fn boundary_after(s: Seq<char>, i: int) -> Option<int> {
    if 0 <= i < s.len() && is_terminator(s[i]) {
        let j = skip_closing(s, i + 1);
        if j < s.len() && spec_is_break_ws(s[j]) {
            Some(skip_break_ws(s, j))
        } else {
            None
        }
    } else {
        None
    }
}

pub proof fn lemma_boundary_after_bounds(s: Seq<char>, i: int)
    requires
        0 <= i < s.len(),
    ensures
        boundary_after(s, i) matches Some(j) ==> i < j <= s.len(),
{
    lemma_skip_closing_bounds(s, i + 1);
    let j = skip_closing(s, i + 1);
    if j < s.len() {
        lemma_skip_break_ws_bounds(s, j);
    }
}

/// The fragments of `s[start..]`, scanning for boundaries from `i`.
pub open spec fn fragments_from(s: Seq<char>, start: int, i: int) -> Seq<Seq<char>>
    decreases s.len() - i,
{
    if i < 0 || i >= s.len() {
        if 0 <= start < s.len() {
            seq![s.subrange(start, s.len() as int)]
        } else {
            Seq::empty()
        }
    } else {
        match boundary_after(s, i) {
            Some(j) => {
                proof {
                    lemma_boundary_after_bounds(s, i);
                }
                seq![s.subrange(start, j)] + fragments_from(s, j, j)
            },
            None => fragments_from(s, start, i + 1),
        }
    }
}

/// The sentence fragments of `s`.
pub open spec fn sentence_fragments(s: Seq<char>) -> Seq<Seq<char>> {
    fragments_from(s, 0, 0)
}

proof fn lemma_fragments_from(s: Seq<char>, start: int, i: int)
    requires
        0 <= start <= i <= s.len(),
    ensures
        concat(fragments_from(s, start, i)) == s.subrange(start, s.len() as int),
        forall|k: int|
            0 <= k < fragments_from(s, start, i).len() ==> #[trigger] fragments_from(
                s,
                start,
                i,
            )[k].len() > 0,
    decreases s.len() - i,
{
    if i >= s.len() {
        if start < s.len() {
            lemma_concat_prepend(s.subrange(start, s.len() as int), Seq::empty());
            assert(concat(Seq::<Seq<char>>::empty()) == Seq::<char>::empty());
            assert(s.subrange(start, s.len() as int) + Seq::<char>::empty() =~= s.subrange(
                start,
                s.len() as int,
            ));
        } else {
            assert(s.subrange(start, s.len() as int) =~= Seq::<char>::empty());
        }
    } else {
        lemma_boundary_after_bounds(s, i);
        match boundary_after(s, i) {
            Some(j) => {
                lemma_fragments_from(s, j, j);
                lemma_concat_prepend(s.subrange(start, j), fragments_from(s, j, j));
                assert(s.subrange(start, j) + s.subrange(j, s.len() as int) =~= s.subrange(
                    start,
                    s.len() as int,
                ));
                let fs = fragments_from(s, start, i);
                let rest = fragments_from(s, j, j);
                assert forall|k: int| 0 <= k < fs.len() implies #[trigger] fs[k].len() > 0 by {
                    if k > 0 {
                        assert(fs[k] == rest[k - 1]);
                    }
                }
            },
            None => {
                lemma_fragments_from(s, start, i + 1);
            },
        }
    }
}

/// Joining the sentence fragments of a text gives back the text exactly, and
/// no fragment is empty.
pub proof fn lemma_fragments_rejoin(s: Seq<char>)
    ensures
        concat(sentence_fragments(s)) == s,
        forall|k: int|
            0 <= k < sentence_fragments(s).len() ==> #[trigger] sentence_fragments(s)[k].len()
                > 0,
{
    lemma_fragments_from(s, 0, 0);
    assert(s.subrange(0, s.len() as int) =~= s);
}

/// `.`, `!` or `?`: the characters after which a sentence can end.
pub open spec fn ends_sentence(c: char) -> bool {
    c == '.' || c == '!' || c == '?'
}

/// Closing quotes, the ellipsis, and the whitespace that ends a fragment.
pub open spec fn trails_sentence(c: char) -> bool {
    ||| c == '\'' || c == '"' || c == '\u{201C}' || c == '\u{201D}' || c == '\u{2018}'
        || c == '\u{2019}' || c == '\u{2026}'
    ||| c == ' ' || c == '\t' || c == '\n' || c == '\r' || c == '\u{000C}'
}

/// A fragment that closes a sentence: it ends in whitespace, and before that
/// there is a `.`, `!` or `?` followed only by closing punctuation and
/// whitespace.
pub open spec fn closes_sentence(f: Seq<char>) -> bool {
    &&& f.len() > 0
    &&& (f.last() == ' ' || f.last() == '\t' || f.last() == '\n' || f.last() == '\r' || f.last()
        == '\u{000C}')
    &&& exists|i: int|
        0 <= i < f.len() && ends_sentence(#[trigger] f[i]) && forall|m: int|
            i < m < f.len() ==> trails_sentence(#[trigger] f[m])
}

proof fn lemma_skip_closing_all(s: Seq<char>, i: int)
    requires
        0 <= i,
    ensures
        forall|m: int| i <= m < skip_closing(s, i) ==> 0 <= m < s.len() && is_closing(#[trigger] s[m]),
    decreases s.len() - i,
{
    lemma_skip_closing_bounds(s, i);
    if 0 <= i < s.len() && is_closing(s[i]) {
        lemma_skip_closing_all(s, i + 1);
        assert forall|m: int| i <= m < skip_closing(s, i) implies 0 <= m < s.len() && is_closing(
            #[trigger] s[m],
        ) by {
            if m > i {
                assert(i + 1 <= m < skip_closing(s, i + 1));
            }
        }
    }
}

proof fn lemma_skip_break_ws_all(s: Seq<char>, i: int)
    requires
        0 <= i,
    ensures
        forall|m: int| i <= m < skip_break_ws(s, i) ==> 0 <= m < s.len() && spec_is_break_ws(
            #[trigger] s[m],
        ),
    decreases s.len() - i,
{
    lemma_skip_break_ws_bounds(s, i);
    if 0 <= i < s.len() && spec_is_break_ws(s[i]) {
        lemma_skip_break_ws_all(s, i + 1);
        assert forall|m: int| i <= m < skip_break_ws(s, i) implies 0 <= m < s.len()
            && spec_is_break_ws(#[trigger] s[m]) by {
            if m > i {
                assert(i + 1 <= m < skip_break_ws(s, i + 1));
            }
        }
    }
}

/// A boundary after `i` comes after a terminator at `i` and closes a
/// sentence, from any earlier start.
proof fn lemma_boundary_closes(s: Seq<char>, start: int, i: int)
    requires
        0 <= start <= i < s.len(),
        boundary_after(s, i) is Some,
    ensures
        closes_sentence(s.subrange(start, boundary_after(s, i)->Some_0)),
{
    let j0 = skip_closing(s, i + 1);
    lemma_skip_closing_bounds(s, i + 1);
    lemma_skip_closing_all(s, i + 1);
    lemma_skip_break_ws_bounds(s, j0);
    lemma_skip_break_ws_all(s, j0);
    let j = boundary_after(s, i)->Some_0;
    assert(j == skip_break_ws(s, j0));
    assert(j0 < s.len() && spec_is_break_ws(s[j0]));
    lemma_skip_break_ws_bounds(s, j0 + 1);
    assert(j == skip_break_ws(s, j0 + 1));
    assert(j0 < j);
    let f = s.subrange(start, j);
    assert(f.last() == s[j - 1]);
    assert(spec_is_break_ws(s[j - 1]));
    assert(ends_sentence(f[i - start]));
    assert forall|m: int| i - start < m < f.len() implies trails_sentence(#[trigger] f[m]) by {
        assert(f[m] == s[m + start]);
        if m + start < j0 {
            assert(is_closing(s[m + start]));
        } else {
            assert(spec_is_break_ws(s[m + start]));
        }
    }
}

proof fn lemma_fragments_from_close(s: Seq<char>, start: int, i: int)
    requires
        0 <= start <= i,
    ensures
        forall|k: int|
            0 <= k < fragments_from(s, start, i).len() - 1 ==> closes_sentence(
                #[trigger] fragments_from(s, start, i)[k],
            ),
    decreases s.len() - i,
{
    if i < s.len() {
        lemma_boundary_after_bounds(s, i);
        match boundary_after(s, i) {
            Some(j) => {
                lemma_boundary_closes(s, start, i);
                lemma_fragments_from_close(s, j, j);
                let fs = fragments_from(s, start, i);
                let rest = fragments_from(s, j, j);
                assert forall|k: int| 0 <= k < fs.len() - 1 implies closes_sentence(#[trigger] fs[k]) by {
                    if k > 0 {
                        assert(fs[k] == rest[k - 1]);
                    } else {
                        assert(fs[0] == s.subrange(start, j));
                    }
                }
            },
            None => {
                lemma_fragments_from_close(s, start, i + 1);
                assert(fragments_from(s, start, i) == fragments_from(s, start, i + 1));
            },
        }
    } else {
        assert(fragments_from(s, start, i).len() <= 1);
    }
}

/// Every fragment but the last closes a sentence: it ends in whitespace that
/// follows a `.`, `!` or `?` and nothing but closing punctuation. So a
/// fragment never ends after a comma or any other character.
pub proof fn lemma_fragments_close_sentences(s: Seq<char>)
    ensures
        forall|k: int|
            0 <= k < sentence_fragments(s).len() - 1 ==> closes_sentence(
                #[trigger] sentence_fragments(s)[k],
            ),
{
    lemma_fragments_from_close(s, 0, 0);
}

/// Closing quotes and the ellipsis.
pub open spec fn closing_mark(c: char) -> bool {
    c == '\'' || c == '"' || c == '\u{201C}' || c == '\u{201D}' || c == '\u{2018}' || c
        == '\u{2019}' || c == '\u{2026}'
}

/// Space, tab, line feed, carriage return and form feed.
pub open spec fn break_space(c: char) -> bool {
    c == ' ' || c == '\t' || c == '\n' || c == '\r' || c == '\u{000C}'
}

/// Every sentence end in `f` (a `.`, `!` or `?`, then closing marks, then a
/// break space) is its last: from that break space on, `f` holds only
/// break spaces.
pub open spec fn ends_at_most_once(f: Seq<char>) -> bool {
    forall|k: int, m: int|
        #![trigger f[k], f[m]]
        0 <= k < m < f.len() && ends_sentence(f[k]) && break_space(f[m]) && (forall|q: int|
            k < q < m ==> closing_mark(#[trigger] f[q])) ==> (forall|q: int|
            m <= q < f.len() ==> break_space(#[trigger] f[q]))
}

proof fn lemma_skip_closing_to(s: Seq<char>, q: int, m: int)
    requires
        0 <= q <= m < s.len(),
        !closing_mark(s[m]),
        forall|r: int| q <= r < m ==> closing_mark(#[trigger] s[r]),
    ensures
        skip_closing(s, q) == m,
    decreases m - q,
{
    if q < m {
        lemma_skip_closing_to(s, q + 1, m);
    }
}

/// A sentence end at `k` whose break space stands at `m` is a boundary.
proof fn lemma_end_gives_boundary(s: Seq<char>, k: int, m: int)
    requires
        0 <= k < m < s.len(),
        ends_sentence(s[k]),
        break_space(s[m]),
        forall|q: int| k < q < m ==> closing_mark(#[trigger] s[q]),
    ensures
        skip_closing(s, k + 1) == m,
        boundary_after(s, k) == Some(skip_break_ws(s, m)),
{
    lemma_skip_closing_to(s, k + 1, m);
}

proof fn lemma_fragments_from_once(s: Seq<char>, start: int, i: int)
    requires
        0 <= start <= i <= s.len(),
        forall|k: int| start <= k < i ==> #[trigger] boundary_after(s, k) is None,
    ensures
        forall|n: int|
            0 <= n < fragments_from(s, start, i).len() ==> ends_at_most_once(
                #[trigger] fragments_from(s, start, i)[n],
            ),
    decreases s.len() - i,
{
    let fs = fragments_from(s, start, i);
    if i >= s.len() {
        if start < s.len() {
            let f = s.subrange(start, s.len() as int);
            assert(fs[0] == f);
            assert forall|k: int, m: int|
                #![trigger f[k], f[m]]
                0 <= k < m < f.len() && ends_sentence(f[k]) && break_space(f[m]) && (forall|q: int|
                    k < q < m ==> closing_mark(#[trigger] f[q])) implies (forall|q: int|
                m <= q < f.len() ==> break_space(#[trigger] f[q])) by {
                assert forall|q: int| start + k < q < start + m implies closing_mark(
                    #[trigger] s[q],
                ) by {
                    assert(s[q] == f[q - start]);
                }
                lemma_end_gives_boundary(s, start + k, start + m);
                assert(boundary_after(s, start + k) is None);
            }
            assert(fs.len() == 1);
        } else {
            assert(fs.len() == 0);
        }
    } else {
        lemma_boundary_after_bounds(s, i);
        match boundary_after(s, i) {
            Some(j) => {
                lemma_fragments_from_once(s, j, j);
                let j0 = skip_closing(s, i + 1);
                lemma_skip_closing_bounds(s, i + 1);
                lemma_skip_closing_all(s, i + 1);
                lemma_skip_break_ws_bounds(s, j0);
                lemma_skip_break_ws_all(s, j0);
                let f = s.subrange(start, j);
                assert(fs[0] == f);
                assert forall|k: int, m: int|
                    #![trigger f[k], f[m]]
                    0 <= k < m < f.len() && ends_sentence(f[k]) && break_space(f[m]) && (forall|
                        q: int,
                    |
                        k < q < m ==> closing_mark(#[trigger] f[q])) implies (forall|q: int|
                    m <= q < f.len() ==> break_space(#[trigger] f[q])) by {
                    assert forall|q: int| start + k < q < start + m implies closing_mark(
                        #[trigger] s[q],
                    ) by {
                        assert(s[q] == f[q - start]);
                    }
                    assert(s[start + k] == f[k]);
                    assert(s[start + m] == f[m]);
                    lemma_end_gives_boundary(s, start + k, start + m);
                    if start + k < i {
                        assert(boundary_after(s, start + k) is None);
                    } else if start + k == i {
                        assert forall|q: int| m <= q < f.len() implies break_space(
                            #[trigger] f[q],
                        ) by {
                            assert(f[q] == s[start + q]);
                            assert(j0 <= start + q < j);
                        }
                    } else {
                        assert(i + 1 <= start + k < j);
                        if start + k < j0 {
                            assert(is_closing(s[start + k]));
                        } else {
                            assert(spec_is_break_ws(s[start + k]));
                        }
                    }
                }
                assert forall|n: int| 0 <= n < fs.len() implies ends_at_most_once(
                    #[trigger] fs[n],
                ) by {
                    if n > 0 {
                        assert(fs[n] == fragments_from(s, j, j)[n - 1]);
                    }
                }
            },
            None => {
                lemma_fragments_from_once(s, start, i + 1);
                assert(fs == fragments_from(s, start, i + 1));
            },
        }
    }
}

/// No fragment holds a sentence end before its own: after a `.`, `!` or
/// `?` that is followed by closing marks and a break space, the rest of the
/// fragment is that run of break spaces. So the text is split at every
/// sentence end.
pub proof fn lemma_fragments_split_every_sentence(s: Seq<char>)
    ensures
        forall|n: int|
            0 <= n < sentence_fragments(s).len() ==> ends_at_most_once(
                #[trigger] sentence_fragments(s)[n],
            ),
{
    lemma_fragments_from_once(s, 0, 0);
}

fn is_terminator_char(c: char) -> (b: bool)
    ensures
        b == is_terminator(c),
{
    c == '.' || c == '!' || c == '?'
}

fn is_closing_char(c: char) -> (b: bool)
    ensures
        b == is_closing(c),
{
    c == '\'' || c == '"' || c == '\u{201C}' || c == '\u{201D}' || c == '\u{2018}' || c
        == '\u{2019}' || c == '\u{2026}'
}

/// Whitespace that can end a sentence fragment.
pub fn is_break_ws(c: char) -> (b: bool)
    ensures
        b == spec_is_break_ws(c),
{
    c == ' ' || c == '\t' || c == '\n' || c == '\r' || c == '\u{000C}'
}

/// Split text into sentence fragments. A boundary is a terminator, then any
/// closing punctuation, then a run of whitespace; the fragment keeps all three
/// so re-joining the fragments reproduces the original text exactly.
pub fn split_sentences(text: &str) -> (fragments: Vec<String>)
    ensures
        fragments@.len() == sentence_fragments(text@).len(),
        forall|k: int|
            0 <= k < fragments@.len() ==> #[trigger] fragments@[k]@ == sentence_fragments(
                text@,
            )[k],
{
    let chars = chars_of(text);
    let ghost s = text@;
    let n = chars.len();
    let mut fragments: Vec<String> = Vec::new();
    let mut start: usize = 0;
    let mut i: usize = 0;
    while i < n
        invariant
            chars@ == s,
            n == s.len(),
            start <= i <= n,
            fragments_from(s, 0, 0) == fragments@.map_values(|f: String| f@) + fragments_from(
                s,
                start as int,
                i as int,
            ),
        decreases n - i,
    {
        if is_terminator_char(chars[i]) {
            let mut j = i + 1;
            while j < n && is_closing_char(chars[j])
                invariant
                    chars@ == s,
                    n == s.len(),
                    i < j <= n,
                    skip_closing(s, i + 1) == skip_closing(s, j as int),
                decreases n - j,
            {
                j += 1;
            }
            if j < n && is_break_ws(chars[j]) {
                let ghost j0 = j;
                while j < n && is_break_ws(chars[j])
                    invariant
                        chars@ == s,
                        n == s.len(),
                        i < j <= n,
                        skip_break_ws(s, j0 as int) == skip_break_ws(s, j as int),
                    decreases n - j,
                {
                    j += 1;
                }
                assert(boundary_after(s, i as int) == Some(j as int));
                let frag = string_of(&chars, start, j);
                let ghost prev = fragments@;
                fragments.push(frag);
                assert(fragments@.map_values(|f: String| f@) =~= prev.map_values(|f: String| f@)
                    + seq![s.subrange(start as int, j as int)]);
                start = j;
                i = j;
                continue;
            }
        }
        i += 1;
    }
    if start < n {
        let frag = string_of(&chars, start, n);
        let ghost prev = fragments@;
        fragments.push(frag);
        assert(fragments@.map_values(|f: String| f@) =~= prev.map_values(|f: String| f@) + seq![
            s.subrange(start as int, n as int),
        ]);
    }
    assert(fragments_from(s, start as int, i as int) == (if start < n {
        seq![s.subrange(start as int, n as int)]
    } else {
        Seq::<Seq<char>>::empty()
    }));
    assert(fragments@.map_values(|f: String| f@) =~= fragments_from(s, 0, 0));
    assert forall|k: int| 0 <= k < fragments@.len() implies #[trigger] fragments@[k]@
        == sentence_fragments(text@)[k] by {
        assert(fragments@.map_values(|f: String| f@)[k] == fragments@[k]@);
    }
    fragments
}

} // verus!
