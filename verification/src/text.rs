//! Character-level helpers shared by the HTML and EPUB logic.
use vstd::prelude::*;

verus! {

/// `String::push` appends one character.
pub assume_specification[ String::push ](string: &mut String, ch: char)
    ensures
        final(string)@ == old(string)@.push(ch),
;

/// `String::push_str` appends a string slice.
pub assume_specification[ String::push_str ](string: &mut String, s: &str)
    ensures
        final(string)@ == old(string)@ + s@,
;

/// The characters of `s`, in order.
pub fn chars_of(s: &str) -> (v: Vec<char>)
    ensures
        v@ == s@,
{
    let mut v: Vec<char> = Vec::new();
    for c in it: s.chars()
        invariant
            v@ == it.seq().take(it.index()),
    {
        v.push(c);
    }
    v
}


/// The characters `v[lo..hi]` as a `String`.
pub fn string_of(v: &Vec<char>, lo: usize, hi: usize) -> (s: String)
    requires
        lo <= hi <= v.len(),
    ensures
        s@ == v@.subrange(lo as int, hi as int),
{
    let mut s = String::new();
    let mut k = lo;
    while k < hi
        invariant
            lo <= k <= hi <= v.len(),
            s@ == v@.subrange(lo as int, k as int),
        decreases hi - k,
    {
        s.push(v[k]);
        k += 1;
        assert(s@ =~= v@.subrange(lo as int, k as int));
    }
    s
}

/// Concatenation of a sequence of strings.
pub open spec fn concat(parts: Seq<Seq<char>>) -> Seq<char>
    decreases parts.len(),
{
    if parts.len() == 0 {
        Seq::empty()
    } else {
        parts[0] + concat(parts.drop_first())
    }
}

pub proof fn lemma_concat_prepend(a: Seq<char>, rest: Seq<Seq<char>>)
    ensures
        concat(seq![a] + rest) == a + concat(rest),
{
    assert((seq![a] + rest).drop_first() =~= rest);
}


/// Equality of two string slices.
pub fn str_eq(a: &str, b: &str) -> (r: bool)
    ensures
        r == (a@ == b@),
{
    let x = chars_of(a);
    let y = chars_of(b);
    if x.len() != y.len() {
        return false;
    }
    let mut i: usize = 0;
    while i < x.len()
        invariant
            x@ == a@,
            y@ == b@,
            x.len() == y.len(),
            i <= x.len(),
            forall|k: int| 0 <= k < i ==> x@[k] == y@[k],
        decreases x.len() - i,
    {
        if x[i] != y[i] {
            return false;
        }
        i += 1;
    }
    assert(x@ =~= y@);
    true
}

/// `String` made from a string slice.
pub fn owned(s: &str) -> (r: String)
    ensures
        r@ == s@,
{
    s.to_owned()
}

/// White_Space characters of the Unicode Character Database, which is what
/// `char::is_whitespace` tests.
pub open spec fn is_unicode_ws(c: char) -> bool {
    ('\u{0009}' <= c && c <= '\u{000D}') || c == '\u{0020}' || c == '\u{0085}' || c
        == '\u{00A0}' || c == '\u{1680}' || ('\u{2000}' <= c && c <= '\u{200A}') || c
        == '\u{2028}' || c == '\u{2029}' || c == '\u{202F}' || c == '\u{205F}' || c
        == '\u{3000}'
}

/// Whether `c` is Unicode whitespace.
pub fn is_whitespace(c: char) -> (b: bool)
    ensures
        b == is_unicode_ws(c),
{
    ('\u{0009}' <= c && c <= '\u{000D}') || c == '\u{0020}' || c == '\u{0085}' || c
        == '\u{00A0}' || c == '\u{1680}' || ('\u{2000}' <= c && c <= '\u{200A}') || c
        == '\u{2028}' || c == '\u{2029}' || c == '\u{202F}' || c == '\u{205F}' || c
        == '\u{3000}'
}

/// Every character of `s` is whitespace.
pub open spec fn all_ws(s: Seq<char>) -> bool {
    forall|i: int| 0 <= i < s.len() ==> is_unicode_ws(#[trigger] s[i])
}

/// The whitespace-separated tokens of `s`, as `str::split_whitespace` yields
/// them: maximal runs of non-whitespace characters.
pub open spec fn ws_tokens(s: Seq<char>) -> Seq<Seq<char>>
    decreases s.len(),
{
    if s.len() == 0 {
        Seq::empty()
    } else {
        let rest = ws_tokens(s.drop_last());
        let c = s.last();
        if is_unicode_ws(c) {
            rest
        } else if s.len() >= 2 && !is_unicode_ws(s[s.len() - 2]) {
            rest.drop_last().push(rest.last().push(c))
        } else {
            rest.push(seq![c])
        }
    }
}


proof fn lemma_ws_tokens_nonempty_after_word(s: Seq<char>)
    requires
        s.len() > 0,
        !is_unicode_ws(s.last()),
    ensures
        ws_tokens(s).len() > 0,
        ws_tokens(s).last().len() > 0,
    decreases s.len(),
{
    let rest = ws_tokens(s.drop_last());
    if s.len() >= 2 && !is_unicode_ws(s[s.len() - 2]) {
        lemma_ws_tokens_nonempty_after_word(s.drop_last());
    }
}

/// A run of whitespace separates tokens: the tokens of `a`, a whitespace
/// character and `b` are those of `a` followed by those of `b`; and a
/// non-empty word without whitespace is a single token.
pub proof fn lemma_ws_tokens_split(a: Seq<char>, c: char, b: Seq<char>, w: Seq<char>)
    requires
        is_unicode_ws(c),
    ensures
        ws_tokens(a + seq![c] + b) == ws_tokens(a) + ws_tokens(b),
        w.len() > 0 && (forall|i: int| 0 <= i < w.len() ==> !is_unicode_ws(#[trigger] w[i]))
            ==> ws_tokens(w) == seq![w],
    decreases b.len() + w.len(),
{
    let s = a + seq![c] + b;
    if b.len() == 0 {
        assert(s.drop_last() =~= a);
        assert(ws_tokens(a) + Seq::<Seq<char>>::empty() =~= ws_tokens(a));
    } else {
        lemma_ws_tokens_split(a, c, b.drop_last(), Seq::empty());
        assert(s.drop_last() =~= a + seq![c] + b.drop_last());
        assert(s.last() == b.last());
        let ta = ws_tokens(a);
        let tb = ws_tokens(b.drop_last());
        let e = b.last();
        if is_unicode_ws(e) {
        } else if b.len() >= 2 && !is_unicode_ws(b[b.len() - 2]) {
            assert(s[s.len() - 2] == b[b.len() - 2]);
            assert(b.drop_last().last() == b[b.len() - 2]);
            lemma_ws_tokens_nonempty_after_word(b.drop_last());
            assert((ta + tb).drop_last() =~= ta + tb.drop_last());
            assert((ta + tb).last() == tb.last());
            assert((ta + tb).drop_last().push((ta + tb).last().push(e)) =~= ta + tb.drop_last().push(
                tb.last().push(e),
            ));
        } else {
            if b.len() == 1 {
                assert(s[s.len() - 2] == c);
            } else {
                assert(s[s.len() - 2] == b[b.len() - 2]);
            }
            assert((ta + tb).push(seq![e]) =~= ta + tb.push(seq![e]));
        }
    }
    if w.len() > 0 && (forall|i: int| 0 <= i < w.len() ==> !is_unicode_ws(#[trigger] w[i])) {
        if w.len() == 1 {
            assert(w.drop_last() =~= Seq::<char>::empty());
            assert(w =~= seq![w.last()]);
            assert(ws_tokens(Seq::<char>::empty()) == Seq::<Seq<char>>::empty());
            assert(Seq::<Seq<char>>::empty().push(seq![w.last()]) =~= seq![w]);
        } else {
            assert forall|i: int| 0 <= i < w.drop_last().len() implies !is_unicode_ws(
                #[trigger] w.drop_last()[i],
            ) by {
                assert(w.drop_last()[i] == w[i]);
            }
            lemma_ws_tokens_split(a, c, Seq::empty(), w.drop_last());
            assert(!is_unicode_ws(w[w.len() - 1]));
            assert(!is_unicode_ws(w[w.len() - 2]));
            assert(ws_tokens(w.drop_last()) == seq![w.drop_last()]);
            assert(w.drop_last().push(w.last()) =~= w);
            assert(seq![w.drop_last()].drop_last() =~= Seq::<Seq<char>>::empty());
            assert(seq![w.drop_last()].last() == w.drop_last());
            assert(seq![w.drop_last()].drop_last().push(w.drop_last().push(w.last())) =~= seq![w]);
        }
    }
}

/// The whitespace-separated tokens of `s`.
pub fn split_whitespace(s: &str) -> (tokens: Vec<String>)
    ensures
        tokens@.map_values(|t: String| t@) == ws_tokens(s@),
{
    let cs = chars_of(s);
    let mut done: Vec<String> = Vec::new();
    let mut cur = String::new();
    let mut in_token = false;
    let mut i: usize = 0;
    while i < cs.len()
        invariant
            cs@ == s@,
            i <= cs.len(),
            in_token == (i > 0 && !is_unicode_ws(cs@[i - 1])),
            !in_token ==> cur@.len() == 0,
            ws_tokens(cs@.take(i as int)) == if in_token {
                done@.map_values(|t: String| t@).push(cur@)
            } else {
                done@.map_values(|t: String| t@)
            },
        decreases cs.len() - i,
    {
        let c = cs[i];
        let ghost pre = cs@.take(i as int);
        assert(cs@.take(i + 1).drop_last() =~= pre);
        assert(cs@.take(i + 1).last() == c);
        if is_whitespace(c) {
            if in_token {
                let t = cur;
                done.push(t);
                cur = String::new();
                assert(done@.map_values(|t: String| t@) =~= ws_tokens(pre));
            }
            in_token = false;
        } else {
            if in_token {
                let ghost old_cur = cur@;
                cur.push(c);
                assert(cs@.take(i + 1)[i - 1] == cs@[i - 1]);
                assert(ws_tokens(pre).drop_last() =~= done@.map_values(|t: String| t@));
            } else {
                cur.push(c);
                assert(cur@ =~= seq![c]);
                if i >= 1 {
                    assert(cs@.take(i + 1)[i - 1] == cs@[i - 1]);
                }
            }
            in_token = true;
        }
        i += 1;
    }
    if in_token {
        done.push(cur);
    }
    assert(cs@.take(cs.len() as int) =~= cs@);
    proof {
        assert(done@.map_values(|t: String| t@) =~= ws_tokens(s@));
    }
    done
}


/// The decimal digit for `d < 10`.
pub open spec fn digit_char(d: nat) -> char {
    (48 + d) as char
}

/// The decimal representation of `n`, as `u32`'s `Display` writes it.
pub open spec fn decimal(n: nat) -> Seq<char>
    decreases n,
{
    if n < 10 {
        seq![digit_char(n)]
    } else {
        decimal(n / 10).push(digit_char(n % 10))
    }
}

/// The number that a string of decimal digits stands for.
pub open spec fn digits_value(s: Seq<char>) -> int
    decreases s.len(),
{
    if s.len() == 0 {
        0
    } else {
        digits_value(s.drop_last()) * 10 + (s.last() as int - '0' as int)
    }
}

/// The decimal form of `n` is made of the digits `0` to `9`, starts with `0`
/// only for zero itself, and reads back as `n`.
pub proof fn lemma_decimal_reads_back(n: nat)
    ensures
        decimal(n).len() > 0,
        forall|i: int| 0 <= i < decimal(n).len() ==> '0' <= #[trigger] decimal(n)[i] <= '9',
        n > 0 ==> decimal(n)[0] != '0',
        digits_value(decimal(n)) == n,
    decreases n,
{
    if n < 10 {
        assert(decimal(n) == seq![digit_char(n)]);
        assert(seq![digit_char(n)].drop_last() =~= Seq::<char>::empty());
        assert('0' as int == 48);
        assert(digit_char(n) as int == 48 + n);
        assert(digits_value(Seq::<char>::empty()) == 0);
    } else {
        lemma_decimal_reads_back(n / 10);
        let pre = decimal(n / 10);
        let d = decimal(n);
        assert(d == pre.push(digit_char(n % 10)));
        assert(d.drop_last() =~= pre);
        assert forall|i: int| 0 <= i < d.len() implies '0' <= #[trigger] d[i] <= '9' by {
            if i < pre.len() {
                assert(d[i] == pre[i]);
            }
        }
        assert(d[0] == pre[0]);
        assert('0' as int == 48);
        assert(digit_char(n % 10) as int == 48 + n % 10);
        assert(d.last() == digit_char(n % 10));
        assert((n / 10) * 10 + n % 10 == n);
    }
}

/// Append the decimal representation of `n`.
pub fn push_decimal(out: &mut String, n: u32)
    ensures
        final(out)@ == old(out)@ + decimal(n as nat),
    decreases n,
{
    if n >= 10 {
        push_decimal(out, n / 10);
    }
    let d = (n % 10) as u8;
    let c = (48u8 + d) as char;
    out.push(c);
    proof {
        assert(c == digit_char((n % 10) as nat));
        if n >= 10 {
            assert(old(out)@ + decimal(n as nat) =~= old(out)@ + decimal((n / 10) as nat) + seq![
                c,
            ]);
        }
    }
}

} // verus!
