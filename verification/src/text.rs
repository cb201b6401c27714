//! Conversions between strings and character vectors.

use vstd::prelude::*;

verus! {

/// Collects the characters of a vector into a string (std's
/// `FromIterator<&char> for String`); the string holds the same characters
/// in the same order.
#[verifier::external_body]
pub(crate) fn string_from_chars(v: &Vec<char>) -> (s: String)
    ensures
        s@ == v@,
{
    v.iter().collect()
}

/// The characters of a string slice (std's `str::chars`, collected), in
/// order.
#[verifier::external_body]
pub(crate) fn chars_of_str(s: &str) -> (v: Vec<char>)
    ensures
        v@ == s@,
{
    s.chars().collect()
}

/// Appends the characters of `s` to `out`.
pub fn push_str(out: &mut Vec<char>, s: &str)
    ensures
        final(out)@ == old(out)@ + s@,
{
    let mut v = chars_of_str(s);
    out.append(&mut v);
}

/// Appends the characters of `s` to `out`.
pub fn push_chars(out: &mut Vec<char>, s: &Vec<char>)
    ensures
        final(out)@ == old(out)@ + s@,
{
    let ghost start = out@;
    let mut i: usize = 0;
    while i < s.len()
        invariant
            i <= s.len(),
            out@ == start + s@.take(i as int),
        decreases s.len() - i,
    {
        out.push(s[i]);
        i = i + 1;
        assert(out@ =~= start + s@.take(i as int));
    }
    assert(s@.take(s.len() as int) =~= s@);
}

} // verus!

verus! {

/// White space as `char::is_whitespace` defines it (the Unicode
/// `White_Space` property).
pub open spec fn is_ws(c: char) -> bool {
    ||| c == ' ' || c == '\t' || c == '\n' || c == '\u{0B}' || c == '\u{0C}' || c == '\r'
    ||| c == '\u{85}' || c == '\u{A0}' || c == '\u{1680}'
    ||| '\u{2000}' <= c <= '\u{200A}'
    ||| c == '\u{2028}' || c == '\u{2029}' || c == '\u{202F}' || c == '\u{205F}' || c == '\u{3000}'
}

pub fn is_ws_exec(c: char) -> (r: bool)
    ensures
        r == is_ws(c),
{
    c == ' ' || c == '\t' || c == '\n' || c == '\u{0B}' || c == '\u{0C}' || c == '\r' || c
        == '\u{85}' || c == '\u{A0}' || c == '\u{1680}' || ('\u{2000}' <= c && c <= '\u{200A}')
        || c == '\u{2028}' || c == '\u{2029}' || c == '\u{202F}' || c == '\u{205F}' || c
        == '\u{3000}'
}

/// Length of the run of characters at the start of `s` that are not white
/// space.
pub open spec fn word_len(s: Seq<char>) -> nat
    decreases s.len(),
{
    if s.len() > 0 && !is_ws(s[0]) {
        1 + word_len(s.skip(1))
    } else {
        0
    }
}

/// The words of `s`: its maximal runs of characters that are not white
/// space, as `str::split_whitespace` gives them.
pub open spec fn words(s: Seq<char>) -> Seq<Seq<char>>
    decreases s.len(),
{
    if s.len() == 0 {
        seq![]
    } else if is_ws(s[0]) {
        words(s.skip(1))
    } else {
        let n = word_len(s);
        proof {
            lemma_word_len_le(s);
        }
        seq![s.take(n as int)] + words(s.skip(n as int))
    }
}

pub proof fn lemma_word_len_le(s: Seq<char>)
    ensures
        word_len(s) <= s.len(),
        s.len() > 0 && !is_ws(s[0]) ==> word_len(s) >= 1,
    decreases s.len(),
{
    if s.len() > 0 && !is_ws(s[0]) {
        lemma_word_len_le(s.skip(1));
    }
}

proof fn lemma_word_len(s: Seq<char>, p: int, i: int)
    requires
        0 <= p <= i <= s.len(),
        forall|j: int| p <= j < i ==> !is_ws(#[trigger] s[j]),
        i == s.len() || is_ws(s[i]),
    ensures
        word_len(s.skip(p)) == i - p,
    decreases i - p,
{
    if p < i {
        assert(s.skip(p).skip(1) =~= s.skip(p + 1));
        lemma_word_len(s, p + 1, i);
    }
}

/// The words of `s`; see `words`.
pub fn split_words(s: &Vec<char>) -> (r: Vec<Vec<char>>)
    ensures
        r@.map_values(|w: Vec<char>| w@) == words(s@),
{
    let mut out: Vec<Vec<char>> = Vec::new();
    let mut i: usize = 0;
    assert(s@.skip(0) =~= s@);
    while i < s.len()
        invariant
            i <= s.len(),
            out@.map_values(|w: Vec<char>| w@) + words(s@.skip(i as int)) == words(s@),
        decreases s.len() - i,
    {
        let ghost rest = s@.skip(i as int);
        if is_ws_exec(s[i]) {
            assert(rest.skip(1) =~= s@.skip(i + 1));
            i = i + 1;
        } else {
            let mut j = i;
            let mut w: Vec<char> = Vec::new();
            while j < s.len() && !is_ws_exec(s[j])
                invariant
                    i <= j <= s.len(),
                    forall|k: int| i <= k < j ==> !is_ws(#[trigger] s@[k]),
                    w@ == s@.subrange(i as int, j as int),
                decreases s.len() - j,
            {
                w.push(s[j]);
                j = j + 1;
                assert(w@ =~= s@.subrange(i as int, j as int));
            }
            let ghost prev = out@.map_values(|x: Vec<char>| x@);
            proof {
                lemma_word_len(s@, i as int, j as int);
                assert(rest.take(j - i) =~= s@.subrange(i as int, j as int));
                assert(rest.skip(j - i) =~= s@.skip(j as int));
                assert(prev.push(w@) + words(s@.skip(j as int)) =~= prev + words(rest));
            }
            out.push(w);
            proof {
                assert(out@.map_values(|x: Vec<char>| x@) =~= prev.push(w@));
            }
            i = j;
        }
    }
    proof {
        assert(s@.skip(i as int) =~= Seq::<char>::empty());
        assert(out@.map_values(|w: Vec<char>| w@) + Seq::<Seq<char>>::empty() =~= out@.map_values(
            |w: Vec<char>| w@,
        ));
    }
    out
}

} // verus!

verus! {

/// Length of the run of characters at the start of `s` before the first
/// newline.
pub open spec fn line_len(s: Seq<char>) -> nat
    decreases s.len(),
{
    if s.len() > 0 && s[0] != '\n' {
        1 + line_len(s.skip(1))
    } else {
        0
    }
}

pub proof fn lemma_line_len_le(s: Seq<char>)
    ensures
        line_len(s) <= s.len(),
    decreases s.len(),
{
    if s.len() > 0 && s[0] != '\n' {
        lemma_line_len_le(s.skip(1));
    }
}

/// A line without its final carriage return.
pub open spec fn strip_cr(l: Seq<char>) -> Seq<char> {
    if l.len() > 0 && l.last() == '\r' {
        l.drop_last()
    } else {
        l
    }
}

/// The lines of a text as `BufRead::lines` gives them: split at each
/// newline, a carriage return before a newline removed, no empty line after
/// a final newline.
pub open spec fn lines(s: Seq<char>) -> Seq<Seq<char>>
    decreases s.len(),
{
    if s.len() == 0 {
        seq![]
    } else {
        let k = line_len(s);
        proof {
            lemma_line_len_le(s);
        }
        if k < s.len() {
            seq![strip_cr(s.take(k as int))] + lines(s.skip(k as int + 1))
        } else {
            seq![s]
        }
    }
}

proof fn lemma_line_len(s: Seq<char>, p: int, i: int)
    requires
        0 <= p <= i <= s.len(),
        forall|j: int| p <= j < i ==> #[trigger] s[j] != '\n',
        i == s.len() || s[i] == '\n',
    ensures
        line_len(s.skip(p)) == i - p,
    decreases i - p,
{
    if p < i {
        assert(s.skip(p).skip(1) =~= s.skip(p + 1));
        lemma_line_len(s, p + 1, i);
    }
}

/// The lines of a text; see `lines`.
pub fn split_lines(s: &Vec<char>) -> (r: Vec<Vec<char>>)
    ensures
        r@.map_values(|w: Vec<char>| w@) == lines(s@),
{
    let mut out: Vec<Vec<char>> = Vec::new();
    let mut i: usize = 0;
    assert(s@.skip(0) =~= s@);
    while i < s.len()
        invariant
            i <= s.len(),
            out@.map_values(|w: Vec<char>| w@) + lines(s@.skip(i as int)) == lines(s@),
        decreases s.len() - i,
    {
        let ghost rest = s@.skip(i as int);
        let mut j = i;
        let mut w: Vec<char> = Vec::new();
        while j < s.len() && s[j] != '\n'
            invariant
                i <= j <= s.len(),
                forall|k: int| i <= k < j ==> #[trigger] s@[k] != '\n',
                w@ == s@.subrange(i as int, j as int),
            decreases s.len() - j,
        {
            w.push(s[j]);
            j = j + 1;
            assert(w@ =~= s@.subrange(i as int, j as int));
        }
        let ghost prev = out@.map_values(|x: Vec<char>| x@);
        proof {
            lemma_line_len(s@, i as int, j as int);
            assert(rest.take(j - i) =~= s@.subrange(i as int, j as int));
        }
        if j < s.len() {
            if w.len() > 0 && w[w.len() - 1] == '\r' {
                w.pop();
            }
            proof {
                assert(rest.skip(j - i + 1) =~= s@.skip(j + 1));
                assert(prev.push(w@) + lines(s@.skip(j + 1)) =~= prev + lines(rest));
            }
            out.push(w);
            proof {
                assert(out@.map_values(|x: Vec<char>| x@) =~= prev.push(w@));
            }
            i = j + 1;
        } else {
            proof {
                assert(rest =~= s@.subrange(i as int, j as int));
                assert(s@.skip(j as int) =~= Seq::<char>::empty());
                assert(prev.push(w@) + lines(s@.skip(j as int)) =~= prev + lines(rest));
            }
            out.push(w);
            proof {
                assert(out@.map_values(|x: Vec<char>| x@) =~= prev.push(w@));
            }
            i = j;
        }
    }
    proof {
        assert(s@.skip(i as int) =~= Seq::<char>::empty());
        assert(out@.map_values(|w: Vec<char>| w@) + Seq::<Seq<char>>::empty() =~= out@.map_values(
            |w: Vec<char>| w@,
        ));
    }
    out
}

/// Whether `p` occurs in `s` at position `i`.
pub fn matches_at(s: &Vec<char>, i: usize, p: &Vec<char>) -> (r: bool)
    requires
        i + p.len() <= s.len(),
    ensures
        r == (s@.subrange(i as int, i + p.len()) == p@),
{
    let mut j: usize = 0;
    while j < p.len()
        invariant
            j <= p.len(),
            i + p.len() <= s.len(),
            forall|k: int| 0 <= k < j ==> s@[i + k] == p@[k],
        decreases p.len() - j,
    {
        if s[i + j] != p[j] {
            assert(s@.subrange(i as int, i + p.len())[j as int] != p@[j as int]);
            return false;
        }
        j = j + 1;
    }
    assert(s@.subrange(i as int, i + p.len()) =~= p@);
    true
}

/// Whether two character vectors hold the same characters.
pub fn same_chars(a: &Vec<char>, b: &Vec<char>) -> (r: bool)
    ensures
        r == (a@ == b@),
{
    if a.len() != b.len() {
        return false;
    }
    let mut j: usize = 0;
    while j < a.len()
        invariant
            j <= a.len(),
            a.len() == b.len(),
            forall|k: int| 0 <= k < j ==> a@[k] == b@[k],
        decreases a.len() - j,
    {
        if a[j] != b[j] {
            return false;
        }
        j = j + 1;
    }
    assert(a@ =~= b@);
    true
}

/// Whether `v` holds the characters of `s`.
pub fn eq_str(v: &Vec<char>, s: &str) -> (r: bool)
    ensures
        r == (v@ == s@),
{
    let w = chars_of_str(s);
    same_chars(v, &w)
}

/// Whether `p` occurs in `s`.
pub open spec fn occurs_in(p: Seq<char>, s: Seq<char>) -> bool {
    exists|i: int| 0 <= i && i + p.len() <= s.len() && #[trigger] s.subrange(i, i + p.len()) == p
}

/// Whether `p` occurs in `s`; see `occurs_in`.
pub fn contains_chars(s: &Vec<char>, p: &Vec<char>) -> (r: bool)
    ensures
        r == occurs_in(p@, s@),
{
    if p.len() > s.len() {
        return false;
    }
    let last = s.len() - p.len();
    let mut i: usize = 0;
    loop
        invariant
            last == s.len() - p.len(),
            i <= last,
            forall|k: int| 0 <= k < i ==> #[trigger] s@.subrange(k, k + p.len()) != p@,
        decreases last - i,
    {
        if matches_at(s, i, p) {
            return true;
        }
        if i == last {
            return false;
        }
        i = i + 1;
    }
}

/// Number of bytes of a character in UTF-8.
pub open spec fn utf8_len(c: char) -> nat {
    if (c as u32) < 0x80 {
        1
    } else if (c as u32) < 0x800 {
        2
    } else if (c as u32) < 0x10000 {
        3
    } else {
        4
    }
}

/// Number of leading characters of `s` that take exactly `b` bytes in
/// UTF-8; `None` when no character boundary falls at byte `b`.
pub open spec fn chars_in_bytes(s: Seq<char>, b: nat) -> Option<nat>
    decreases s.len(),
{
    if b == 0 {
        Some(0)
    } else if s.len() == 0 || utf8_len(s[0]) > b {
        None
    } else {
        match chars_in_bytes(s.skip(1), (b - utf8_len(s[0])) as nat) {
            Some(k) => Some(k + 1),
            None => None,
        }
    }
}

fn utf8_len_exec(c: char) -> (r: usize)
    ensures
        r == utf8_len(c),
{
    let u = c as u32;
    if u < 0x80 {
        1
    } else if u < 0x800 {
        2
    } else if u < 0x10000 {
        3
    } else {
        4
    }
}

/// See `chars_in_bytes`.
pub fn chars_in_bytes_exec(s: &Vec<char>, b: usize) -> (r: Option<usize>)
    ensures
        r matches Some(k) ==> chars_in_bytes(s@, b as nat) == Some(k as nat),
        r is None ==> chars_in_bytes(s@, b as nat) is None,
{
    let mut i: usize = 0;
    let mut rem: usize = b;
    assert(s@.skip(0) =~= s@);
    while rem > 0
        invariant
            i <= s.len(),
            chars_in_bytes(s@, b as nat) == (match chars_in_bytes(s@.skip(i as int), rem as nat) {
                Some(k) => Some((k + i) as nat),
                None => None,
            }),
        decreases rem,
    {
        let ghost t = s@.skip(i as int);
        if i >= s.len() {
            return None;
        }
        let u = utf8_len_exec(s[i]);
        if u > rem {
            return None;
        }
        proof {
            assert(t[0] == s@[i as int]);
            assert(t.skip(1) =~= s@.skip(i + 1));
        }
        rem = rem - u;
        i = i + 1;
    }
    Some(i)
}

/// The characters of `v` from position `k` on.
pub fn chars_from(v: &Vec<char>, k: usize) -> (r: Vec<char>)
    requires
        k <= v.len(),
    ensures
        r@ == v@.skip(k as int),
{
    let mut out: Vec<char> = Vec::new();
    let mut i: usize = k;
    while i < v.len()
        invariant
            k <= i <= v.len(),
            out@ == v@.subrange(k as int, i as int),
        decreases v.len() - i,
    {
        out.push(v[i]);
        i = i + 1;
        assert(out@ =~= v@.subrange(k as int, i as int));
    }
    assert(out@ =~= v@.skip(k as int));
    out
}

} // verus!
