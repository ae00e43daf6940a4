//! Texts as sequences of characters: finding and splitting at a delimiter, whitespace and
//! trimming, on `Seq<char>` and on `&str`.

use vstd::prelude::*;
use vstd::std_specs::iter::IteratorSpec;
use vstd::string::*;
use vstd::utf8::*;
use crate::encoding::{
    lemma_ascii_byte_boundaries, lemma_decode_parts, lemma_encode_concat,
    lemma_encoded_prefix_boundary, lemma_encoding_begins_character, lemma_encode_injective,
    lemma_encode_len,
};

verus! {

/// `pat` stands in `s` at index `i`.
pub open spec fn occurs_at<T>(s: Seq<T>, pat: Seq<T>, i: int) -> bool {
    0 <= i && i + pat.len() <= s.len() && s.subrange(i, i + pat.len()) == pat
}

/// `pat` stands in `s` at index `i` and at no smaller index.
pub open spec fn first_at<T>(s: Seq<T>, pat: Seq<T>, i: int) -> bool {
    occurs_at(s, pat, i) && forall|j: int| 0 <= j < i ==> !occurs_at(s, pat, j)
}

/// The index of the first occurrence of `pat` in `s`, if there is one.
pub open spec fn find<T>(s: Seq<T>, pat: Seq<T>) -> Option<int> {
    if exists|i: int| first_at(s, pat, i) {
        Some(choose|i: int| first_at(s, pat, i))
    } else {
        None
    }
}

/// What stands before the first occurrence of `pat` in `s`, and what stands behind it.
pub open spec fn split_once_spec(s: Seq<char>, pat: Seq<char>) -> Option<(Seq<char>, Seq<char>)> {
    match find(s, pat) {
        Some(i) => Some((s.take(i), s.skip(i + pat.len()))),
        None => None,
    }
}

/// The first occurrence is where `find` says.
pub proof fn lemma_find_first<T>(s: Seq<T>, pat: Seq<T>, i: int)
    requires
        first_at(s, pat, i),
    ensures
        find(s, pat) == Some(i),
{
}

/// Where `pat` stands in `s` at all, it stands somewhere first.
pub proof fn lemma_first_exists<T>(s: Seq<T>, pat: Seq<T>, i: int)
    requires
        occurs_at(s, pat, i),
    ensures
        exists|k: int| 0 <= k <= i && first_at(s, pat, k),
    decreases i,
{
    if exists|j: int| 0 <= j < i && occurs_at(s, pat, j) {
        let j = choose|j: int| 0 <= j < i && occurs_at(s, pat, j);
        lemma_first_exists(s, pat, j);
    } else {
        assert(first_at(s, pat, i));
    }
}

/// `find` finds nothing only where `pat` stands nowhere in `s`.
pub proof fn lemma_find_none<T>(s: Seq<T>, pat: Seq<T>)
    requires
        find(s, pat) is None,
    ensures
        forall|j: int| !occurs_at(s, pat, j),
{
    assert forall|j: int| !occurs_at(s, pat, j) by {
        if occurs_at(s, pat, j) {
            lemma_first_exists(s, pat, j);
        }
    }
}

/// What stands behind the first occurrence does not move it.
pub proof fn lemma_first_at_extends<T>(s: Seq<T>, pat: Seq<T>, i: int, more: Seq<T>)
    requires
        first_at(s, pat, i),
    ensures
        first_at(s + more, pat, i),
{
    assert((s + more).subrange(i, i + pat.len()) =~= s.subrange(i, i + pat.len()));
    assert forall|j: int| 0 <= j < i implies !occurs_at(s + more, pat, j) by {
        assert(!occurs_at(s, pat, j));
        assert((s + more).subrange(j, j + pat.len()) =~= s.subrange(j, j + pat.len()));
    }
}

/// A text is split at the end of `before` where `pat` stands there first.
pub proof fn lemma_split_once_at(before: Seq<char>, pat: Seq<char>, after: Seq<char>)
    requires
        first_at(before + pat, pat, before.len() as int),
    ensures
        split_once_spec(before + pat + after, pat) == Some((before, after)),
{
    let s = before + pat + after;
    lemma_first_at_extends(before + pat, pat, before.len() as int, after);
    lemma_find_first(s, pat, before.len() as int);
    assert(s.take(before.len() as int) =~= before);
    assert(s.skip((before.len() + pat.len()) as int) =~= after);
}

/// The two parts that a text is split into make the text up again, around `pat`, which
/// does not stand earlier in it.
pub proof fn lemma_split_once_parts(s: Seq<char>, pat: Seq<char>)
    ensures
        split_once_spec(s, pat) matches Some((before, after)) ==> s == before + pat + after
            && first_at(before + pat, pat, before.len() as int),
{
    if let Some((before, after)) = split_once_spec(s, pat) {
        let i = find(s, pat)->Some_0;
        assert(first_at(s, pat, i));
        assert(s =~= before + pat + after);
        assert((before + pat).subrange(i, i + pat.len()) =~= pat);
        assert forall|j: int| 0 <= j < i implies !occurs_at(before + pat, pat, j) by {
            assert(!occurs_at(s, pat, j));
            assert((before + pat).subrange(j, j + pat.len()) =~= s.subrange(j, j + pat.len()));
        }
    }
}

/// A single character stands first behind a text that does not hold it.
pub proof fn lemma_first_char(before: Seq<char>, c: char)
    ensures
        first_at(before + seq![c], seq![c], before.len() as int) <==> !before.contains(c),
{
    let s = before + seq![c];
    let pat = seq![c];
    assert(s.subrange(before.len() as int, before.len() as int + 1) =~= pat);
    if !before.contains(c) {
        assert forall|j: int| 0 <= j < before.len() implies !occurs_at(s, pat, j) by {
            if occurs_at(s, pat, j) {
                assert(s.subrange(j, j + 1)[0] == c);
                assert(before[j] == c);
            }
        }
    } else {
        let k = choose|k: int| 0 <= k < before.len() && before[k] == c;
        assert(s.subrange(k, k + 1) =~= pat);
        assert(occurs_at(s, pat, k));
    }
}

/// A text that does not hold a character cannot be split at it.
pub proof fn lemma_no_char_no_split(s: Seq<char>, c: char)
    requires
        !s.contains(c),
    ensures
        split_once_spec(s, seq![c]) is None,
{
    assert forall|j: int| !first_at(s, seq![c], j) by {
        if occurs_at(s, seq![c], j) {
            assert(s.subrange(j, j + 1)[0] == c);
            assert(s[j] == c);
        }
    }
}

/// A text that cannot be split at a character does not hold it.
pub proof fn lemma_no_split_no_char(s: Seq<char>, c: char)
    requires
        split_once_spec(s, seq![c]) is None,
    ensures
        !s.contains(c),
{
    lemma_find_none(s, seq![c]);
    if s.contains(c) {
        let k = choose|k: int| 0 <= k < s.len() && s[k] == c;
        assert(s.subrange(k, k + 1) =~= seq![c]);
        assert(occurs_at(s, seq![c], k));
    }
}

/// What stands before the place where a text is split at a character does not hold it.
pub proof fn lemma_split_at_char(s: Seq<char>, c: char)
    ensures
        split_once_spec(s, seq![c]) matches Some((before, _)) ==> !before.contains(c),
{
    if let Some((before, after)) = split_once_spec(s, seq![c]) {
        lemma_split_once_parts(s, seq![c]);
        lemma_first_char(before, c);
    }
}

/// A part of a text holds no character that the text does not hold.
pub proof fn lemma_part_holds_no_more(s: Seq<char>, part: Seq<char>, i: int, c: char)
    requires
        0 <= i,
        i + part.len() <= s.len(),
        part == s.subrange(i, i + part.len()),
        !s.contains(c),
    ensures
        !part.contains(c),
{
    if part.contains(c) {
        let k = choose|k: int| 0 <= k < part.len() && part[k] == c;
        assert(s[i + k] == c);
    }
}

/// Compares the bytes of `hay` from `at` on with `pat`.
fn matches_at(hay: &[u8], pat: &[u8], at: usize) -> (r: bool)
    requires
        at + pat@.len() <= hay@.len(),
    ensures
        r == occurs_at(hay@, pat@, at as int),
{
    let n: usize = hay.len();
    let m: usize = pat.len();
    let mut k: usize = 0;
    while k < m
        invariant
            k <= m,
            m == pat@.len(),
            n == hay@.len(),
            at + m <= n,
            forall|j: int| 0 <= j < k ==> hay@[at + j] == pat@[j],
        decreases m - k,
    {
        if hay[at + k] != pat[k] {
            proof {
                assert(hay@.subrange(at as int, at + m)[k as int] == hay@[at + k]);
            }
            return false;
        }
        k += 1;
    }
    proof {
        assert(hay@.subrange(at as int, at + m) =~= pat@);
    }
    true
}

/// The index of the first occurrence of `pat` among the bytes of `hay`.
fn find_bytes(hay: &[u8], pat: &[u8]) -> (r: Option<usize>)
    ensures
        match r {
            Some(i) => first_at(hay@, pat@, i as int),
            None => forall|j: int| !occurs_at(hay@, pat@, j),
        },
{
    let n: usize = hay.len();
    let m: usize = pat.len();
    if m > n {
        return None;
    }
    let last: usize = n - m;
    let mut i: usize = 0;
    loop
        invariant
            n == hay@.len(),
            m == pat@.len(),
            last == n - m,
            i <= last,
            forall|j: int| 0 <= j < i ==> !occurs_at(hay@, pat@, j),
        decreases last - i,
    {
        if matches_at(hay, pat, i) {
            return Some(i);
        }
        if i == last {
            return None;
        }
        i += 1;
    }
}

/// An occurrence of `pat` in `s` is an occurrence of its encoding in the encoding of `s`,
/// behind the encoding of what stands before it.
proof fn lemma_occurrence_in_bytes(s: Seq<char>, pat: Seq<char>, j: int)
    requires
        occurs_at(s, pat, j),
    ensures
        occurs_at(encode_utf8(s), encode_utf8(pat), encode_utf8(s.take(j)).len() as int),
{
    let a = s.take(j);
    let c = s.skip(j + pat.len());
    assert(s =~= (a + pat) + c);
    lemma_encode_concat(a + pat, c);
    lemma_encode_concat(a, pat);
    let n = encode_utf8(a).len() as int;
    assert(encode_utf8(s).subrange(n, n + encode_utf8(pat).len()) =~= encode_utf8(pat));
}

/// A shorter beginning of a text has a shorter encoding.
proof fn lemma_shorter_prefix(s: Seq<char>, j: int, k: int)
    requires
        0 <= j < k <= s.len(),
    ensures
        encode_utf8(s.take(j)).len() < encode_utf8(s.take(k)).len(),
{
    let mid = s.subrange(j, k);
    assert(s.take(k) =~= s.take(j) + mid);
    lemma_encode_concat(s.take(j), mid);
    lemma_encode_len(mid);
}

/// The first occurrence of an encoded text in a valid encoding begins where a character
/// begins.
proof fn lemma_occurrence_begins_character(hay: Seq<u8>, pat: Seq<char>, i: int)
    requires
        valid_utf8(hay),
        first_at(hay, encode_utf8(pat), i),
    ensures
        is_char_boundary(hay, i),
{
    let needle = encode_utf8(pat);
    if pat.len() == 0 {
        assert(hay.subrange(0, 0) =~= needle);
        assert(occurs_at(hay, needle, 0));
        is_char_boundary_start_end_of_seq(hay);
    } else {
        lemma_encoding_begins_character(pat);
        assert(hay.subrange(i, i + needle.len())[0] == hay[i]);
        is_char_boundary_iff_not_is_continuation_byte(hay, i);
    }
}

/// A text whose encoding is made up of three encodings, the second of them that of `pat`
/// and first in it behind the first, is split at `pat` into the first and the third.
proof fn lemma_split_of_encodings(
    s: Seq<char>,
    a: Seq<char>,
    p: Seq<char>,
    b: Seq<char>,
    pat: Seq<char>,
)
    requires
        encode_utf8(s) == encode_utf8(a) + (encode_utf8(p) + encode_utf8(b)),
        encode_utf8(p) == encode_utf8(pat),
        first_at(encode_utf8(s), encode_utf8(pat), encode_utf8(a).len() as int),
    ensures
        split_once_spec(s, pat) == Some((a, b)),
{
    lemma_encode_injective(p, pat);
    lemma_encode_concat(pat, b);
    lemma_decode_parts(s, a, pat + b);
    let k = a.len() as int;
    assert(s.subrange(k, k + pat.len()) =~= pat);
    assert(s.take(k) =~= a);
    assert(s.skip(k + pat.len()) =~= b);
    assert forall|j: int| 0 <= j < k implies !occurs_at(s, pat, j) by {
        if occurs_at(s, pat, j) {
            lemma_occurrence_in_bytes(s, pat, j);
            lemma_shorter_prefix(s, j, k);
        }
    }
    assert(first_at(s, pat, k));
}

/// Splits `s` at the first occurrence of `pat`: `None` where `pat` stands nowhere in `s`,
/// else what stands before that occurrence and what stands behind it.
pub fn split_once<'a>(s: &'a str, pat: &str) -> (r: Option<(&'a str, &'a str)>)
    ensures
        match r {
            Some((a, b)) => split_once_spec(s@, pat@) == Some((a@, b@)),
            None => split_once_spec(s@, pat@) is None,
        },
{
    let hay = s.as_bytes();
    let needle = pat.as_bytes();
    proof {
        encode_utf8_valid_utf8(s@);
    }
    match find_bytes(hay, needle) {
        None => {
            proof {
                assert forall|j: int| !first_at(s@, pat@, j) by {
                    if occurs_at(s@, pat@, j) {
                        lemma_occurrence_in_bytes(s@, pat@, j);
                    }
                }
            }
            None
        },
        Some(i) => {
            let m: usize = needle.len();
            proof {
                lemma_occurrence_begins_character(hay@, pat@, i as int);
            }
            let (a, tail) = s.split_at(i);
            proof {
                encode_utf8_valid_utf8(tail@);
                assert(tail.spec_bytes().subrange(0, m as int) =~= needle@);
                lemma_encoded_prefix_boundary(tail.spec_bytes(), pat@);
            }
            let (p, b) = tail.split_at(m);
            proof {
                assert(tail.spec_bytes() =~= p.spec_bytes() + b.spec_bytes());
                assert(s.spec_bytes() =~= a.spec_bytes() + tail.spec_bytes());
                lemma_split_of_encodings(s@, a@, p@, b@, pat@);
            }
            Some((a, b))
        },
    }
}

/// `s` without its last character, where that is a newline.
pub open spec fn strip_newline_spec(s: Seq<char>) -> Seq<char> {
    if s.len() > 0 && s.last() == '\n' {
        s.drop_last()
    } else {
        s
    }
}

/// Removes one newline from the end of `s`, if it ends in one.
pub fn strip_newline<'a>(s: &'a str) -> (r: &'a str)
    ensures
        r@ == strip_newline_spec(s@),
{
    let bytes = s.as_bytes();
    let n: usize = bytes.len();
    let ghost newline = seq!['\n'];
    proof {
        encode_utf8_valid_utf8(s@);
        is_ascii_chars_encode_utf8(newline);
        assert(encode_utf8(newline) =~= seq![0x0au8]);
    }
    if n > 0 && bytes[n - 1] == 0x0a {
        proof {
            lemma_ascii_byte_boundaries(bytes@, n - 1);
        }
        let (a, last) = s.split_at(n - 1);
        proof {
            assert(last.spec_bytes() =~= encode_utf8(newline));
            lemma_encode_injective(last@, newline);
            assert(s.spec_bytes() =~= a.spec_bytes() + last.spec_bytes());
            lemma_decode_parts(s@, a@, last@);
            assert(s@.drop_last() =~= a@);
        }
        a
    } else {
        proof {
            lemma_encode_len(s@);
            if s@.len() > 0 && s@.last() == '\n' {
                assert(s@ =~= s@.drop_last() + newline);
                lemma_encode_concat(s@.drop_last(), newline);
            }
        }
        s
    }
}

/// Whether two strings hold the same text.
pub fn str_eq(a: &str, b: &str) -> (r: bool)
    ensures
        r == (a@ == b@),
{
    let x = a.as_bytes();
    let y = b.as_bytes();
    let n: usize = x.len();
    if n != y.len() {
        return false;
    }
    let mut i: usize = 0;
    while i < n
        invariant
            i <= n,
            n == x@.len(),
            n == y@.len(),
            x@ == encode_utf8(a@),
            y@ == encode_utf8(b@),
            forall|j: int| 0 <= j < i ==> x@[j] == y@[j],
        decreases n - i,
    {
        if x[i] != y[i] {
            return false;
        }
        i += 1;
    }
    proof {
        assert(x@ =~= y@);
        lemma_encode_injective(a@, b@);
    }
    true
}

/// The characters that count as whitespace: those with the Unicode property `White_Space`.
pub open spec fn is_whitespace_spec(c: char) -> bool {
    ||| '\u{9}' <= c <= '\u{d}'
    ||| c == ' '
    ||| c == '\u{85}'
    ||| c == '\u{a0}'
    ||| c == '\u{1680}'
    ||| '\u{2000}' <= c <= '\u{200a}'
    ||| c == '\u{2028}'
    ||| c == '\u{2029}'
    ||| c == '\u{202f}'
    ||| c == '\u{205f}'
    ||| c == '\u{3000}'
}

/// Whether `c` is whitespace.
#[verifier::when_used_as_spec(is_whitespace_spec)]
pub fn is_whitespace(c: char) -> (r: bool)
    ensures
        r == is_whitespace_spec(c),
{
    ('\u{9}' <= c && c <= '\u{d}') || c == ' ' || c == '\u{85}' || c == '\u{a0}' || c == '\u{1680}'
        || ('\u{2000}' <= c && c <= '\u{200a}') || c == '\u{2028}' || c == '\u{2029}'
        || c == '\u{202f}' || c == '\u{205f}' || c == '\u{3000}'
}

/// `s` without the whitespace at its beginning.
pub open spec fn trim_start(s: Seq<char>) -> Seq<char>
    decreases s.len(),
{
    if s.len() > 0 && is_whitespace(s.first()) {
        trim_start(s.drop_first())
    } else {
        s
    }
}

/// `s` without the whitespace at its end.
pub open spec fn trim_end(s: Seq<char>) -> Seq<char>
    decreases s.len(),
{
    if s.len() > 0 && is_whitespace(s.last()) {
        trim_end(s.drop_last())
    } else {
        s
    }
}

/// `s` without the whitespace at its two ends.
pub open spec fn trim_spec(s: Seq<char>) -> Seq<char> {
    trim_end(trim_start(s))
}

/// Whether `s` neither begins nor ends with whitespace.
pub open spec fn trimmed(s: Seq<char>) -> bool {
    s.len() > 0 ==> !is_whitespace(s.first()) && !is_whitespace(s.last())
}

/// Behind `k` whitespace characters, what `trim_start` keeps begins at `k` or later.
pub proof fn lemma_trim_start_skips(s: Seq<char>, k: int)
    requires
        0 <= k <= s.len(),
        forall|j: int| 0 <= j < k ==> is_whitespace(s[j]),
    ensures
        trim_start(s) == trim_start(s.skip(k)),
    decreases k,
{
    if k > 0 {
        assert(s.drop_first().skip(k - 1) =~= s.skip(k));
        assert forall|j: int| 0 <= j < k - 1 implies is_whitespace(s.drop_first()[j]) by {
            assert(s.drop_first()[j] == s[j + 1]);
        }
        lemma_trim_start_skips(s.drop_first(), k - 1);
    } else {
        assert(s.skip(0) =~= s);
    }
}

/// Before whitespace that fills `s` from `k` on, what `trim_end` keeps ends at `k` or earlier.
pub proof fn lemma_trim_end_takes(s: Seq<char>, k: int)
    requires
        0 <= k <= s.len(),
        forall|j: int| k <= j < s.len() ==> is_whitespace(s[j]),
    ensures
        trim_end(s) == trim_end(s.take(k)),
    decreases s.len() - k,
{
    if k < s.len() {
        assert(s.drop_last().take(k) =~= s.take(k));
        lemma_trim_end_takes(s.drop_last(), k);
    } else {
        assert(s.take(k) =~= s);
    }
}

/// What `trim_start` keeps is an end of the text, and begins with no whitespace.
pub proof fn lemma_trim_start_keeps(s: Seq<char>)
    ensures
        exists|k: int| 0 <= k <= s.len() && trim_start(s) == s.skip(k),
        trim_start(s).len() > 0 ==> !is_whitespace(trim_start(s).first()),
    decreases s.len(),
{
    if s.len() > 0 && is_whitespace(s.first()) {
        lemma_trim_start_keeps(s.drop_first());
        let k = choose|k: int|
            0 <= k <= s.drop_first().len() && trim_start(s.drop_first()) == s.drop_first().skip(k);
        assert(s.drop_first().skip(k) =~= s.skip(k + 1));
    } else {
        assert(s.skip(0) =~= s);
    }
}

/// What `trim_end` keeps is a beginning of the text, and ends with no whitespace.
pub proof fn lemma_trim_end_keeps(s: Seq<char>)
    ensures
        exists|k: int| 0 <= k <= s.len() && trim_end(s) == s.take(k),
        trim_end(s).len() > 0 ==> !is_whitespace(trim_end(s).last()),
    decreases s.len(),
{
    if s.len() > 0 && is_whitespace(s.last()) {
        lemma_trim_end_keeps(s.drop_last());
        let k = choose|k: int|
            0 <= k <= s.drop_last().len() && trim_end(s.drop_last()) == s.drop_last().take(k);
        assert(s.drop_last().take(k) =~= s.take(k));
    } else {
        assert(s.take(s.len() as int) =~= s);
    }
}

/// What `trim_spec` keeps is a part of the text that neither begins nor ends with
/// whitespace.
pub proof fn lemma_trim_keeps(s: Seq<char>)
    ensures
        exists|i: int, j: int| 0 <= i <= j <= s.len() && trim_spec(s) == s.subrange(i, j),
        trimmed(trim_spec(s)),
{
    lemma_trim_start_keeps(s);
    let t = trim_start(s);
    lemma_trim_end_keeps(t);
    let i = choose|k: int| 0 <= k <= s.len() && trim_start(s) == s.skip(k);
    let k = choose|k: int| 0 <= k <= t.len() && trim_end(t) == t.take(k);
    assert(s.skip(i).take(k) =~= s.subrange(i, i + k));
    if trim_spec(s).len() > 0 {
        assert(trim_spec(s).first() == t.first());
    }
}

/// A text that neither begins nor ends with whitespace is kept whole.
pub proof fn lemma_trimmed_is_kept(s: Seq<char>)
    requires
        trimmed(s),
    ensures
        trim_spec(s) == s,
{
}

/// A character that a text does not hold is not in what is kept of it.
pub proof fn lemma_trim_holds_no_more(s: Seq<char>, c: char)
    requires
        !s.contains(c),
    ensures
        !trim_spec(s).contains(c),
{
    lemma_trim_keeps(s);
    let (i, j) = choose|i: int, j: int| 0 <= i <= j <= s.len() && trim_spec(s) == s.subrange(i, j);
    if trim_spec(s).contains(c) {
        let k = choose|k: int| 0 <= k < trim_spec(s).len() && trim_spec(s)[k] == c;
        assert(s[i + k] == c);
    }
}

/// Removes the whitespace at the two ends of `s`.
pub fn trim<'a>(s: &'a str) -> (r: &'a str)
    ensures
        r@ == trim_spec(s@),
{
    broadcast use group_string_axioms;

    let total: usize = s.as_bytes().len();
    proof {
        lemma_encode_len(s@);
    }
    let mut it = s.chars();
    let mut i: usize = 0;
    let mut start: usize = 0;
    let mut end: usize = 0;
    loop
        invariant
            s@.len() <= total,
            i <= s@.len(),
            it.remaining() == s@.skip(i as int),
            start <= end <= i,
            forall|j: int| 0 <= j < start ==> is_whitespace(s@[j]),
            forall|j: int| end <= j < i ==> is_whitespace(s@[j]),
            start < end ==> !is_whitespace(s@[start as int]) && !is_whitespace(s@[end - 1]),
            start == end ==> start == i,
        ensures
            i == s@.len(),
        decreases s@.len() - i,
    {
        match it.next() {
            Some(c) => {
                if is_whitespace(c) {
                    if start == end {
                        start = i + 1;
                        end = i + 1;
                    }
                } else {
                    if start == end {
                        start = i;
                    }
                    end = i + 1;
                }
                i += 1;
            },
            None => {
                break ;
            },
        }
    }
    proof {
        let kept = s@.subrange(start as int, end as int);
        lemma_trim_start_skips(s@, start as int);
        assert(trim_start(s@.skip(start as int)) == s@.skip(start as int)) by {
            if start < s@.len() {
                assert(s@.skip(start as int).first() == s@[start as int]);
            }
        }
        let tail = s@.skip(start as int);
        assert forall|j: int| end - start <= j < tail.len() implies is_whitespace(tail[j]) by {
            assert(tail[j] == s@[start + j]);
        }
        lemma_trim_end_takes(tail, end - start);
        assert(tail.take(end - start) =~= kept);
        assert(trim_end(kept) == kept) by {
            if start < end {
                assert(kept.last() == s@[end - 1]);
            }
        }
    }
    s.substring_char(start, end)
}

} // verus!
