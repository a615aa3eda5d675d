//! Text as sequences of characters: trimming, words, replacement, letter case, and the
//! passage between text and UTF-8 bytes.
use vstd::prelude::*;
use vstd::slice::slice_subrange;
use vstd::utf8::{decode_utf8, is_ascii_chars, valid_utf8};

use crate::search::{begins_with, find, lemma_find_from, matches_at, position, views};

verus! {

/// Appends one character, as `String::push` documents it.
pub assume_specification[ String::push ](s: &mut String, c: char)
    ensures
        final(s)@ == old(s)@.push(c),
;

/// What `str::to_lowercase` gives for a text with characters outside ASCII, from the place
/// on that stands for the first of them.
pub uninterp spec fn lowered_rest(s: Seq<char>) -> Seq<char>;

/// The length of the run of ASCII characters at the start.
pub open spec fn ascii_start(s: Seq<char>) -> int
    decreases s.len(),
{
    if s.len() == 0 || s[0] > '\u{7f}' {
        0
    } else {
        1 + ascii_start(s.skip(1))
    }
}

/// The lower-case form of one ASCII letter; any other character stands for itself.
pub open spec fn ascii_lower(c: char) -> char {
    if 'A' <= c <= 'Z' {
        (c as u32 + 32) as char
    } else {
        c
    }
}

/// A text with its ASCII letters in lower case.
pub open spec fn ascii_lowercase(s: Seq<char>) -> Seq<char> {
    s.map_values(|c: char| ascii_lower(c))
}

/// A text in lower case.
pub open spec fn lowercase(s: Seq<char>) -> Seq<char> {
    if is_ascii_chars(s) {
        ascii_lowercase(s)
    } else {
        ascii_lowercase(s.take(ascii_start(s))) + lowered_rest(s)
    }
}

/// Calls `str::to_lowercase`. On text of ASCII characters it lowers the letters `A` to `Z`
/// and keeps every other character. It does the same with the ASCII characters at the start
/// of other text; what follows them is a function of the text, and nothing more is said of
/// it.
#[verifier::external_body]
pub(crate) fn to_lowercase(s: &str) -> (r: String)
    ensures
        is_ascii_chars(s@) ==> r@ == ascii_lowercase(s@),
        !is_ascii_chars(s@) ==> r@ == ascii_lowercase(s@.take(ascii_start(s@))) + lowered_rest(s@),
{
    s.to_lowercase()
}

/// Calls `String::from_utf8`, which succeeds on well-formed UTF-8 and nowhere else, and
/// gives the text that the bytes encode.
#[verifier::external_body]
pub(crate) fn text_from_utf8(bytes: &[u8]) -> (r: Option<String>)
    ensures
        match r {
            Some(s) => valid_utf8(bytes@) && s@ == decode_utf8(bytes@),
            None => !valid_utf8(bytes@),
        },
{
    String::from_utf8(bytes.to_vec()).ok()
}

/// The characters of a text.
pub fn chars_of(s: &str) -> (r: Vec<char>)
    ensures
        r@ == s@,
{
    let mut out: Vec<char> = Vec::new();
    for c in it: s.chars()
        invariant
            out@ == it.seq().take(it.index()),
    {
        out.push(c);
    }
    out
}

/// The text made of the given characters.
pub fn string_of(chars: &[char]) -> (r: String)
    ensures
        r@ == chars@,
{
    let mut out = String::new();
    let mut k: usize = 0;
    while k < chars.len()
        invariant
            k <= chars.len(),
            out@ == chars@.take(k as int),
        decreases chars.len() - k,
    {
        assert(chars@.take(k + 1) =~= chars@.take(k as int).push(chars@[k as int]));
        out.push(chars[k]);
        k += 1;
    }
    assert(chars@.take(k as int) =~= chars@);
    out
}

/// Compares two texts.
pub fn same_text(a: &str, b: &str) -> (r: bool)
    ensures
        r == (a@ == b@),
{
    proof {
        vstd::utf8::encode_utf8_decode_utf8(a@);
        vstd::utf8::encode_utf8_decode_utf8(b@);
    }
    let x = a.as_bytes();
    let y = b.as_bytes();
    if x.len() != y.len() {
        return false;
    }
    let r = matches_at(x, y, 0);
    assert(x@.subrange(0, y@.len() as int) =~= x@);
    r
}

/// The characters with the Unicode property White_Space.
pub open spec fn is_white(c: char) -> bool {
    ||| '\u{9}' <= c <= '\u{d}'
    ||| c == ' '
    ||| c == '\u{85}'
    ||| c == '\u{a0}'
    ||| c == '\u{1680}'
    ||| '\u{2000}' <= c <= '\u{200a}'
    ||| c == '\u{2028}'
    ||| c == '\u{2029}'
    ||| c == '\u{202f}'
    ||| c == '\u{205f}'
    ||| c == '\u{3000}'
}

/// Tests for the Unicode property White_Space.
pub fn is_white_space(c: char) -> (b: bool)
    ensures
        b == is_white(c),
{
    ('\u{9}' <= c && c <= '\u{d}') || c == ' ' || c == '\u{85}' || c == '\u{a0}' || c == '\u{1680}'
        || ('\u{2000}' <= c && c <= '\u{200a}') || c == '\u{2028}' || c == '\u{2029}' || c
        == '\u{202f}' || c == '\u{205f}' || c == '\u{3000}'
}

/// Text that fits on one line.
pub open spec fn is_line_text(s: Seq<char>) -> bool {
    !s.contains('\r') && !s.contains('\n')
}

/// The text without the characters of kind `p` at its start.
pub open spec fn trim_start(s: Seq<char>, p: spec_fn(char) -> bool) -> Seq<char>
    decreases s.len(),
{
    if s.len() > 0 && p(s[0]) {
        trim_start(s.skip(1), p)
    } else {
        s
    }
}

/// The text without the characters of kind `p` at its end.
pub open spec fn trim_end(s: Seq<char>, p: spec_fn(char) -> bool) -> Seq<char>
    decreases s.len(),
{
    if s.len() > 0 && p(s.last()) {
        trim_end(s.drop_last(), p)
    } else {
        s
    }
}

/// The text without the characters of kind `p` at its two ends.
pub open spec fn trim_by(s: Seq<char>, p: spec_fn(char) -> bool) -> Seq<char> {
    trim_end(trim_start(s, p), p)
}

/// The kind of all white space.
pub open spec fn white() -> spec_fn(char) -> bool {
    |c: char| is_white(c)
}

/// The kind that holds the one character `x`.
pub open spec fn only(x: char) -> spec_fn(char) -> bool {
    |c: char| c == x
}

/// The text without white space at its two ends.
pub open spec fn trim(s: Seq<char>) -> Seq<char> {
    trim_by(s, white())
}

/// The text without the character `x` at its two ends.
pub open spec fn trim_char(s: Seq<char>, x: char) -> Seq<char> {
    trim_by(s, only(x))
}

/// Drops white space at the two ends.
pub fn trimmed<'a>(s: &'a [char]) -> (r: &'a [char])
    ensures
        r@ == trim(s@),
{
    let mut lo: usize = 0;
    let mut hi: usize = s.len();
    assert(s@.skip(0) =~= s@);
    while lo < hi && is_white_space(s[lo])
        invariant
            lo <= hi,
            hi == s@.len(),
            trim_start(s@, white()) == trim_start(s@.skip(lo as int), white()),
        decreases hi - lo,
    {
        assert(s@.skip(lo as int).skip(1) =~= s@.skip(lo + 1));
        lo += 1;
    }
    let ghost core = s@.skip(lo as int);
    assert(core =~= s@.subrange(lo as int, hi as int));
    while lo < hi && is_white_space(s[hi - 1])
        invariant
            lo <= hi <= s@.len(),
            trim_end(core, white()) == trim_end(s@.subrange(lo as int, hi as int), white()),
        decreases hi - lo,
    {
        assert(s@.subrange(lo as int, hi as int).drop_last() =~= s@.subrange(lo as int, hi - 1));
        hi -= 1;
    }
    slice_subrange(s, lo, hi)
}

/// Drops white space at the start.
pub fn trimmed_start<'a>(s: &'a [char]) -> (r: &'a [char])
    ensures
        r@ == trim_start(s@, white()),
{
    let mut lo: usize = 0;
    assert(s@.skip(0) =~= s@);
    while lo < s.len() && is_white_space(s[lo])
        invariant
            lo <= s@.len(),
            trim_start(s@, white()) == trim_start(s@.skip(lo as int), white()),
        decreases s@.len() - lo,
    {
        assert(s@.skip(lo as int).skip(1) =~= s@.skip(lo + 1));
        lo += 1;
    }
    assert(s@.skip(lo as int) =~= s@.subrange(lo as int, s@.len() as int));
    slice_subrange(s, lo, s.len())
}

/// Drops the character `x` at the start.
pub fn trimmed_start_of<'a>(s: &'a [char], x: char) -> (r: &'a [char])
    ensures
        r@ == trim_start(s@, only(x)),
{
    let mut lo: usize = 0;
    assert(s@.skip(0) =~= s@);
    while lo < s.len() && s[lo] == x
        invariant
            lo <= s@.len(),
            trim_start(s@, only(x)) == trim_start(s@.skip(lo as int), only(x)),
        decreases s@.len() - lo,
    {
        assert(s@.skip(lo as int).skip(1) =~= s@.skip(lo + 1));
        lo += 1;
    }
    assert(s@.skip(lo as int) =~= s@.subrange(lo as int, s@.len() as int));
    slice_subrange(s, lo, s.len())
}

/// Drops the character `x` at the two ends.
pub fn trimmed_of<'a>(s: &'a [char], x: char) -> (r: &'a [char])
    ensures
        r@ == trim_char(s@, x),
{
    let t = trimmed_start_of(s, x);
    let mut hi: usize = t.len();
    assert(t@.subrange(0, hi as int) =~= t@);
    while 0 < hi && t[hi - 1] == x
        invariant
            hi <= t@.len(),
            trim_end(t@, only(x)) == trim_end(t@.subrange(0, hi as int), only(x)),
        decreases hi,
    {
        assert(t@.subrange(0, hi as int).drop_last() =~= t@.subrange(0, hi - 1));
        hi -= 1;
    }
    slice_subrange(t, 0, hi)
}

/// The text without the copies of `pat` that it begins with.
pub open spec fn strip_copies(s: Seq<char>, pat: Seq<char>) -> Seq<char>
    decreases s.len(),
{
    if pat.len() > 0 && begins_with(s, pat) {
        strip_copies(s.skip(pat.len() as int), pat)
    } else {
        s
    }
}

/// Drops every copy of `pat` at the start, one after the other.
pub fn without_copies<'a>(s: &'a [char], pat: &[char]) -> (r: &'a [char])
    ensures
        r@ == strip_copies(s@, pat@),
{
    let mut lo: usize = 0;
    assert(s@.skip(0) =~= s@);
    if pat.len() == 0 {
        return s;
    }
    while matches_at(s, pat, lo)
        invariant
            lo <= s@.len(),
            pat@.len() > 0,
            strip_copies(s@, pat@) == strip_copies(s@.skip(lo as int), pat@),
        decreases s@.len() - lo,
    {
        assert(s@.skip(lo as int).subrange(0, pat@.len() as int) =~= s@.subrange(
            lo as int,
            lo + pat@.len(),
        ));
        assert(s@.skip(lo as int).skip(pat@.len() as int) =~= s@.skip(lo + pat@.len()));
        assert(lo + pat@.len() <= s.len());
        lo += pat.len();
    }
    assert(!begins_with(s@.skip(lo as int), pat@)) by {
        if begins_with(s@.skip(lo as int), pat@) {
            assert(s@.skip(lo as int).subrange(0, pat@.len() as int) =~= s@.subrange(
                lo as int,
                lo + pat@.len(),
            ));
        }
    }
    assert(s@.skip(lo as int) =~= s@.subrange(lo as int, s@.len() as int));
    slice_subrange(s, lo, s.len())
}

/// The length of the run of non-white characters at the start.
pub open spec fn word_len(s: Seq<char>) -> nat
    decreases s.len(),
{
    if s.len() == 0 || is_white(s[0]) {
        0
    } else {
        1 + word_len(s.skip(1))
    }
}

/// A run of non-white characters lies inside its text.
pub proof fn lemma_word_len(s: Seq<char>)
    ensures
        word_len(s) <= s.len(),
    decreases s.len(),
{
    if s.len() == 0 || is_white(s[0]) {
    } else {
        lemma_word_len(s.skip(1));
    }
}

/// The longest runs of non-white characters, from left to right.
pub open spec fn words(s: Seq<char>) -> Seq<Seq<char>>
    decreases s.len(),
{
    if s.len() == 0 {
        seq![]
    } else if is_white(s[0]) {
        words(s.skip(1))
    } else {
        proof {
            lemma_word_len(s);
        }
        seq![s.subrange(0, word_len(s) as int)] + words(s.skip(word_len(s) as int))
    }
}

/// Splits a text at its white space.
pub fn words_of<'a>(s: &'a [char]) -> (r: Vec<&'a [char]>)
    ensures
        views(r@) == words(s@),
{
    let mut out: Vec<&'a [char]> = Vec::new();
    let mut lo: usize = 0;
    let total: usize = s.len();
    assert(s@.skip(0) =~= s@);
    assert(views(out@) + words(s@) =~= words(s@));
    while lo < total
        invariant
            lo <= total,
            total == s@.len(),
            words(s@) == views(out@) + words(s@.skip(lo as int)),
        decreases total - lo,
    {
        let ghost rest = s@.skip(lo as int);
        if is_white_space(s[lo]) {
            assert(rest.skip(1) =~= s@.skip(lo + 1));
            lo += 1;
        } else {
            let mut hi: usize = lo;
            assert(s@.skip(lo as int) =~= rest);
            while hi < total && !is_white_space(s[hi])
                invariant
                    lo <= hi <= total,
                    total == s@.len(),
                    word_len(rest) == hi - lo + word_len(s@.skip(hi as int)),
                decreases total - hi,
            {
                assert(s@.skip(hi as int).skip(1) =~= s@.skip(hi + 1));
                hi += 1;
            }
            let ghost before = views(out@);
            let piece = slice_subrange(s, lo, hi);
            out.push(piece);
            proof {
                assert(word_len(rest) == hi - lo);
                assert(piece@ =~= rest.subrange(0, word_len(rest) as int));
                assert(rest.skip(word_len(rest) as int) =~= s@.skip(hi as int));
                assert(views(out@) =~= before.push(piece@));
                assert(views(out@) + words(s@.skip(hi as int)) =~= before + words(rest));
                lemma_word_len(rest);
            }
            lo = hi;
        }
    }
    assert(views(out@) + words(s@.skip(lo as int)) =~= views(out@));
    out
}

/// The text with `to` in place of each `from`, taken from the left without overlap.
pub open spec fn replace(s: Seq<char>, from: Seq<char>, to: Seq<char>) -> Seq<char>
    decreases s.len(),
    when from.len() > 0
{
    match find(s, from) {
        None => s,
        Some(i) => {
            proof {
                lemma_find_from(s, from, 0);
            }
            s.subrange(0, i) + to + replace(s.skip(i + from.len()), from, to)
        },
    }
}

/// Puts `to` in place of each `from`.
pub fn replaced(s: &[char], from: &[char], to: &[char]) -> (r: Vec<char>)
    requires
        from@.len() > 0,
    ensures
        r@ == replace(s@, from@, to@),
{
    let mut out: Vec<char> = Vec::new();
    let mut rest: &[char] = s;
    loop
        invariant
            from@.len() > 0,
            replace(s@, from@, to@) == out@ + replace(rest@, from@, to@),
        decreases rest@.len(),
    {
        match position(rest, from) {
            None => {
                out.extend_from_slice(rest);
                return out;
            },
            Some(i) => {
                let total: usize = rest.len();
                let ghost before = out@;
                out.extend_from_slice(slice_subrange(rest, 0, i));
                out.extend_from_slice(to);
                let tail = slice_subrange(rest, i + from.len(), total);
                assert(tail@ =~= rest@.skip(i + from@.len()));
                assert(out@ + replace(tail@, from@, to@) =~= before + replace(
                    rest@,
                    from@,
                    to@,
                ));
                rest = tail;
            },
        }
    }
}

/// Compares two texts without regard to the case of ASCII letters.
pub fn same_ignoring_ascii_case(a: &[char], b: &[char]) -> (r: bool)
    ensures
        r == (ascii_lowercase(a@) == ascii_lowercase(b@)),
{
    if a.len() != b.len() {
        assert(ascii_lowercase(a@).len() != ascii_lowercase(b@).len());
        return false;
    }
    let mut k: usize = 0;
    while k < a.len()
        invariant
            k <= a.len(),
            a@.len() == b@.len(),
            forall|j: int| 0 <= j < k ==> ascii_lower(a@[j]) == ascii_lower(b@[j]),
        decreases a.len() - k,
    {
        if lower_ascii(a[k]) != lower_ascii(b[k]) {
            assert(ascii_lowercase(a@)[k as int] != ascii_lowercase(b@)[k as int]);
            return false;
        }
        k += 1;
    }
    assert(ascii_lowercase(a@) =~= ascii_lowercase(b@));
    true
}

/// Lowers one ASCII letter.
pub fn lower_ascii(c: char) -> (r: char)
    ensures
        r == ascii_lower(c),
{
    if 'A' <= c && c <= 'Z' {
        (c as u8 + 32) as char
    } else {
        c
    }
}

} // verus!
