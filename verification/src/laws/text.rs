//! What trimming, splitting, replacing and taking words apart give of a text.
use vstd::prelude::*;
use vstd::utf8::is_ascii_chars;

use crate::laws::splitting::{joined_by, lemma_before_first};
use crate::search::{begins_with, find, lemma_find_from, occurs_at, split, split_once};
use crate::text::{
    ascii_lower, ascii_lowercase, ascii_start, is_white, lowercase, lowered_rest, only, replace,
    strip_copies, trim, trim_by, trim_char, trim_end, trim_start, white, words,
};

verus! {

/// Every character of a text is of a kind.
pub open spec fn is_all(s: Seq<char>, p: spec_fn(char) -> bool) -> bool {
    forall|i: int| 0 <= i < s.len() ==> p(#[trigger] s[i])
}

/// Trimming at the start takes off the characters of its kind there.
pub proof fn lemma_trim_start_takes_off(lead: Seq<char>, s: Seq<char>, p: spec_fn(char) -> bool)
    requires
        is_all(lead, p),
        s.len() > 0 ==> !p(s[0]),
    ensures
        trim_start(lead + s, p) == s,
    decreases lead.len(),
{
    let all = lead + s;
    if lead.len() == 0 {
        assert(all =~= s);
    } else {
        assert(all[0] == lead[0]);
        assert(all.skip(1) =~= lead.skip(1) + s);
        assert(is_all(lead.skip(1), p));
        lemma_trim_start_takes_off(lead.skip(1), s, p);
    }
}

/// Trimming at the end takes off the characters of its kind there.
proof fn lemma_trim_end_takes_off(s: Seq<char>, tail: Seq<char>, p: spec_fn(char) -> bool)
    requires
        is_all(tail, p),
        s.len() > 0 ==> !p(s.last()),
    ensures
        trim_end(s + tail, p) == s,
    decreases tail.len(),
{
    let all = s + tail;
    if tail.len() == 0 {
        assert(all =~= s);
    } else {
        assert(all.last() == tail.last());
        assert(all.drop_last() =~= s + tail.drop_last());
        assert(is_all(tail.drop_last(), p));
        lemma_trim_end_takes_off(s, tail.drop_last(), p);
    }
}

/// Trimming a text by a kind of character.
proof fn lemma_trim_by(lead: Seq<char>, s: Seq<char>, tail: Seq<char>, p: spec_fn(char) -> bool)
    requires
        is_all(lead, p),
        is_all(tail, p),
        s.len() > 0 ==> !p(s[0]) && !p(s.last()),
    ensures
        trim_by(lead + s + tail, p) == s,
{
    if s.len() == 0 {
        let all = lead + tail;
        assert(lead + s + tail =~= all + Seq::<char>::empty());
        lemma_trim_start_takes_off(all, seq![], p);
        assert(s =~= seq![]);
    } else {
        assert(lead + s + tail =~= lead + (s + tail));
        assert((s + tail)[0] == s[0]);
        lemma_trim_start_takes_off(lead, s + tail, p);
        lemma_trim_end_takes_off(s, tail, p);
    }
}

/// Trimming takes off exactly the white space around a text, or the given character, and
/// leaves the text between as it is.
pub proof fn law_trimming_leaves_what_is_between(
    lead: Seq<char>,
    s: Seq<char>,
    tail: Seq<char>,
    c: char,
)
    ensures
        is_all(lead, |x: char| is_white(x)) && is_all(tail, |x: char| is_white(x)) && (s.len() > 0
            ==> !is_white(s[0]) && !is_white(s.last())) ==> trim(lead + s + tail) == s,
        is_all(lead, |x: char| x == c) && is_all(tail, |x: char| x == c) && (s.len() > 0 ==> s[0]
            != c && s.last() != c) ==> trim_char(lead + s + tail, c) == s,
        is_all(lead, |x: char| x == c) && (s.len() > 0 ==> s[0] != c) ==> trim_start(
            lead + s,
            only(c),
        ) == s,
{
    if is_all(lead, |x: char| is_white(x)) && is_all(tail, |x: char| is_white(x)) && (s.len() > 0
        ==> !is_white(s[0]) && !is_white(s.last())) {
        assert(is_all(lead, white()) && is_all(tail, white()));
        lemma_trim_by(lead, s, tail, white());
    }
    if is_all(lead, |x: char| x == c) && is_all(tail, |x: char| x == c) && (s.len() > 0 ==> s[0]
        != c && s.last() != c) {
        assert(is_all(lead, only(c)) && is_all(tail, only(c)));
        lemma_trim_by(lead, s, tail, only(c));
    }
    if is_all(lead, |x: char| x == c) && (s.len() > 0 ==> s[0] != c) {
        assert(is_all(lead, only(c)));
        lemma_trim_start_takes_off(lead, s, only(c));
    }
}

/// A text begins with another where the other comes first in it, and nowhere else.
pub proof fn law_begins_with<T>(s: Seq<T>, start: Seq<T>, rest: Seq<T>)
    ensures
        begins_with(start + rest, start),
        begins_with(s, start) ==> s == start + s.skip(start.len() as int),
{
    assert((start + rest).subrange(0, start.len() as int) =~= start);
    if begins_with(s, start) {
        assert(s =~= s.subrange(0, start.len() as int) + s.skip(start.len() as int));
    }
}

/// Every copy of a text that stands at the start is dropped, and then nothing more.
pub proof fn law_copies_are_stripped(s: Seq<char>, copy: Seq<char>)
    requires
        copy.len() > 0,
    ensures
        strip_copies(copy + s, copy) == strip_copies(s, copy),
        !begins_with(s, copy) ==> strip_copies(s, copy) == s,
{
    law_begins_with(s, copy, s);
    assert((copy + s).skip(copy.len() as int) =~= s);
}

/// A text is found where it stands first, and only there.
pub proof fn law_found_where_it_stands_first<T>(s: Seq<T>, pat: Seq<T>)
    ensures
        match find(s, pat) {
            Some(i) => {
                &&& 0 <= i
                &&& i + pat.len() <= s.len()
                &&& s == s.take(i) + pat + s.skip(i + pat.len())
                &&& forall|j: int| 0 <= j < i ==> (#[trigger] s.skip(j)).take(pat.len() as int) != pat
            },
            None => forall|j: int|
                0 <= j && j + pat.len() <= s.len() ==> (#[trigger] s.skip(j)).take(
                    pat.len() as int,
                ) != pat,
        },
{
    lemma_find_from(s, pat, 0);
    if let Some(i) = find(s, pat) {
        assert(s =~= s.take(i) + s.subrange(i, i + pat.len()) + s.skip(i + pat.len()));
        assert forall|j: int| 0 <= j < i implies (#[trigger] s.skip(j)).take(pat.len() as int)
            != pat by {
            assert(!occurs_at(s, pat, j));
            assert(s.skip(j).take(pat.len() as int) =~= s.subrange(j, j + pat.len()));
        }
    } else {
        assert forall|j: int| 0 <= j && j + pat.len() <= s.len() implies (
        #[trigger] s.skip(j)).take(pat.len() as int) != pat by {
            assert(!occurs_at(s, pat, j));
            assert(s.skip(j).take(pat.len() as int) =~= s.subrange(j, j + pat.len()));
        }
    }
}

/// The pieces that splitting gives join to the text again, and none of them holds the
/// separator.
pub proof fn law_pieces_join_again<T>(s: Seq<T>, sep: Seq<T>)
    requires
        sep.len() > 0,
    ensures
        split(s, sep).len() > 0,
        joined_by(split(s, sep), sep) == s,
        forall|i: int| 0 <= i < split(s, sep).len() ==> find(#[trigger] split(s, sep)[i], sep) is None,
        split_once(s, sep) is Some <==> split(s, sep).len() > 1,
        split_once(s, sep) is Some ==> (split_once(s, sep)->0).0 == split(s, sep)[0]
            && (split_once(s, sep)->0).0 + sep + (split_once(s, sep)->0).1 == s,
    decreases s.len(),
{
    let pieces = split(s, sep);
    if find(s, sep) is Some {
        let i = find(s, sep)->0;
        lemma_before_first(s, sep);
        let rest = s.skip(i + sep.len());
        law_pieces_join_again(rest, sep);
        assert(pieces.skip(1) =~= split(rest, sep));
        assert forall|k: int| 0 <= k < pieces.len() implies find(#[trigger] pieces[k], sep) is None by {
            if k > 0 {
                assert(pieces[k] == split(rest, sep)[k - 1]);
            }
        }
    } else {
        assert(pieces =~= seq![s]);
    }
}

/// To replace a text is to join by the new one what stands between the old ones.
pub proof fn law_replacing_joins_pieces(s: Seq<char>, from: Seq<char>, to: Seq<char>)
    requires
        from.len() > 0,
    ensures
        replace(s, from, to) == joined_by(split(s, from), to),
    decreases s.len(),
{
    if find(s, from) is Some {
        let i = find(s, from)->0;
        lemma_before_first(s, from);
        let rest = s.skip(i + from.len());
        law_replacing_joins_pieces(rest, from, to);
        law_pieces_join_again(rest, from);
        assert(split(s, from).skip(1) =~= split(rest, from));
    }
}

/// The words of a text are what stands between its white space: white space at the start
/// counts for nothing, and a run of other characters before white space or the end is the
/// first word.
pub proof fn law_words_stand_between_white_space(c: char, word: Seq<char>, rest: Seq<char>)
    ensures
        words(Seq::<char>::empty()) == Seq::<Seq<char>>::empty(),
        is_white(c) ==> words(seq![c] + rest) == words(rest),
        word.len() > 0 && is_all(word, |x: char| !is_white(x)) && (rest.len() == 0 || is_white(
            rest[0],
        )) ==> words(word + rest) == seq![word] + words(rest),
{
    assert((seq![c] + rest).skip(1) =~= rest);
    if word.len() > 0 && is_all(word, |x: char| !is_white(x)) && (rest.len() == 0 || is_white(
        rest[0],
    )) {
        assert forall|i: int| 0 <= i < word.len() implies !is_white(#[trigger] word[i]) by {
            let p = |x: char| !is_white(x);
            assert(p(word[i]));
        }
        crate::laws::requests::lemma_word_before_space(word, rest);
    }
}

/// The letters `A` to `Z` are lowered to `a` to `z` at their places, and nothing else changes.
pub proof fn law_letters_are_lowered(s: Seq<char>, i: int, k: int)
    requires
        0 <= i < s.len(),
        0 <= k < 26,
    ensures
        ascii_lowercase(s).len() == s.len(),
        s[i] == "ABCDEFGHIJKLMNOPQRSTUVWXYZ"@[k] ==> ascii_lowercase(s)[i]
            == "abcdefghijklmnopqrstuvwxyz"@[k],
        !('A' <= s[i] <= 'Z') ==> ascii_lowercase(s)[i] == s[i],
{
    reveal_strlit("ABCDEFGHIJKLMNOPQRSTUVWXYZ");
    reveal_strlit("abcdefghijklmnopqrstuvwxyz");
    assert("ABCDEFGHIJKLMNOPQRSTUVWXYZ"@[k] as u32 == 65 + k);
    assert("abcdefghijklmnopqrstuvwxyz"@[k] as u32 == 97 + k);
    assert(ascii_lowercase(s)[i] == ascii_lower(s[i]));
}

/// Up to its first character beyond ASCII, a text in lower case is the text with its letters
/// lowered one by one.
pub proof fn law_lower_case_begins_with_lowered_letters(start: Seq<char>, rest: Seq<char>)
    requires
        is_ascii_chars(start),
        rest.len() > 0 ==> rest[0] > '\u{7f}',
    ensures
        lowercase(start) == ascii_lowercase(start),
        begins_with(lowercase(start + rest), ascii_lowercase(start)),
{
    if rest.len() == 0 {
        assert(start + rest =~= start);
        law_begins_with(start, ascii_lowercase(start), Seq::<char>::empty());
        assert(ascii_lowercase(start) + Seq::<char>::empty() =~= ascii_lowercase(start));
    } else {
        let whole = start + rest;
        assert(whole[start.len() as int] == rest[0]);
        assert(!is_ascii_chars(whole));
        lemma_ascii_start_is(start, rest);
        assert(whole.take(start.len() as int) =~= start);
        law_begins_with(whole, ascii_lowercase(start), lowered_rest(whole));
    }
}

/// The ASCII characters at the start of a text end before the first other one.
proof fn lemma_ascii_start_is(start: Seq<char>, rest: Seq<char>)
    requires
        is_ascii_chars(start),
        rest.len() > 0,
        rest[0] > '\u{7f}',
    ensures
        ascii_start(start + rest) == start.len(),
    decreases start.len(),
{
    let whole = start + rest;
    if start.len() == 0 {
        assert(whole[0] == rest[0]);
    } else {
        assert(whole[0] == start[0]);
        assert(whole.skip(1) =~= start.skip(1) + rest);
        lemma_ascii_start_is(start.skip(1), rest);
    }
}

/// White space are the characters that Unicode lists as such: five controls, the space, the
/// next line, and the spaces and separators beyond ASCII.
pub proof fn law_white_space_is_that_of_unicode(c: char)
    ensures
        is_white(c) <==> {
            let n = c as u32;
            ||| 9 <= n < 14
            ||| n == 32
            ||| n == 133
            ||| n == 160
            ||| n == 5760
            ||| 8192 <= n < 8203
            ||| n == 8232
            ||| n == 8233
            ||| n == 8239
            ||| n == 8287
            ||| n == 12288
        },
{
}

} // verus!
